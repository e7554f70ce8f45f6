use vstd::prelude::*;

verus! {

/// Axis-aligned bounding rectangle over integer coordinates.
///
/// A box that covers real data has `min <= max` on both axes. The value
/// returned by [`BBox::empty`] is inverted on both axes and serves only as
/// the neutral element of [`BBox::union`].
#[derive(Clone, Copy, Debug, PartialEq, Eq, Structural)]
pub struct BBox {
    pub min_x: i64,
    pub min_y: i64,
    pub max_x: i64,
    pub max_y: i64,
}

impl BBox {
    /// The degenerate box that covers exactly the point `(x, y)`.
    pub open spec fn point(x: i64, y: i64) -> BBox {
        BBox { min_x: x, min_y: y, max_x: x, max_y: y }
    }

    /// The neutral element of `union`: inverted on both axes.
    pub open spec fn empty_box() -> BBox {
        BBox { min_x: i64::MAX, min_y: i64::MAX, max_x: i64::MIN, max_y: i64::MIN }
    }

    /// `min <= max` on both axes.
    pub open spec fn well_formed(self) -> bool {
        self.min_x <= self.max_x && self.min_y <= self.max_y
    }

    /// Every point of `other` lies inside `self`.
    pub open spec fn covers(self, other: BBox) -> bool {
        &&& self.min_x <= other.min_x
        &&& self.min_y <= other.min_y
        &&& other.max_x <= self.max_x
        &&& other.max_y <= self.max_y
    }

    /// The smallest box that covers both `self` and `other`.
    pub open spec fn union(self, other: BBox) -> BBox {
        BBox {
            min_x: if other.min_x < self.min_x { other.min_x } else { self.min_x },
            min_y: if other.min_y < self.min_y { other.min_y } else { self.min_y },
            max_x: if other.max_x > self.max_x { other.max_x } else { self.max_x },
            max_y: if other.max_y > self.max_y { other.max_y } else { self.max_y },
        }
    }

    /// Extent along the x axis, `max_x - min_x`.
    pub open spec fn spec_width(self) -> int {
        self.max_x - self.min_x
    }

    /// Extent along the y axis, `max_y - min_y`.
    pub open spec fn spec_height(self) -> int {
        self.max_y - self.min_y
    }

    /// The center of the box, each axis from its own bounds, rounded down.
    pub open spec fn spec_center(self) -> (int, int) {
        ((self.min_x + self.max_x) / 2, (self.min_y + self.max_y) / 2)
    }

    /// Creates the degenerate box at the point `(x, y)`.
    pub fn new(x: i64, y: i64) -> (bb: BBox)
        ensures
            bb == BBox::point(x, y),
    {
        BBox { min_x: x, min_y: y, max_x: x, max_y: y }
    }

    /// Creates the neutral box used when nothing has been aggregated yet.
    pub fn empty() -> (bb: BBox)
        ensures
            bb == BBox::empty_box(),
    {
        BBox { min_x: i64::MAX, min_y: i64::MAX, max_x: i64::MIN, max_y: i64::MIN }
    }

    /// Grows `self` to the union of itself and `other`.
    pub fn expand(&mut self, other: &BBox)
        ensures
            *final(self) == old(self).union(*other),
    {
        if other.min_x < self.min_x {
            self.min_x = other.min_x;
        }
        if other.min_y < self.min_y {
            self.min_y = other.min_y;
        }
        if other.max_x > self.max_x {
            self.max_x = other.max_x;
        }
        if other.max_y > self.max_y {
            self.max_y = other.max_y;
        }
    }

    /// Grows `self` so that it covers the point `(x, y)`.
    pub fn expand_xy(&mut self, x: i64, y: i64)
        ensures
            *final(self) == old(self).union(BBox::point(x, y)),
    {
        if x < self.min_x {
            self.min_x = x;
        }
        if y < self.min_y {
            self.min_y = y;
        }
        if x > self.max_x {
            self.max_x = x;
        }
        if y > self.max_y {
            self.max_y = y;
        }
    }

    /// The four bounds in the order `min_x, min_y, max_x, max_y`.
    pub fn to_vec(&self) -> (v: Vec<i64>)
        ensures
            v@ == seq![self.min_x, self.min_y, self.max_x, self.max_y],
    {
        let mut v: Vec<i64> = Vec::new();
        v.push(self.min_x);
        v.push(self.min_y);
        v.push(self.max_x);
        v.push(self.max_y);
        assert(v@ =~= seq![self.min_x, self.min_y, self.max_x, self.max_y]);
        v
    }

    /// Extent along the x axis. Negative only for an inverted box.
    pub fn width(&self) -> (w: i128)
        ensures
            w == self.spec_width(),
    {
        let hi: i128 = self.max_x as i128;
        let lo: i128 = self.min_x as i128;
        hi - lo
    }

    /// Extent along the y axis. Negative only for an inverted box.
    pub fn height(&self) -> (h: i128)
        ensures
            h == self.spec_height(),
    {
        let hi: i128 = self.max_y as i128;
        let lo: i128 = self.min_y as i128;
        hi - lo
    }

    /// The center of the box, each axis from its own bounds, rounded down to
    /// the grid.
    pub fn center(&self) -> (c: (i64, i64))
        ensures
            c.0 == self.spec_center().0,
            c.1 == self.spec_center().1,
            2 * c.0 <= self.min_x + self.max_x <= 2 * c.0 + 1,
            2 * c.1 <= self.min_y + self.max_y <= 2 * c.1 + 1,
    {
        (midpoint(self.min_x, self.max_x), midpoint(self.min_y, self.max_y))
    }

    /// The sum of the two bounds on each axis,
    /// `(min_x + max_x, min_y + max_y)`: twice the center, without the
    /// rounding that the center itself needs.
    pub fn doubled_center(&self) -> (sums: (i128, i128))
        ensures
            sums.0 == self.min_x + self.max_x,
            sums.1 == self.min_y + self.max_y,
    {
        let x: i128 = self.min_x as i128 + self.max_x as i128;
        let y: i128 = self.min_y as i128 + self.max_y as i128;
        (x, y)
    }
}

/// The point halfway between `lo` and `hi`, rounded down.
fn midpoint(lo: i64, hi: i64) -> (m: i64)
    ensures
        m == (lo + hi) / 2,
        2 * m <= lo + hi <= 2 * m + 1,
{
    let sum: i128 = lo as i128 + hi as i128;
    if sum >= 0 {
        let half: u128 = (sum as u128) / 2;
        half as i64
    } else {
        let size: u128 = (-sum) as u128;
        let half: u128 = (size + 1) / 2;
        (-(half as i128)) as i64
    }
}

/// The union of a sequence of boxes, folded from the left starting at the
/// neutral box.
pub open spec fn union_of(boxes: Seq<BBox>) -> BBox
    decreases boxes.len(),
{
    if boxes.len() == 0 {
        BBox::empty_box()
    } else {
        union_of(boxes.drop_last()).union(boxes.last())
    }
}

/// `union` is commutative, associative and idempotent, and the neutral box
/// leaves every box unchanged.
pub proof fn lemma_union_laws(a: BBox, b: BBox, c: BBox)
    ensures
        a.union(b) == b.union(a),
        a.union(b).union(c) == a.union(b.union(c)),
        a.union(a) == a,
        BBox::empty_box().union(a) == a,
        a.union(BBox::empty_box()) == a,
{
}

/// The union covers both operands, and is the smallest box that does: any
/// box that covers both covers the union.
pub proof fn lemma_union_is_least_cover(a: BBox, b: BBox, c: BBox)
    ensures
        a.union(b).covers(a),
        a.union(b).covers(b),
        c.covers(a) && c.covers(b) ==> c.covers(a.union(b)),
        a.well_formed() || b.well_formed() ==> a.union(b).well_formed(),
{
}

/// The union of a concatenation is the union of the unions of its parts.
pub proof fn lemma_union_of_concat(a: Seq<BBox>, b: Seq<BBox>)
    ensures
        union_of(a + b) == union_of(a).union(union_of(b)),
    decreases b.len(),
{
    if b.len() == 0 {
        assert(a + b =~= a);
    } else {
        assert((a + b).drop_last() =~= a + b.drop_last());
        lemma_union_of_concat(a, b.drop_last());
        lemma_union_laws(union_of(a), union_of(b.drop_last()), b.last());
    }
}

/// The union of a sequence covers each of its members.
pub proof fn lemma_union_of_covers(boxes: Seq<BBox>, i: int)
    requires
        0 <= i < boxes.len(),
    ensures
        union_of(boxes).covers(boxes[i]),
    decreases boxes.len(),
{
    if i < boxes.len() - 1 {
        lemma_union_of_covers(boxes.drop_last(), i);
    }
}

} // verus!
