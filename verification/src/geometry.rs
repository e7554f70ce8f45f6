use vstd::prelude::*;

use crate::bbox::{lemma_union_laws, lemma_union_of_concat, union_of, BBox};

verus! {

/// A position on the integer coordinate grid.
#[derive(Clone, Copy, Debug, PartialEq, Eq, Structural)]
pub struct Coord {
    pub x: i64,
    pub y: i64,
}

/// A geometry, by the way its positions nest.
#[derive(Debug, PartialEq, Eq)]
pub enum Geometry {
    Point(Coord),
    MultiPoint(Vec<Coord>),
    LineString(Vec<Coord>),
    MultiLineString(Vec<Vec<Coord>>),
    Polygon(Vec<Vec<Coord>>),
    MultiPolygon(Vec<Vec<Vec<Coord>>>),
    GeometryCollection(Vec<Geometry>),
}

/// A feature as the index sees it: the caller's number for the record it
/// stands for, and its geometry, or none. The record itself stays with the
/// caller.
#[derive(Debug, PartialEq, Eq)]
pub struct Feature {
    pub record: usize,
    pub geometry: Option<Geometry>,
}

/// The position that stands for a feature without any.
pub open spec fn origin() -> Coord {
    Coord { x: 0, y: 0 }
}

/// The degenerate boxes of the positions `pts`, in order.
pub open spec fn point_boxes(pts: Seq<Coord>) -> Seq<BBox> {
    Seq::new(pts.len(), |i: int| BBox::point(pts[i].x, pts[i].y))
}

/// All positions of a list of lines or rings, in order.
pub open spec fn lines_coords(lines: Seq<Vec<Coord>>) -> Seq<Coord>
    decreases lines.len(),
{
    if lines.len() == 0 {
        Seq::empty()
    } else {
        lines_coords(lines.drop_last()) + lines.last()@
    }
}

/// All positions of a list of polygons, in order.
pub open spec fn polygons_coords(polygons: Seq<Vec<Vec<Coord>>>) -> Seq<Coord>
    decreases polygons.len(),
{
    if polygons.len() == 0 {
        Seq::empty()
    } else {
        polygons_coords(polygons.drop_last()) + lines_coords(polygons.last()@)
    }
}

/// All positions of a geometry, in order, whatever their nesting.
pub open spec fn geometry_coords(geom: Geometry) -> Seq<Coord>
    decreases geom, 0nat,
{
    match geom {
        Geometry::Point(c) => seq![c],
        Geometry::MultiPoint(pts) => pts@,
        Geometry::LineString(pts) => pts@,
        Geometry::MultiLineString(lines) => lines_coords(lines@),
        Geometry::Polygon(rings) => lines_coords(rings@),
        Geometry::MultiPolygon(polygons) => polygons_coords(polygons@),
        Geometry::GeometryCollection(members) => members_coords(members, members.len() as nat),
    }
}

/// All positions of the first `count` members of a collection, in order.
pub open spec fn members_coords(members: Vec<Geometry>, count: nat) -> Seq<Coord>
    decreases members, count,
{
    if count == 0 || count > members.len() {
        Seq::empty()
    } else {
        members_coords(members, (count - 1) as nat) + geometry_coords(members[count - 1])
    }
}

/// All positions of a feature: none where it has no geometry.
pub open spec fn feature_coords(feat: Feature) -> Seq<Coord> {
    match feat.geometry {
        Some(geom) => geometry_coords(geom),
        None => Seq::empty(),
    }
}

/// The position that represents a geometry: the first position of its
/// first part, and the origin where that part is missing or empty.
pub open spec fn representative(geom: Geometry) -> Coord
    decreases geom,
{
    match geom {
        Geometry::Point(c) => c,
        Geometry::MultiPoint(pts) => if pts.len() > 0 {
            pts[0]
        } else {
            origin()
        },
        Geometry::LineString(pts) => if pts.len() > 0 {
            pts[0]
        } else {
            origin()
        },
        Geometry::MultiLineString(lines) => if lines.len() > 0 && lines[0].len() > 0 {
            lines[0][0]
        } else {
            origin()
        },
        Geometry::Polygon(rings) => if rings.len() > 0 && rings[0].len() > 0 {
            rings[0][0]
        } else {
            origin()
        },
        Geometry::MultiPolygon(polygons) => if polygons.len() > 0 && polygons[0].len() > 0
            && polygons[0][0].len() > 0 {
            polygons[0][0][0]
        } else {
            origin()
        },
        Geometry::GeometryCollection(members) => if members.len() > 0 {
            representative(members[0])
        } else {
            origin()
        },
    }
}

/// The position that represents a feature: the origin where it has no
/// geometry.
pub open spec fn feature_point(feat: Feature) -> Coord {
    match feat.geometry {
        Some(geom) => representative(geom),
        None => origin(),
    }
}

/// The box of a feature: the smallest box that covers all of its positions,
/// and the degenerate box at the origin where it has none.
pub open spec fn feature_box(feat: Feature) -> BBox {
    if feature_coords(feat).len() > 0 {
        union_of(point_boxes(feature_coords(feat)))
    } else {
        BBox::point(0, 0)
    }
}

/// The union over at least one position is a box with `min <= max` on both
/// axes, and it covers each of the positions.
pub proof fn lemma_positions_box(pts: Seq<Coord>, i: int)
    requires
        0 <= i < pts.len(),
    ensures
        union_of(point_boxes(pts)).well_formed(),
        union_of(point_boxes(pts)).covers(BBox::point(pts[i].x, pts[i].y)),
{
    crate::bbox::lemma_union_of_covers(point_boxes(pts), i);
}

/// The boxes of a concatenation of positions are the concatenation of the
/// boxes, so a box grown over one list and then another has been grown over
/// both.
pub proof fn lemma_grow_over_concat(bb: BBox, first: Seq<Coord>, second: Seq<Coord>)
    ensures
        bb.union(union_of(point_boxes(first))).union(union_of(point_boxes(second))) == bb.union(
            union_of(point_boxes(first + second)),
        ),
{
    assert(point_boxes(first + second) =~= point_boxes(first) + point_boxes(second));
    lemma_union_of_concat(point_boxes(first), point_boxes(second));
    lemma_union_laws(bb, union_of(point_boxes(first)), union_of(point_boxes(second)));
}

/// A box grown over no positions is unchanged, and the union over a single
/// position is its degenerate box.
pub proof fn lemma_grow_over_few(bb: BBox, c: Coord)
    ensures
        bb.union(union_of(point_boxes(Seq::empty()))) == bb,
        union_of(point_boxes(seq![c])) == BBox::point(c.x, c.y),
{
    assert(point_boxes(Seq::empty()) =~= Seq::<BBox>::empty());
    let one = point_boxes(seq![c]);
    assert(one.last() == BBox::point(c.x, c.y));
    assert(union_of(one.drop_last()) == BBox::empty_box());
}

impl BBox {
    /// Grows `self` so that it covers the position `c`.
    pub fn expand_vec(&mut self, c: &Coord)
        ensures
            *final(self) == old(self).union(BBox::point(c.x, c.y)),
    {
        self.expand_xy(c.x, c.y);
    }

    /// Grows `self` over every position of `coords`.
    pub fn expand_vec_vec(&mut self, coords: &Vec<Coord>)
        ensures
            *final(self) == old(self).union(union_of(point_boxes(coords@))),
    {
        let ghost start = *self;
        let mut i: usize = 0;
        proof {
            lemma_grow_over_few(start, origin());
            assert(coords@.take(0) =~= Seq::<Coord>::empty());
        }
        while i < coords.len()
            invariant
                i <= coords@.len(),
                *self == start.union(union_of(point_boxes(coords@.take(i as int)))),
            decreases coords@.len() - i,
        {
            proof {
                lemma_grow_over_few(start, coords@[i as int]);
                lemma_grow_over_concat(start, coords@.take(i as int), seq![coords@[i as int]]);
                assert(coords@.take(i + 1) =~= coords@.take(i as int) + seq![coords@[i as int]]);
            }
            self.expand_vec(&coords[i]);
            i = i + 1;
        }
        assert(coords@.take(coords@.len() as int) =~= coords@);
    }

    /// Grows `self` over every position of every line or ring of `rings`.
    pub fn expand_vec_vec_vec(&mut self, rings: &Vec<Vec<Coord>>)
        ensures
            *final(self) == old(self).union(union_of(point_boxes(lines_coords(rings@)))),
    {
        let ghost start = *self;
        let mut i: usize = 0;
        proof {
            lemma_grow_over_few(start, origin());
            assert(rings@.take(0) =~= Seq::<Vec<Coord>>::empty());
        }
        while i < rings.len()
            invariant
                i <= rings@.len(),
                *self == start.union(union_of(point_boxes(lines_coords(rings@.take(i as int))))),
            decreases rings@.len() - i,
        {
            proof {
                lemma_grow_over_concat(start, lines_coords(rings@.take(i as int)), rings@[i as int]@);
                assert(rings@.take(i + 1).drop_last() =~= rings@.take(i as int));
            }
            self.expand_vec_vec(&rings[i]);
            i = i + 1;
        }
        assert(rings@.take(rings@.len() as int) =~= rings@);
    }

    /// Grows `self` over every position of every polygon of `polys`.
    pub fn expand_vec_vec_vec_vec(&mut self, polys: &Vec<Vec<Vec<Coord>>>)
        ensures
            *final(self) == old(self).union(union_of(point_boxes(polygons_coords(polys@)))),
    {
        let ghost start = *self;
        let mut i: usize = 0;
        proof {
            lemma_grow_over_few(start, origin());
            assert(polys@.take(0) =~= Seq::<Vec<Vec<Coord>>>::empty());
        }
        while i < polys.len()
            invariant
                i <= polys@.len(),
                *self == start.union(union_of(point_boxes(polygons_coords(polys@.take(i as int))))),
            decreases polys@.len() - i,
        {
            proof {
                lemma_grow_over_concat(
                    start,
                    polygons_coords(polys@.take(i as int)),
                    lines_coords(polys@[i as int]@),
                );
                assert(polys@.take(i + 1).drop_last() =~= polys@.take(i as int));
            }
            self.expand_vec_vec_vec(&polys[i]);
            i = i + 1;
        }
        assert(polys@.take(polys@.len() as int) =~= polys@);
    }

    /// Grows `self` over every position of `geom`, through any nesting.
    pub fn expand_geom(&mut self, geom: &Geometry)
        ensures
            *final(self) == old(self).union(union_of(point_boxes(geometry_coords(*geom)))),
        decreases geom,
    {
        match geom {
            Geometry::Point(c) => {
                proof {
                    lemma_grow_over_few(*self, *c);
                }
                self.expand_vec(c)
            },
            Geometry::MultiPoint(coords) => self.expand_vec_vec(coords),
            Geometry::LineString(coords) => self.expand_vec_vec(coords),
            Geometry::MultiLineString(coords) => self.expand_vec_vec_vec(coords),
            Geometry::Polygon(coords) => self.expand_vec_vec_vec(coords),
            Geometry::MultiPolygon(coords) => self.expand_vec_vec_vec_vec(coords),
            Geometry::GeometryCollection(geoms) => {
                let ghost start = *self;
                let mut i: usize = 0;
                proof {
                    lemma_grow_over_few(start, origin());
                }
                while i < geoms.len()
                    invariant
                        i <= geoms@.len(),
                        *geom == Geometry::GeometryCollection(*geoms),
                        *self == start.union(union_of(point_boxes(members_coords(*geoms, i as nat)))),
                    decreases geoms@.len() - i,
                {
                    proof {
                        lemma_grow_over_concat(
                            start,
                            members_coords(*geoms, i as nat),
                            geometry_coords(geoms@[i as int]),
                        );
                        assert(geom->GeometryCollection_0 == *geoms);
                        assert(decreases_to!(*geom => geom->GeometryCollection_0));
                        assert(decreases_to!(*geoms => geoms[i as int]));
                    }
                    self.expand_geom(&geoms[i]);
                    i = i + 1;
                }
            },
        }
    }

    /// Grows `self` over every position of `feat`; a feature without
    /// geometry leaves it unchanged.
    pub fn expand_feature(&mut self, feat: &Feature)
        ensures
            *final(self) == old(self).union(union_of(point_boxes(feature_coords(*feat)))),
    {
        match &feat.geometry {
            None => {
                proof {
                    lemma_grow_over_few(*self, origin());
                }
            },
            Some(g) => {
                self.expand_geom(g);
            },
        }
    }

    /// The box of `feat`: the smallest box that covers all of its positions,
    /// through any nesting. A feature without geometry, or whose geometry
    /// holds no position, gets the degenerate box at the origin.
    pub fn for_feature(feat: &Feature) -> (bb: BBox)
        ensures
            bb == feature_box(*feat),
    {
        let mut bb = BBox::empty();
        bb.expand_feature(feat);
        proof {
            let covered = union_of(point_boxes(feature_coords(*feat)));
            lemma_union_laws(covered, covered, covered);
            if feature_coords(*feat).len() > 0 {
                lemma_positions_box(feature_coords(*feat), 0);
            } else {
                assert(point_boxes(feature_coords(*feat)) =~= Seq::<BBox>::empty());
            }
        }
        if bb.min_x > bb.max_x {
            BBox::new(0, 0)
        } else {
            bb
        }
    }
}

/// The position that represents `feat`.
pub fn feat_coord(feat: &Feature) -> (c: Coord)
    ensures
        c == feature_point(*feat),
{
    match &feat.geometry {
        Some(geom) => coord(geom),
        None => Coord { x: 0, y: 0 },
    }
}

/// The position that represents `geom`: the first position of its first
/// part, and the origin where that part is missing or empty.
pub fn coord(geom: &Geometry) -> (c: Coord)
    ensures
        c == representative(*geom),
    decreases geom,
{
    let zero = Coord { x: 0, y: 0 };
    match geom {
        Geometry::Point(c) => *c,
        Geometry::MultiPoint(coords) => if coords.len() > 0 {
            coords[0]
        } else {
            zero
        },
        Geometry::LineString(coords) => if coords.len() > 0 {
            coords[0]
        } else {
            zero
        },
        Geometry::Polygon(rings) => if rings.len() > 0 && rings[0].len() > 0 {
            rings[0][0]
        } else {
            zero
        },
        Geometry::MultiLineString(lines) => if lines.len() > 0 && lines[0].len() > 0 {
            lines[0][0]
        } else {
            zero
        },
        Geometry::MultiPolygon(polys) => if polys.len() > 0 && polys[0].len() > 0 && polys[0][0].len()
            > 0 {
            polys[0][0][0]
        } else {
            zero
        },
        Geometry::GeometryCollection(geoms) => if geoms.len() > 0 {
            coord(&geoms[0])
        } else {
            zero
        },
    }
}

/// Where the last position of ring `i` begins in the flat array of
/// coordinates that holds two numbers for each position of each ring, the
/// closing position of each earlier ring left out of the count.
pub open spec fn ring_end(ring_lengths: Seq<usize>, i: int) -> int
    decreases i + 1,
{
    if i < 0 {
        0
    } else {
        ring_end(ring_lengths, i - 1) + (ring_lengths[i] - 1) * 2
    }
}

/// Ring ends grow with the ring where no ring is empty.
pub proof fn lemma_ring_end_monotonic(ring_lengths: Seq<usize>, i: int, j: int)
    requires
        forall|k: int| 0 <= k < ring_lengths.len() ==> ring_lengths[k] >= 1,
        -1 <= i <= j < ring_lengths.len(),
    ensures
        0 <= ring_end(ring_lengths, i) <= ring_end(ring_lengths, j),
    decreases j - i, j + 1,
{
    if i < j {
        lemma_ring_end_monotonic(ring_lengths, i, j - 1);
    } else if i >= 0 {
        lemma_ring_end_monotonic(ring_lengths, i - 1, i - 1);
    }
}

/// The end of each ring of a polygon, from the number of positions of each
/// ring. A polygon of a single ring, or of none, has no ends.
pub fn ring_ends(ring_lengths: &Vec<usize>) -> (ends: Option<Vec<usize>>)
    requires
        ring_lengths@.len() > 1 ==> forall|k: int|
            0 <= k < ring_lengths@.len() ==> ring_lengths@[k] >= 1,
        ring_lengths@.len() > 1 ==> ring_end(ring_lengths@, ring_lengths@.len() - 1) <= usize::MAX,
    ensures
        ring_lengths@.len() <= 1 ==> ends is None,
        ring_lengths@.len() > 1 ==> {
            &&& ends is Some
            &&& ends->0@.len() == ring_lengths@.len()
            &&& forall|i: int|
                0 <= i < ring_lengths@.len() ==> (#[trigger] ends->0@[i]) == ring_end(ring_lengths@, i)
        },
{
    if ring_lengths.len() > 1 {
        let mut ends: Vec<usize> = Vec::new();
        let mut last_coord_start_idx: usize = 0;
        let mut i: usize = 0;
        while i < ring_lengths.len()
            invariant
                i <= ring_lengths@.len(),
                forall|k: int| 0 <= k < ring_lengths@.len() ==> ring_lengths@[k] >= 1,
                ring_end(ring_lengths@, ring_lengths@.len() - 1) <= usize::MAX,
                last_coord_start_idx == ring_end(ring_lengths@, i - 1),
                ends@.len() == i,
                forall|k: int| 0 <= k < i ==> (#[trigger] ends@[k]) == ring_end(ring_lengths@, k),
            decreases ring_lengths@.len() - i,
        {
            proof {
                lemma_ring_end_monotonic(ring_lengths@, i as int, ring_lengths@.len() - 1);
                lemma_ring_end_monotonic(ring_lengths@, i - 1, i - 1);
            }
            last_coord_start_idx = last_coord_start_idx + (ring_lengths[i] - 1) * 2;
            ends.push(last_coord_start_idx);
            i = i + 1;
        }
        Some(ends)
    } else {
        None
    }
}

} // verus!
