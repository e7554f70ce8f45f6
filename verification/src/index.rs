use core::ops::Range;
use vstd::prelude::*;

use crate::bbox::{lemma_union_of_concat, lemma_union_of_covers, union_of, BBox};

verus! {

/// Number of children aggregated under one parent node.
pub const NODE_SIZE: u16 = 16;

/// The size of the level above a level of `n` nodes: `n / 16`, rounded up.
pub open spec fn parent_level_size(n: nat) -> nat {
    (n + 15) / 16
}

/// The number of nodes on each level of the tree over `n` features, the
/// root level first and the features' own level last.
///
/// Without features the tree is a lone root. Otherwise the bottom level has
/// `n` nodes, each level above it has a sixteenth of the one below, rounded
/// up, and the first level of size one reached on the way up is the root; a
/// single feature still gets a root above it.
pub open spec fn level_sizes(n: nat) -> Seq<nat>
    decreases n,
{
    if n == 0 {
        seq![1nat]
    } else if n <= 16 {
        seq![1nat, n]
    } else {
        level_sizes(parent_level_size(n)).push(n)
    }
}

/// The sum of the first `level` entries of `sizes`: the position in the flat
/// node array at which that level begins.
pub open spec fn level_offset(sizes: Seq<nat>, level: int) -> nat
    decreases level,
{
    if level <= 0 {
        0
    } else {
        level_offset(sizes, level - 1) + sizes[level - 1]
    }
}

/// The total number of nodes of the tree over `n` features, all levels
/// together.
pub open spec fn tree_size(n: nat) -> nat {
    level_offset(level_sizes(n), level_sizes(n).len() as int)
}

/// One record of the index: a box and, for a leaf, the byte position of its
/// feature in the data section. Internal nodes keep the offset zero.
#[derive(Clone, Copy, Debug, PartialEq, Eq, Structural)]
pub struct IndexNode {
    pub bbox: BBox,
    pub offset: u64,
}

/// Where each level of a packed tree lives in the flat node array.
#[derive(Debug)]
pub struct RTreeIndexMeta {
    pub num_features: usize,
    pub num_nodes: usize,
    pub num_nodes_per_level: Vec<usize>,
    pub level_bounds: Vec<Range<usize>>,
}

impl RTreeIndexMeta {
    /// This layout is the one of the tree over `n` features: the level sizes
    /// are `level_sizes(n)`, each level's range begins where the one before
    /// it ends, the first begins at zero, and `num_nodes` is their sum.
    pub open spec fn describes(&self, n: nat) -> bool {
        let sizes = level_sizes(n);
        &&& self.num_features == n
        &&& self.num_nodes == tree_size(n)
        &&& self.num_nodes_per_level@.len() == sizes.len()
        &&& self.level_bounds@.len() == sizes.len()
        &&& forall|i: int|
            0 <= i < sizes.len() ==> (#[trigger] self.num_nodes_per_level@[i]) == sizes[i]
        &&& forall|i: int|
            0 <= i < sizes.len() ==> {
                &&& (#[trigger] self.level_bounds@[i]).start == level_offset(sizes, i)
                &&& self.level_bounds@[i].end == level_offset(sizes, i + 1)
            }
    }
}

/// The tree has a root level, which holds one node, and with at least one
/// feature a bottom level below it, which holds the features.
pub proof fn lemma_level_sizes_ends(n: nat)
    ensures
        level_sizes(n).len() >= 1,
        level_sizes(n)[0] == 1,
        n > 0 ==> level_sizes(n).len() >= 2 && level_sizes(n).last() == n,
        n == 0 ==> level_sizes(n).len() == 1,
    decreases n,
{
    if n > 16 {
        lemma_level_sizes_ends(parent_level_size(n));
    }
}

/// Each level holds a sixteenth of the nodes of the level below it, rounded
/// up, and no level is empty.
pub proof fn lemma_level_sizes_shrink(n: nat, level: int)
    requires
        0 <= level < level_sizes(n).len() - 1,
    ensures
        level_sizes(n)[level] == parent_level_size(level_sizes(n)[level + 1]),
        level_sizes(n)[level] >= 1,
        level_sizes(n)[level + 1] >= 1,
    decreases n,
{
    if n > 16 {
        let p = parent_level_size(n);
        lemma_level_sizes_ends(p);
        if level < level_sizes(p).len() - 1 {
            lemma_level_sizes_shrink(p, level);
        }
    }
}

/// Level offsets grow with the level.
pub proof fn lemma_level_offset_monotonic(sizes: Seq<nat>, i: int, j: int)
    requires
        i <= j,
    ensures
        level_offset(sizes, i) <= level_offset(sizes, j),
    decreases j - i,
{
    if i < j {
        lemma_level_offset_monotonic(sizes, i, j - 1);
    }
}

/// Offsets into a sequence do not change when further levels are appended.
pub proof fn lemma_level_offset_push(sizes: Seq<nat>, last: nat, level: int)
    requires
        level <= sizes.len(),
    ensures
        level_offset(sizes.push(last), level) == level_offset(sizes, level),
    decreases level,
{
    if level > 0 {
        lemma_level_offset_push(sizes, last, level - 1);
    }
}

/// The tree over `n` features has at most `2n + 1` nodes, so the layout of
/// any input of up to half the address space can be computed.
pub proof fn lemma_tree_size_bound(n: nat)
    ensures
        n + 1 <= tree_size(n) <= 2 * n + 1,
    decreases n,
{
    let sizes = level_sizes(n);
    if n == 0 {
        assert(level_offset(sizes, 1) == level_offset(sizes, 0) + sizes[0]);
    } else if n <= 16 {
        assert(level_offset(sizes, 1) == level_offset(sizes, 0) + sizes[0]);
        assert(level_offset(sizes, 2) == level_offset(sizes, 1) + sizes[1]);
    } else {
        let p = parent_level_size(n);
        lemma_tree_size_bound(p);
        lemma_level_offset_push(level_sizes(p), n, level_sizes(p).len() as int);
    }
}

/// A layout that describes the tree over `n` features partitions
/// `[0, num_nodes)` into one contiguous range per level, root first, each as
/// long as its level, and its level sizes add up to `num_nodes`.
pub proof fn lemma_layout_partitions(layout: &RTreeIndexMeta, n: nat)
    requires
        layout.describes(n),
    ensures
        layout.num_nodes_per_level@.len() == layout.level_bounds@.len(),
        layout.level_bounds@.len() >= 1,
        layout.num_nodes_per_level@[0] == 1,
        layout.level_bounds@[0].start == 0,
        layout.level_bounds@[layout.level_bounds@.len() - 1].end == layout.num_nodes,
        forall|i: int|
            0 <= i < layout.level_bounds@.len() ==> {
                &&& (#[trigger] layout.level_bounds@[i]).start <= layout.level_bounds@[i].end
                &&& layout.level_bounds@[i].end - layout.level_bounds@[i].start
                    == layout.num_nodes_per_level@[i]
            },
        forall|i: int|
            0 <= i < layout.level_bounds@.len() - 1 ==> (#[trigger] layout.level_bounds@[i]).end
                == layout.level_bounds@[i + 1].start,
        level_offset(
            Seq::new(layout.num_nodes_per_level@.len(), |i: int| layout.num_nodes_per_level@[i] as nat),
            layout.num_nodes_per_level@.len() as int,
        ) == layout.num_nodes,
{
    lemma_level_sizes_ends(n);
    let sizes = level_sizes(n);
    assert(Seq::new(
        layout.num_nodes_per_level@.len(),
        |i: int| layout.num_nodes_per_level@[i] as nat,
    ) =~= sizes);
}

/// `n / 16`, rounded up.
fn parent_size(n: usize) -> (p: usize)
    ensures
        p == parent_level_size(n as nat),
{
    if n % 16 == 0 {
        n / 16
    } else {
        n / 16 + 1
    }
}

/// The level sizes of the tree over `n` features, root first.
fn sizes_root_first(n: usize) -> (sizes: Vec<usize>)
    ensures
        sizes@.len() == level_sizes(n as nat).len(),
        forall|i: int| 0 <= i < sizes@.len() ==> (#[trigger] sizes@[i]) == level_sizes(n as nat)[i],
    decreases n,
{
    if n == 0 {
        let mut sizes: Vec<usize> = Vec::new();
        sizes.push(1);
        sizes
    } else if n <= 16 {
        let mut sizes: Vec<usize> = Vec::new();
        sizes.push(1);
        sizes.push(n);
        sizes
    } else {
        let mut sizes = sizes_root_first(parent_size(n));
        sizes.push(n);
        sizes
    }
}

/// Plans the tree over `num_features` features: how many nodes each level
/// holds and which range of the flat node array it occupies, root first.
pub fn calculate_level_bounds(num_features: usize) -> (layout: RTreeIndexMeta)
    requires
        tree_size(num_features as nat) <= usize::MAX,
    ensures
        layout.describes(num_features as nat),
{
    let nodes_per_level = sizes_root_first(num_features);
    let ghost sizes = level_sizes(num_features as nat);
    let mut level_bounds: Vec<Range<usize>> = Vec::new();
    let mut nodes_so_far: usize = 0;
    let mut level: usize = 0;
    while level < nodes_per_level.len()
        invariant
            level <= nodes_per_level@.len(),
            sizes == level_sizes(num_features as nat),
            nodes_per_level@.len() == sizes.len(),
            forall|i: int|
                0 <= i < nodes_per_level@.len() ==> (#[trigger] nodes_per_level@[i]) == sizes[i],
            tree_size(num_features as nat) <= usize::MAX,
            nodes_so_far == level_offset(sizes, level as int),
            level_bounds@.len() == level,
            forall|i: int|
                0 <= i < level ==> {
                    &&& (#[trigger] level_bounds@[i]).start == level_offset(sizes, i)
                    &&& level_bounds@[i].end == level_offset(sizes, i + 1)
                },
        decreases nodes_per_level@.len() - level,
    {
        proof {
            lemma_level_offset_monotonic(sizes, level as int + 1, sizes.len() as int);
        }
        let end: usize = nodes_so_far + nodes_per_level[level];
        level_bounds.push(nodes_so_far..end);
        nodes_so_far = end;
        level = level + 1;
    }
    RTreeIndexMeta {
        num_features,
        num_nodes: nodes_so_far,
        num_nodes_per_level: nodes_per_level,
        level_bounds,
    }
}

/// The number of nodes of the tree over `n` features, or nothing where that
/// number is past the largest index.
fn checked_tree_size(n: usize) -> (total: Option<usize>)
    ensures
        total is Some <==> tree_size(n as nat) <= usize::MAX,
        total is Some ==> total->0 == tree_size(n as nat),
{
    let nodes_per_level = sizes_root_first(n);
    let ghost sizes = level_sizes(n as nat);
    let mut nodes_so_far: usize = 0;
    let mut level: usize = 0;
    while level < nodes_per_level.len()
        invariant
            level <= nodes_per_level@.len(),
            sizes == level_sizes(n as nat),
            nodes_per_level@.len() == sizes.len(),
            forall|i: int|
                0 <= i < nodes_per_level@.len() ==> (#[trigger] nodes_per_level@[i]) == sizes[i],
            nodes_so_far == level_offset(sizes, level as int),
        decreases nodes_per_level@.len() - level,
    {
        if nodes_per_level[level] > usize::MAX - nodes_so_far {
            proof {
                lemma_level_offset_monotonic(sizes, level as int + 1, sizes.len() as int);
            }
            return None;
        }
        nodes_so_far = nodes_so_far + nodes_per_level[level];
        level = level + 1;
    }
    Some(nodes_so_far)
}

/// Plans the tree over `num_features` features wherever the number of its
/// nodes can be counted, and says so where it cannot: then no layout is
/// returned.
pub fn try_calculate_level_bounds(num_features: usize) -> (layout: Option<RTreeIndexMeta>)
    ensures
        layout is Some <==> tree_size(num_features as nat) <= usize::MAX,
        layout is Some ==> layout->0.describes(num_features as nat),
{
    match checked_tree_size(num_features) {
        Some(_) => Some(calculate_level_bounds(num_features)),
        None => None,
    }
}

/// The node that fills a slot before anything is aggregated into it.
pub open spec fn placeholder_node() -> IndexNode {
    IndexNode { bbox: BBox::empty_box(), offset: 0 }
}

/// The boxes of the nodes at positions `lo..hi`, in order.
pub open spec fn boxes_in(nodes: Seq<IndexNode>, lo: int, hi: int) -> Seq<BBox> {
    Seq::new((hi - lo) as nat, |k: int| nodes[lo + k].bbox)
}

/// The boxes of all of `nodes`, in order.
pub open spec fn boxes_of(nodes: Seq<IndexNode>) -> Seq<BBox> {
    boxes_in(nodes, 0, nodes.len() as int)
}

/// The position in the flat array of the first child of the node at
/// `index` within `level`.
pub open spec fn children_start(sizes: Seq<nat>, level: int, index: int) -> int {
    level_offset(sizes, level + 1) + 16 * index
}

/// The position just past the last child of the node at `index` within
/// `level`: sixteen children, or fewer where the level below ends first.
pub open spec fn children_end(sizes: Seq<nat>, level: int, index: int) -> int {
    let full = children_start(sizes, level, index) + 16;
    let level_end = level_offset(sizes, level + 2) as int;
    if full <= level_end {
        full
    } else {
        level_end
    }
}

/// The node at `index` within the internal level `level` carries the union
/// of its children's boxes and the offset zero.
pub open spec fn internal_node_ok(nodes: Seq<IndexNode>, sizes: Seq<nat>, level: int, index: int) -> bool {
    nodes[level_offset(sizes, level) + index] == (IndexNode {
        bbox: union_of(
            boxes_in(nodes, children_start(sizes, level, index), children_end(sizes, level, index)),
        ),
        offset: 0,
    })
}

/// `nodes` is the packed tree over `leaves`: it has one slot per node of the
/// layout, its bottom level is `leaves` in order, and every node above
/// carries the union of its children. Without leaves it is a lone
/// placeholder root.
pub open spec fn is_packed_tree(nodes: Seq<IndexNode>, leaves: Seq<IndexNode>) -> bool {
    let sizes = level_sizes(leaves.len());
    let depth = sizes.len() as int;
    &&& nodes.len() == tree_size(leaves.len())
    &&& leaves.len() == 0 ==> nodes[0] == placeholder_node()
    &&& forall|i: int|
        0 <= i < leaves.len() ==> (#[trigger] nodes[level_offset(sizes, depth - 1) + i]) == leaves[i]
    &&& forall|level: int, index: int|
        0 <= level < depth - 1 && 0 <= index < sizes[level] ==> #[trigger] internal_node_ok(
            nodes,
            sizes,
            level,
            index,
        )
}

/// Sixteen times a node's index stays inside the level below, and the
/// children of the last node of a level end where the level below ends.
pub proof fn lemma_children_in_level(n: nat, level: int, index: int)
    requires
        0 <= level < level_sizes(n).len() - 1,
        0 <= index < level_sizes(n)[level],
    ensures
        level_offset(level_sizes(n), level + 1) <= children_start(level_sizes(n), level, index),
        children_start(level_sizes(n), level, index) < children_end(level_sizes(n), level, index),
        children_end(level_sizes(n), level, index) <= level_offset(level_sizes(n), level + 2),
        16 * index < level_sizes(n)[level + 1],
        index == level_sizes(n)[level] - 1 ==> children_end(level_sizes(n), level, index)
            == level_offset(level_sizes(n), level + 2),
        index < level_sizes(n)[level] - 1 ==> children_end(level_sizes(n), level, index)
            == children_start(level_sizes(n), level, index + 1),
{
    lemma_level_sizes_shrink(n, level);
}

/// The boxes of one level have the same union as the boxes of the level
/// below it, up to any node of the upper level.
proof fn lemma_level_prefix_union(nodes: Seq<IndexNode>, n: nat, level: int, count: int)
    requires
        0 <= level < level_sizes(n).len() - 1,
        0 <= count <= level_sizes(n)[level],
        forall|index: int|
            0 <= index < level_sizes(n)[level] ==> #[trigger] internal_node_ok(
                nodes,
                level_sizes(n),
                level,
                index,
            ),
    ensures
        union_of(
            boxes_in(
                nodes,
                level_offset(level_sizes(n), level) as int,
                level_offset(level_sizes(n), level) + count,
            ),
        ) == union_of(
            boxes_in(
                nodes,
                level_offset(level_sizes(n), level + 1) as int,
                if count == level_sizes(n)[level] {
                    level_offset(level_sizes(n), level + 2) as int
                } else {
                    children_start(level_sizes(n), level, count)
                },
            ),
        ),
    decreases count,
{
    let sizes = level_sizes(n);
    let here = level_offset(sizes, level) as int;
    let below = level_offset(sizes, level + 1) as int;
    if count == 0 {
        lemma_level_sizes_shrink(n, level);
        assert(boxes_in(nodes, here, here) =~= boxes_in(nodes, below, below));
    } else {
        let index = count - 1;
        lemma_level_prefix_union(nodes, n, level, index);
        lemma_children_in_level(n, level, index);
        let start = children_start(sizes, level, index);
        let end = children_end(sizes, level, index);
        assert(internal_node_ok(nodes, sizes, level, index));
        assert(boxes_in(nodes, here, here + count).drop_last() =~= boxes_in(nodes, here, here + index));
        assert(boxes_in(nodes, below, end) =~= boxes_in(nodes, below, start) + boxes_in(
            nodes,
            start,
            end,
        ));
        lemma_union_of_concat(boxes_in(nodes, below, start), boxes_in(nodes, start, end));
    }
}

/// In a packed tree every level has the same union of boxes as the bottom
/// level.
proof fn lemma_level_union(nodes: Seq<IndexNode>, leaves: Seq<IndexNode>, level: int)
    requires
        is_packed_tree(nodes, leaves),
        0 <= level < level_sizes(leaves.len()).len(),
    ensures
        union_of(
            boxes_in(
                nodes,
                level_offset(level_sizes(leaves.len()), level) as int,
                level_offset(level_sizes(leaves.len()), level + 1) as int,
            ),
        ) == union_of(
            boxes_in(
                nodes,
                level_offset(level_sizes(leaves.len()), level_sizes(leaves.len()).len() - 1) as int,
                level_offset(level_sizes(leaves.len()), level_sizes(leaves.len()).len() as int) as int,
            ),
        ),
    decreases level_sizes(leaves.len()).len() - level,
{
    let sizes = level_sizes(leaves.len());
    if level < sizes.len() - 1 {
        lemma_level_union(nodes, leaves, level + 1);
        lemma_level_prefix_union(nodes, leaves.len(), level, sizes[level] as int);
    }
}

/// The root of a packed tree carries the union of the boxes of all leaves:
/// the neutral box where there are none.
pub proof fn lemma_root_is_union_of_leaves(nodes: Seq<IndexNode>, leaves: Seq<IndexNode>)
    requires
        is_packed_tree(nodes, leaves),
    ensures
        nodes.len() >= 1,
        nodes[0].bbox == union_of(boxes_of(leaves)),
{
    let n = leaves.len();
    let sizes = level_sizes(n);
    lemma_level_sizes_ends(n);
    lemma_tree_size_bound(n);
    if n == 0 {
        assert(boxes_of(leaves) =~= Seq::<BBox>::empty());
    } else {
        let depth = sizes.len() as int;
        let bottom = level_offset(sizes, depth - 1) as int;
        lemma_level_union(nodes, leaves, 0);
        assert(level_offset(sizes, 1) == level_offset(sizes, 0) + sizes[0]);
        let top = boxes_in(nodes, 0, 1);
        assert(top.last() == nodes[0].bbox);
        assert(union_of(top.drop_last()) == BBox::empty_box());
        assert(union_of(top) == nodes[0].bbox);
        assert(level_offset(sizes, depth) == bottom + n);
        assert(boxes_in(nodes, bottom, bottom + n) =~= boxes_of(leaves));
    }
}

/// The root of a packed tree covers the box of every leaf, so a search that
/// starts at the root can miss none.
pub proof fn lemma_root_covers_every_leaf(nodes: Seq<IndexNode>, leaves: Seq<IndexNode>, i: int)
    requires
        is_packed_tree(nodes, leaves),
        0 <= i < leaves.len(),
    ensures
        nodes[0].bbox.covers(leaves[i].bbox),
{
    lemma_root_is_union_of_leaves(nodes, leaves);
    lemma_union_of_covers(boxes_of(leaves), i);
}

/// Every node above the bottom level covers the box of each of its
/// children.
pub proof fn lemma_node_covers_its_children(
    nodes: Seq<IndexNode>,
    leaves: Seq<IndexNode>,
    level: int,
    index: int,
    child: int,
)
    requires
        is_packed_tree(nodes, leaves),
        0 <= level < level_sizes(leaves.len()).len() - 1,
        0 <= index < level_sizes(leaves.len())[level],
        children_start(level_sizes(leaves.len()), level, index) <= child < children_end(
            level_sizes(leaves.len()),
            level,
            index,
        ),
    ensures
        nodes[level_offset(level_sizes(leaves.len()), level) + index].bbox.covers(nodes[child].bbox),
{
    let sizes = level_sizes(leaves.len());
    let start = children_start(sizes, level, index);
    let end = children_end(sizes, level, index);
    assert(internal_node_ok(nodes, sizes, level, index));
    lemma_union_of_covers(boxes_in(nodes, start, end), child - start);
}

/// Writing a slot that lies above the level below `level` leaves every
/// finished node of `level` and of the levels below it as it was.
proof fn lemma_write_keeps_finished_nodes(
    before: Seq<IndexNode>,
    after: Seq<IndexNode>,
    n: nat,
    level: int,
    position: int,
    finished_level: int,
    index: int,
)
    requires
        after.len() == before.len(),
        forall|k: int| 0 <= k < before.len() && k != position ==> after[k] == before[k],
        0 <= level <= finished_level < level_sizes(n).len() - 1,
        0 <= index < level_sizes(n)[finished_level],
        level_offset(level_sizes(n), level) <= position < level_offset(level_sizes(n), level + 1),
        level_offset(level_sizes(n), finished_level) + index != position,
        before.len() == tree_size(n),
        internal_node_ok(before, level_sizes(n), finished_level, index),
    ensures
        internal_node_ok(after, level_sizes(n), finished_level, index),
{
    let sizes = level_sizes(n);
    lemma_children_in_level(n, finished_level, index);
    lemma_level_offset_monotonic(sizes, level + 1, finished_level + 1);
    lemma_level_offset_monotonic(sizes, finished_level + 2, sizes.len() as int);
    lemma_level_offset_monotonic(sizes, finished_level, finished_level + 1);
    let start = children_start(sizes, finished_level, index);
    let end = children_end(sizes, finished_level, index);
    assert(boxes_in(after, start, end) =~= boxes_in(before, start, end));
}

/// Builds the packed tree over leaves that are already in Hilbert order.
///
/// The flat array has one slot per node of the planned layout. The bottom
/// level holds the leaves as given; every node above carries the union of
/// the boxes of its up to sixteen children and the offset zero. The root
/// therefore carries the union of all leaf boxes, which is `extent` whenever
/// `extent` is that union. Without leaves the tree is a lone root with the
/// neutral box.
pub fn build_flattened_tree(hilbert_sorted_features: Vec<IndexNode>, extent: &BBox) -> (tree: (
    RTreeIndexMeta,
    Vec<IndexNode>,
))
    requires
        tree_size(hilbert_sorted_features@.len()) <= usize::MAX,
    ensures
        tree.0.describes(hilbert_sorted_features@.len()),
        is_packed_tree(tree.1@, hilbert_sorted_features@),
        tree.1@.len() >= 1,
        tree.1@[0].bbox == union_of(boxes_of(hilbert_sorted_features@)),
        *extent == union_of(boxes_of(hilbert_sorted_features@)) ==> tree.1@[0].bbox == *extent,
{
    let n: usize = hilbert_sorted_features.len();
    let ghost leaves = hilbert_sorted_features@;
    let ghost sizes = level_sizes(n as nat);
    let layout = calculate_level_bounds(n);
    proof {
        lemma_level_sizes_ends(n as nat);
        lemma_tree_size_bound(n as nat);
    }
    let placeholder = IndexNode { bbox: BBox::empty(), offset: 0 };
    let mut flat: Vec<IndexNode> = Vec::new();
    let mut filled: usize = 0;
    while filled < layout.num_nodes
        invariant
            filled <= layout.num_nodes,
            flat@.len() == filled,
            placeholder == placeholder_node(),
            forall|k: int| 0 <= k < filled ==> flat@[k] == placeholder_node(),
        decreases layout.num_nodes - filled,
    {
        flat.push(placeholder);
        filled = filled + 1;
    }
    let depth: usize = layout.level_bounds.len();
    let bottom: usize = layout.level_bounds[depth - 1].start;
    assert(level_offset(sizes, depth as int) == level_offset(sizes, depth - 1) + sizes[depth - 1]);

    let mut leaf: usize = 0;
    while leaf < n
        invariant
            leaf <= n,
            n == leaves.len(),
            leaves == hilbert_sorted_features@,
            flat@.len() == tree_size(n as nat),
            bottom == level_offset(sizes, depth - 1),
            tree_size(n as nat) <= usize::MAX,
            n > 0 ==> bottom + n == tree_size(n as nat),
            n == 0 ==> flat@[0] == placeholder_node(),
            forall|k: int| 0 <= k < leaf ==> flat@[bottom + k] == leaves[k],
        decreases n - leaf,
    {
        flat.set(bottom + leaf, hilbert_sorted_features[leaf]);
        leaf = leaf + 1;
    }

    let mut level: usize = depth - 1;
    while level > 0
        invariant
            level <= depth - 1,
            depth == sizes.len(),
            sizes == level_sizes(n as nat),
            n == leaves.len(),
            layout.describes(n as nat),
            flat@.len() == tree_size(n as nat),
            bottom == level_offset(sizes, depth - 1),
            n == 0 ==> flat@[0] == placeholder_node(),
            forall|k: int| 0 <= k < n ==> flat@[bottom + k] == leaves[k],
            forall|l: int, i: int|
                level <= l < depth - 1 && 0 <= i < sizes[l] ==> #[trigger] internal_node_ok(
                    flat@,
                    sizes,
                    l,
                    i,
                ),
        decreases level,
    {
        level = level - 1;
        let start: usize = layout.level_bounds[level].start;
        let count: usize = layout.num_nodes_per_level[level];
        let below_start: usize = layout.level_bounds[level + 1].start;
        let below_end: usize = layout.level_bounds[level + 1].end;
        proof {
            lemma_level_offset_monotonic(sizes, level + 2, depth as int);
            lemma_level_offset_monotonic(sizes, level + 1, depth - 1);
        }
        let mut index: usize = 0;
        while index < count
            invariant
                index <= count,
                level < depth - 1,
                depth == sizes.len(),
                sizes == level_sizes(n as nat),
                n == leaves.len(),
                n > 0,
                count == sizes[level as int],
                start == level_offset(sizes, level as int),
                below_start == level_offset(sizes, level + 1),
                below_end == level_offset(sizes, level + 2),
                below_end <= tree_size(n as nat),
                below_start <= bottom,
                flat@.len() == tree_size(n as nat),
                bottom == level_offset(sizes, depth - 1),
                forall|k: int| 0 <= k < n ==> flat@[bottom + k] == leaves[k],
                forall|l: int, i: int|
                    level < l < depth - 1 && 0 <= i < sizes[l] ==> #[trigger] internal_node_ok(
                        flat@,
                        sizes,
                        l,
                        i,
                    ),
                forall|i: int| 0 <= i < index ==> #[trigger] internal_node_ok(flat@, sizes, level as int, i),
            decreases count - index,
        {
            proof {
                lemma_children_in_level(n as nat, level as int, index as int);
            }
            let first: usize = below_start + index * 16;
            let last: usize = if below_end - first > 16 {
                first + 16
            } else {
                below_end
            };
            let mut bbox = BBox::empty();
            let mut child: usize = first;
            assert(boxes_in(flat@, first as int, child as int) =~= Seq::<BBox>::empty());
            while child < last
                invariant
                    first <= child <= last,
                    last <= flat@.len(),
                    bbox == union_of(boxes_in(flat@, first as int, child as int)),
                decreases last - child,
            {
                assert(boxes_in(flat@, first as int, child + 1).drop_last() =~= boxes_in(
                    flat@,
                    first as int,
                    child as int,
                ));
                bbox.expand(&flat[child].bbox);
                child = child + 1;
            }
            let ghost before = flat@;
            flat.set(start + index, IndexNode { bbox, offset: 0 });
            proof {
                let position = start + index;
                assert(boxes_in(flat@, first as int, last as int) =~= boxes_in(
                    before,
                    first as int,
                    last as int,
                ));
                assert(internal_node_ok(flat@, sizes, level as int, index as int));
                assert forall|l: int, i: int|
                    level < l < depth - 1 && 0 <= i < sizes[l] implies #[trigger] internal_node_ok(
                    flat@,
                    sizes,
                    l,
                    i,
                ) by {
                    lemma_level_offset_monotonic(sizes, level + 1, l);
                    lemma_write_keeps_finished_nodes(before, flat@, n as nat, level as int, position, l, i);
                }
                assert forall|i: int| 0 <= i < index implies #[trigger] internal_node_ok(
                    flat@,
                    sizes,
                    level as int,
                    i,
                ) by {
                    lemma_write_keeps_finished_nodes(
                        before,
                        flat@,
                        n as nat,
                        level as int,
                        position,
                        level as int,
                        i,
                    );
                }
            }
            index = index + 1;
        }
    }
    proof {
        lemma_root_is_union_of_leaves(flat@, leaves);
    }
    (layout, flat)
}

/// Builds the packed tree over leaves that are already in Hilbert order,
/// for every input: the tree is built wherever the number of its nodes can
/// be counted, and nothing is returned where it cannot.
///
/// No index ever lies outside the flat array, and no group reads a child
/// past the end of the level below it, whatever the number of leaves.
pub fn try_build_flattened_tree(hilbert_sorted_features: Vec<IndexNode>, extent: &BBox) -> (tree:
    Option<(RTreeIndexMeta, Vec<IndexNode>)>)
    ensures
        tree is Some <==> tree_size(hilbert_sorted_features@.len()) <= usize::MAX,
        tree matches Some(built) ==> {
            &&& built.0.describes(hilbert_sorted_features@.len())
            &&& is_packed_tree(built.1@, hilbert_sorted_features@)
            &&& built.1@.len() >= 1
            &&& built.1@[0].bbox == union_of(boxes_of(hilbert_sorted_features@))
            &&& *extent == union_of(boxes_of(hilbert_sorted_features@)) ==> built.1@[0].bbox
                == *extent
        },
{
    match checked_tree_size(hilbert_sorted_features.len()) {
        Some(_) => Some(build_flattened_tree(hilbert_sorted_features, extent)),
        None => None,
    }
}

} // verus!
