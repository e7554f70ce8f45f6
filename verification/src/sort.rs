use vstd::prelude::*;

use crate::bbox::{union_of, BBox};
use crate::geometry::{feat_coord, feature_box, feature_point, origin, Coord, Feature};
use crate::hilbert::hilbert_position;

verus! {

/// A feature together with the curve position it is ordered by.
#[derive(Debug)]
pub struct Keyed {
    pub key: u32,
    pub feature: Feature,
}

/// The records of `records` whose key is `key`, in the order in which they
/// stand.
pub open spec fn with_key(records: Seq<Keyed>, key: u32) -> Seq<Keyed>
    decreases records.len(),
{
    if records.len() == 0 {
        Seq::empty()
    } else if records.last().key == key {
        with_key(records.drop_last(), key).push(records.last())
    } else {
        with_key(records.drop_last(), key)
    }
}

/// No record stands before one with a smaller key.
pub open spec fn keys_ascend(records: Seq<Keyed>) -> bool {
    forall|i: int, j: int| 0 <= i <= j < records.len() ==> records[i].key <= records[j].key
}

/// `sorted` holds the records of `records` in ascending order of their keys,
/// and records with the same key in the order in which `records` has them.
pub open spec fn is_stable_sort_of(sorted: Seq<Keyed>, records: Seq<Keyed>) -> bool {
    &&& sorted.len() == records.len()
    &&& keys_ascend(sorted)
    &&& forall|key: u32| with_key(sorted, key) == with_key(records, key)
}

/// Calls `sort_by_key` of the standard library's slices, with the record's
/// own key as the key. That sort is documented to put the slice in ascending
/// order of the keys and to keep the initial order of elements with equal
/// keys; it moves the records and drops or makes none.
#[verifier::external_body]
fn sort_by_key(records: &mut Vec<Keyed>)
    ensures
        is_stable_sort_of(final(records)@, old(records)@),
{
    records.sort_by_key(|record| record.key);
}

/// Every record that `with_key` picks stands in the sequence and has the
/// key.
pub proof fn lemma_with_key_picks_members(records: Seq<Keyed>, key: u32, j: int)
    requires
        0 <= j < with_key(records, key).len(),
    ensures
        with_key(records, key)[j].key == key,
        exists|i: int| 0 <= i < records.len() && records[i] == with_key(records, key)[j],
    decreases records.len(),
{
    if records.len() > 0 {
        let rest = records.drop_last();
        if j < with_key(rest, key).len() {
            lemma_with_key_picks_members(rest, key, j);
            let i = choose|i: int| 0 <= i < rest.len() && rest[i] == with_key(rest, key)[j];
            assert(records[i] == with_key(records, key)[j]);
        } else {
            assert(records[records.len() - 1] == with_key(records, key)[j]);
        }
    }
}

/// Every record of the sequence is picked by `with_key` for its own key.
pub proof fn lemma_with_key_picks_all(records: Seq<Keyed>, i: int)
    requires
        0 <= i < records.len(),
    ensures
        exists|j: int|
            0 <= j < with_key(records, records[i].key).len() && with_key(records, records[i].key)[j]
                == records[i],
    decreases records.len(),
{
    let key = records[i].key;
    let rest = records.drop_last();
    if i < records.len() - 1 {
        lemma_with_key_picks_all(rest, i);
        let j = choose|j: int| 0 <= j < with_key(rest, key).len() && with_key(rest, key)[j] == rest[i];
        assert(with_key(records, key)[j] == records[i]);
    } else {
        let j = with_key(rest, key).len() as int;
        assert(with_key(records, key)[j] == records[i]);
    }
}

/// A sequence has at most one stable sort: two sequences in ascending order
/// of their keys that agree, key by key, on which records they hold and in
/// which order, are the same sequence.
pub proof fn lemma_stable_sort_unique(a: Seq<Keyed>, b: Seq<Keyed>)
    requires
        a.len() == b.len(),
        keys_ascend(a),
        keys_ascend(b),
        forall|key: u32| with_key(a, key) == with_key(b, key),
    ensures
        a == b,
    decreases a.len(),
{
    if a.len() == 0 {
        assert(a =~= b);
    } else {
        let x = a.last();
        let y = b.last();
        assert(x.key <= y.key) by {
            assert(with_key(a, x.key) == with_key(b, x.key));
            assert(with_key(a, x.key).len() > 0);
            lemma_with_key_picks_members(b, x.key, 0);
        }
        assert(y.key <= x.key) by {
            assert(with_key(a, y.key) == with_key(b, y.key));
            assert(with_key(b, y.key).len() > 0);
            lemma_with_key_picks_members(a, y.key, 0);
        }
        let key = x.key;
        assert(with_key(a, key) == with_key(b, key));
        assert(with_key(a, key).last() == x);
        assert(with_key(b, key).last() == y);
        let a_rest = a.drop_last();
        let b_rest = b.drop_last();
        assert forall|k: u32| with_key(a_rest, k) == with_key(b_rest, k) by {
            assert(with_key(a, k) == with_key(b, k));
            if k == key {
                assert(with_key(a, k).drop_last() =~= with_key(a_rest, k));
                assert(with_key(b, k).drop_last() =~= with_key(b_rest, k));
            }
        }
        lemma_stable_sort_unique(a_rest, b_rest);
        assert(a =~= a_rest.push(x));
        assert(b =~= b_rest.push(y));
    }
}

/// A record occurs in a sequence as often as among the records of its key.
proof fn lemma_count_by_key(records: Seq<Keyed>, record: Keyed)
    ensures
        records.to_multiset().count(record) == with_key(records, record.key).to_multiset().count(
            record,
        ),
    decreases records.len(),
{
    broadcast use vstd::multiset::group_multiset_axioms;

    if records.len() == 0 {
        assert(records =~= Seq::<Keyed>::empty());
    } else {
        let rest = records.drop_last();
        let last = records.last();
        lemma_count_by_key(rest, record);
        assert(records =~= rest.push(last));
        vstd::seq_lib::to_multiset_build(rest, last);
        if last.key == record.key {
            vstd::seq_lib::to_multiset_build(with_key(rest, record.key), last);
        }
    }
}

/// A stable sort keeps every record, each as often as it was given: the
/// sorted sequence is a rearrangement of the given one.
pub proof fn lemma_stable_sort_is_permutation(sorted: Seq<Keyed>, records: Seq<Keyed>)
    requires
        is_stable_sort_of(sorted, records),
    ensures
        sorted.to_multiset() == records.to_multiset(),
{
    assert forall|record: Keyed|
        sorted.to_multiset().count(record) == records.to_multiset().count(record) by {
        lemma_count_by_key(sorted, record);
        lemma_count_by_key(records, record);
        assert(with_key(sorted, record.key) == with_key(records, record.key));
    }
    assert(sorted.to_multiset() =~= records.to_multiset());
}

/// The boxes of the features, in order.
pub open spec fn feature_boxes(features: Seq<Feature>) -> Seq<BBox> {
    Seq::new(features.len(), |i: int| feature_box(features[i]))
}

/// The extent of a collection: the degenerate box at the representative
/// position of its first feature, grown over the boxes of all features.
/// Without features it is the degenerate box at the origin.
pub open spec fn collection_extent(features: Seq<Feature>) -> BBox {
    let seed = if features.len() > 0 {
        feature_point(features[0])
    } else {
        origin()
    };
    BBox::point(seed.x, seed.y).union(union_of(feature_boxes(features)))
}

/// Each feature with the curve position of the center of its box within
/// `extent`.
pub open spec fn keyed(features: Seq<Feature>, extent: BBox) -> Seq<Keyed> {
    Seq::new(
        features.len(),
        |i: int|
            Keyed { key: hilbert_position(feature_box(features[i]), extent), feature: features[i] },
    )
}

/// `extent` is the extent of `features`, and `sorted` holds the same
/// features in ascending order of the curve positions of their box centers
/// within it, features at the same position in their given order.
pub open spec fn is_hilbert_sorted(sorted: Seq<Feature>, extent: BBox, features: Seq<Feature>) -> bool {
    &&& extent == collection_extent(features)
    &&& is_stable_sort_of(keyed(sorted, extent), keyed(features, extent))
}

/// Sorting is a function of its input: any two results for the same
/// features have the same extent and hold the features in the same order.
pub proof fn lemma_sort_is_deterministic(
    features: Seq<Feature>,
    first: Seq<Feature>,
    first_extent: BBox,
    second: Seq<Feature>,
    second_extent: BBox,
)
    requires
        is_hilbert_sorted(first, first_extent, features),
        is_hilbert_sorted(second, second_extent, features),
    ensures
        first_extent == second_extent,
        first == second,
{
    let a = keyed(first, first_extent);
    let b = keyed(second, first_extent);
    lemma_stable_sort_unique(a, b);
    assert forall|i: int| 0 <= i < first.len() implies first[i] == second[i] by {
        assert(a[i].feature == b[i].feature);
    }
    assert(first =~= second);
}

/// Orders features along the Hilbert curve and computes their extent.
///
/// The extent is seeded at the representative position of the first feature
/// and grown over the box of every feature. The features come back in
/// ascending order of the curve position of their box center within that
/// extent; features at the same position keep their given order.
pub fn sort_with_extent(features: Vec<Feature>) -> (result: (Vec<Feature>, BBox))
    ensures
        is_hilbert_sorted(result.0@, result.1, features@),
{
    let ghost given = features@;
    let n: usize = features.len();
    let seed: Coord = if n > 0 {
        feat_coord(&features[0])
    } else {
        Coord { x: 0, y: 0 }
    };
    let mut extent = BBox::new(seed.x, seed.y);
    let mut boxes: Vec<BBox> = Vec::new();
    let mut i: usize = 0;
    proof {
        assert(feature_boxes(given.take(0)) =~= Seq::<BBox>::empty());
        crate::bbox::lemma_union_laws(extent, extent, extent);
    }
    while i < n
        invariant
            i <= n,
            n == given.len(),
            given == features@,
            boxes@ == feature_boxes(given.take(i as int)),
            extent == BBox::point(seed.x, seed.y).union(union_of(boxes@)),
        decreases n - i,
    {
        let bb = BBox::for_feature(&features[i]);
        let ghost boxes_before = boxes@;
        extent.expand(&bb);
        boxes.push(bb);
        proof {
            assert(boxes@.drop_last() =~= boxes_before);
            assert(union_of(boxes@) == union_of(boxes_before).union(bb));
            crate::bbox::lemma_union_laws(BBox::point(seed.x, seed.y), union_of(boxes_before), bb);
            assert(boxes@ =~= feature_boxes(given.take(i + 1)));
        }
        i = i + 1;
    }
    assert(given.take(n as int) =~= given);

    let mut records: Vec<Keyed> = Vec::new();
    for feature in it: features
        invariant
            it.seq() == given,
            n == given.len(),
            boxes@ == feature_boxes(given),
            records@ == keyed(given.take(it.index()), extent),
    {
        let ghost done = it.index();
        let key: u32 = boxes[records.len()].hilbert_bbox(&extent);
        records.push(Keyed { key, feature });
        assert(records@ =~= keyed(given.take(done + 1), extent));
    }
    assert(given.take(n as int) =~= given);

    let ghost unsorted = records@;
    sort_by_key(&mut records);
    let ghost ordered = records@;
    assert forall|i: int| 0 <= i < ordered.len() implies ordered[i].key == hilbert_position(
        feature_box(ordered[i].feature),
        extent,
    ) by {
        let key = ordered[i].key;
        lemma_with_key_picks_all(ordered, i);
        let j = choose|j: int|
            0 <= j < with_key(ordered, key).len() && with_key(ordered, key)[j] == ordered[i];
        assert(with_key(ordered, key) == with_key(unsorted, key));
        lemma_with_key_picks_members(unsorted, key, j);
    }

    let mut sorted: Vec<Feature> = Vec::new();
    for record in it: records
        invariant
            it.seq() == ordered,
            sorted@.len() == it.index(),
            forall|k: int| 0 <= k < it.index() ==> sorted@[k] == ordered[k].feature,
    {
        sorted.push(record.feature);
    }
    assert(keyed(sorted@, extent) =~= ordered);
    (sorted, extent)
}

} // verus!
