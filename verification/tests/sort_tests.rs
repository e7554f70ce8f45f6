use geoq::bbox::BBox;
use geoq::geometry::{Coord, Feature, Geometry};
use geoq::sort::sort_with_extent;

fn c(x: i64, y: i64) -> Coord {
    Coord { x, y }
}

fn point(x: i64, y: i64) -> Feature {
    Feature { record: 0, geometry: Some(Geometry::Point(c(x, y))) }
}

fn record(record: usize, x: i64, y: i64) -> Feature {
    Feature { record, geometry: Some(Geometry::Point(c(x, y))) }
}

fn descending() -> Vec<Feature> {
    // Curve positions within the extent [0, 0, 100, 100], largest first.
    vec![point(90, 10), point(100, 100), point(10, 90), point(50, 50), point(10, 10), point(0, 0)]
}

#[test]
fn sort_of_nothing_gives_the_origin_extent() {
    let (sorted, extent) = sort_with_extent(Vec::new());
    assert!(sorted.is_empty());
    assert_eq!(extent, BBox::new(0, 0));
}

#[test]
fn sort_puts_features_in_ascending_curve_order() {
    let (sorted, extent) = sort_with_extent(descending());
    assert_eq!(extent, BBox { min_x: 0, min_y: 0, max_x: 100, max_y: 100 });
    let expected =
        vec![point(0, 0), point(10, 10), point(50, 50), point(10, 90), point(100, 100), point(90, 10)];
    assert_eq!(sorted, expected);
    let keys: Vec<u32> = sorted.iter().map(|f| BBox::for_feature(f).hilbert_bbox(&extent)).collect();
    assert_eq!(keys, vec![0, 42107522, 715827882, 1473763282, 2863311530, 4252859762]);
}

#[test]
fn sort_keeps_the_given_order_of_features_at_one_position() {
    // All three have the center (50, 50), and so the same position.
    let line = Feature { record: 0, geometry: Some(Geometry::LineString(vec![c(40, 40), c(60, 60)])) };
    let multi = Feature { record: 0, geometry: Some(Geometry::MultiPoint(vec![c(50, 50)])) };
    let input = vec![point(100, 100), line, point(50, 50), point(0, 0), multi];
    let (sorted, extent) = sort_with_extent(input);
    assert_eq!(extent, BBox { min_x: 0, min_y: 0, max_x: 100, max_y: 100 });
    let expected = vec![
        point(0, 0),
        Feature { record: 0, geometry: Some(Geometry::LineString(vec![c(40, 40), c(60, 60)])) },
        point(50, 50),
        Feature { record: 0, geometry: Some(Geometry::MultiPoint(vec![c(50, 50)])) },
        point(100, 100),
    ];
    assert_eq!(sorted, expected);
}

#[test]
fn sort_twice_gives_the_same_order() {
    let (first, first_extent) = sort_with_extent(descending());
    let (second, second_extent) = sort_with_extent(descending());
    assert_eq!(first, second);
    assert_eq!(first_extent, second_extent);
    // Sorting what is sorted changes nothing.
    let (again, again_extent) = sort_with_extent(first);
    assert_eq!(again, second);
    assert_eq!(again_extent, second_extent);
}

#[test]
fn sort_extent_is_seeded_by_the_first_feature() {
    let (_, extent) = sort_with_extent(vec![point(7, 9)]);
    assert_eq!(extent, BBox::new(7, 9));
    // A first feature without geometry seeds the extent at the origin.
    let (sorted, extent) = sort_with_extent(vec![Feature { record: 0, geometry: None }, point(7, 9)]);
    assert_eq!(extent, BBox { min_x: 0, min_y: 0, max_x: 7, max_y: 9 });
    assert_eq!(sorted.len(), 2);
}

#[test]
fn sort_with_a_degenerate_extent_keeps_the_given_order() {
    // One shared position: the extent has size zero, every key is zero.
    let line = Feature { record: 0, geometry: Some(Geometry::LineString(vec![c(3, 3), c(3, 3)])) };
    let (sorted, extent) = sort_with_extent(vec![line, point(3, 3)]);
    assert_eq!(extent, BBox::new(3, 3));
    assert_eq!(
        sorted,
        vec![Feature { record: 0, geometry: Some(Geometry::LineString(vec![c(3, 3), c(3, 3)])) }, point(3, 3)]
    );
}

#[test]
fn sort_keeps_every_feature() {
    let mut input = Vec::new();
    let mut state: u64 = 5;
    for _ in 0..500 {
        state = state.wrapping_mul(6364136223846793005).wrapping_add(1442695040888963407);
        let x = ((state >> 20) % 1000) as i64;
        let y = ((state >> 40) % 1000) as i64;
        input.push(point(x, y));
    }
    let mut given: Vec<(i64, i64)> = Vec::new();
    for f in &input {
        let bb = BBox::for_feature(f);
        given.push((bb.min_x, bb.min_y));
    }
    let (sorted, extent) = sort_with_extent(input);
    let mut kept: Vec<(i64, i64)> = Vec::new();
    let mut keys: Vec<u32> = Vec::new();
    for f in &sorted {
        let bb = BBox::for_feature(f);
        kept.push((bb.min_x, bb.min_y));
        keys.push(bb.hilbert_bbox(&extent));
    }
    assert!(keys.windows(2).all(|w| w[0] <= w[1]));
    given.sort();
    kept.sort();
    assert_eq!(given, kept);
}

#[test]
fn sort_keeps_the_given_order_of_equal_geometries() {
    // Records 1, 2 and 3 lie on one point; only their numbers tell them apart.
    let input = vec![record(0, 100, 100), record(1, 50, 50), record(2, 50, 50), record(3, 50, 50), record(4, 0, 0)];
    let (sorted, _) = sort_with_extent(input);
    let order: Vec<usize> = sorted.iter().map(|f| f.record).collect();
    assert_eq!(order, vec![4, 1, 2, 3, 0]);
}

#[test]
fn sort_moves_records_with_their_geometries() {
    let input = vec![record(10, 90, 10), record(11, 100, 100), record(12, 10, 10), record(13, 0, 0)];
    let (sorted, _) = sort_with_extent(input);
    assert_eq!(sorted, vec![record(13, 0, 0), record(12, 10, 10), record(11, 100, 100), record(10, 90, 10)]);
}
