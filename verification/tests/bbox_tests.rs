use geoq::bbox::BBox;
use geoq::geometry::{coord, feat_coord, ring_ends, Coord, Feature, Geometry};

fn c(x: i64, y: i64) -> Coord {
    Coord { x, y }
}

fn feature(geometry: Geometry) -> Feature {
    Feature { record: 0, geometry: Some(geometry) }
}

#[test]
fn new_box_is_degenerate_at_the_point() {
    assert_eq!(BBox::new(3, -4), BBox { min_x: 3, min_y: -4, max_x: 3, max_y: -4 });
}

#[test]
fn empty_box_is_neutral_for_expand() {
    let empty = BBox::empty();
    assert_eq!(empty, BBox { min_x: i64::MAX, min_y: i64::MAX, max_x: i64::MIN, max_y: i64::MIN });
    let other = BBox { min_x: -5, min_y: 2, max_x: 9, max_y: 4 };
    let mut grown = BBox::empty();
    grown.expand(&other);
    assert_eq!(grown, other);
    let mut same = other;
    same.expand(&empty);
    assert_eq!(same, other);
}

#[test]
fn expand_takes_the_union() {
    let mut a = BBox { min_x: 11, min_y: -29, max_x: 25, max_y: -16 };
    a.expand(&BBox { min_x: 16, min_y: -34, max_x: 32, max_y: -22 });
    assert_eq!(a, BBox { min_x: 11, min_y: -34, max_x: 32, max_y: -16 });

    let mut inside = BBox { min_x: 0, min_y: 0, max_x: 10, max_y: 10 };
    inside.expand(&BBox { min_x: 2, min_y: 3, max_x: 4, max_y: 5 });
    assert_eq!(inside, BBox { min_x: 0, min_y: 0, max_x: 10, max_y: 10 });
}

#[test]
fn expand_is_commutative_on_samples() {
    let a = BBox { min_x: -7, min_y: 1, max_x: 3, max_y: 8 };
    let b = BBox { min_x: -2, min_y: -9, max_x: 30, max_y: 2 };
    let mut ab = a;
    ab.expand(&b);
    let mut ba = b;
    ba.expand(&a);
    assert_eq!(ab, ba);
    assert_eq!(ab, BBox { min_x: -7, min_y: -9, max_x: 30, max_y: 8 });
}

#[test]
fn expand_xy_and_expand_vec_cover_the_point() {
    let mut bb = BBox::new(0, 0);
    bb.expand_xy(5, -3);
    assert_eq!(bb, BBox { min_x: 0, min_y: -3, max_x: 5, max_y: 0 });
    bb.expand_vec(&c(-2, 9));
    assert_eq!(bb, BBox { min_x: -2, min_y: -3, max_x: 5, max_y: 9 });
}

#[test]
fn to_vec_lists_min_then_max() {
    let bb = BBox { min_x: 1, min_y: 2, max_x: 3, max_y: 4 };
    assert_eq!(bb.to_vec(), vec![1, 2, 3, 4]);
}

#[test]
fn width_and_height_are_exact_at_the_limits() {
    let bb = BBox { min_x: i64::MIN, min_y: -1, max_x: i64::MAX, max_y: 2 };
    assert_eq!(bb.width(), (i64::MAX as i128) - (i64::MIN as i128));
    assert_eq!(bb.height(), 3);
    assert_eq!(BBox::empty().width(), (i64::MIN as i128) - (i64::MAX as i128));
}

#[test]
fn center_takes_each_axis_from_its_own_bounds() {
    let bb = BBox { min_x: 0, min_y: 10, max_x: 2, max_y: 20 };
    assert_eq!(bb.center(), (1, 15));
    assert_eq!(BBox::new(7, -9).center(), (7, -9));
}

#[test]
fn center_rounds_down() {
    assert_eq!(BBox { min_x: 0, min_y: 0, max_x: 1, max_y: 3 }.center(), (0, 1));
    assert_eq!(BBox { min_x: -1, min_y: -3, max_x: 0, max_y: 0 }.center(), (-1, -2));
    assert_eq!(BBox { min_x: -3, min_y: -7, max_x: 0, max_y: -2 }.center(), (-2, -5));
}

#[test]
fn center_is_exact_at_the_limits() {
    let whole = BBox { min_x: i64::MIN, min_y: i64::MIN, max_x: i64::MAX, max_y: i64::MIN };
    assert_eq!(whole.center(), (-1, i64::MIN));
    assert_eq!(BBox::new(i64::MAX, i64::MAX).center(), (i64::MAX, i64::MAX));
    assert_eq!(BBox::empty().center(), (-1, -1));
}

#[test]
fn doubled_center_is_the_sum_of_the_bounds() {
    let bb = BBox { min_x: 0, min_y: 10, max_x: 2, max_y: 21 };
    assert_eq!(bb.doubled_center(), (2, 31));
    let top = BBox::new(i64::MAX, i64::MIN);
    assert_eq!(top.doubled_center(), (2 * (i64::MAX as i128), 2 * (i64::MIN as i128)));
}

#[test]
fn box_of_a_point_feature() {
    let f = feature(Geometry::Point(c(7, -8)));
    assert_eq!(BBox::for_feature(&f), BBox::new(7, -8));
}

#[test]
fn box_of_a_feature_without_geometry_is_at_the_origin() {
    let f = Feature { record: 0, geometry: None };
    assert_eq!(feat_coord(&f), c(0, 0));
    assert_eq!(BBox::for_feature(&f), BBox::new(0, 0));
    let mut bb = BBox::new(5, 5);
    bb.expand_feature(&f);
    assert_eq!(bb, BBox::new(5, 5));
}

#[test]
fn box_of_line_and_multipoint() {
    let line = feature(Geometry::LineString(vec![c(1, 5), c(-3, 2), c(4, 9)]));
    assert_eq!(BBox::for_feature(&line), BBox { min_x: -3, min_y: 2, max_x: 4, max_y: 9 });
    let points = feature(Geometry::MultiPoint(vec![c(10, 10), c(12, 8)]));
    assert_eq!(BBox::for_feature(&points), BBox { min_x: 10, min_y: 8, max_x: 12, max_y: 10 });
}

#[test]
fn box_of_polygon_and_multilinestring() {
    let rings = vec![
        vec![c(0, 0), c(10, 0), c(10, 10), c(0, 10), c(0, 0)],
        vec![c(2, 2), c(3, 2), c(3, 3), c(2, 2)],
    ];
    let polygon = feature(Geometry::Polygon(rings));
    assert_eq!(BBox::for_feature(&polygon), BBox { min_x: 0, min_y: 0, max_x: 10, max_y: 10 });
    let lines = feature(Geometry::MultiLineString(vec![vec![c(5, 5), c(6, 7)], vec![c(-1, 20)]]));
    assert_eq!(BBox::for_feature(&lines), BBox { min_x: -1, min_y: 5, max_x: 6, max_y: 20 });
}

#[test]
fn box_of_multipolygon() {
    let polys = vec![
        vec![vec![c(100, 100), c(110, 100), c(110, 120), c(100, 100)]],
        vec![vec![c(-50, 300), c(-40, 300), c(-40, 310), c(-50, 300)], vec![c(-45, 301)]],
    ];
    let f = feature(Geometry::MultiPolygon(polys));
    assert_eq!(BBox::for_feature(&f), BBox { min_x: -50, min_y: 100, max_x: 110, max_y: 310 });
}

#[test]
fn box_of_nested_collections() {
    let inner = Geometry::GeometryCollection(vec![
        Geometry::Point(c(50, -50)),
        Geometry::LineString(vec![c(60, 0), c(70, 5)]),
    ]);
    let outer = Geometry::GeometryCollection(vec![
        Geometry::Point(c(1, 1)),
        inner,
        Geometry::Polygon(vec![vec![c(-9, 3), c(-8, 3), c(-8, 4), c(-9, 3)]]),
    ]);
    let f = feature(outer);
    assert_eq!(feat_coord(&f), c(1, 1));
    assert_eq!(BBox::for_feature(&f), BBox { min_x: -9, min_y: -50, max_x: 70, max_y: 5 });
}

#[test]
fn representative_is_first_position_of_first_part() {
    assert_eq!(coord(&Geometry::Point(c(4, 5))), c(4, 5));
    assert_eq!(coord(&Geometry::MultiPoint(vec![c(6, 7), c(8, 9)])), c(6, 7));
    assert_eq!(coord(&Geometry::LineString(vec![c(-1, -2), c(8, 9)])), c(-1, -2));
    assert_eq!(coord(&Geometry::Polygon(vec![vec![c(3, 3), c(4, 4)], vec![c(9, 9)]])), c(3, 3));
    assert_eq!(coord(&Geometry::MultiLineString(vec![vec![c(2, 1)], vec![c(9, 9)]])), c(2, 1));
    assert_eq!(coord(&Geometry::MultiPolygon(vec![vec![vec![c(12, 13)]]])), c(12, 13));
    let nested = Geometry::GeometryCollection(vec![Geometry::GeometryCollection(vec![
        Geometry::LineString(vec![c(21, 22)]),
    ])]);
    assert_eq!(coord(&nested), c(21, 22));
}

#[test]
fn representative_of_empty_parts_is_the_origin() {
    assert_eq!(coord(&Geometry::MultiPoint(vec![])), c(0, 0));
    assert_eq!(coord(&Geometry::LineString(vec![])), c(0, 0));
    assert_eq!(coord(&Geometry::Polygon(vec![])), c(0, 0));
    assert_eq!(coord(&Geometry::Polygon(vec![vec![], vec![c(5, 5)]])), c(0, 0));
    assert_eq!(coord(&Geometry::MultiLineString(vec![vec![], vec![c(5, 5)]])), c(0, 0));
    assert_eq!(coord(&Geometry::MultiPolygon(vec![vec![vec![], vec![c(5, 5)]]])), c(0, 0));
    assert_eq!(coord(&Geometry::MultiPolygon(vec![vec![]])), c(0, 0));
    assert_eq!(coord(&Geometry::GeometryCollection(vec![])), c(0, 0));
}

#[test]
fn box_with_empty_first_ring_is_the_box_of_its_positions() {
    // The representative position is the origin because the first ring is
    // empty; the box covers the positions alone.
    let f = feature(Geometry::Polygon(vec![vec![], vec![c(5, 6), c(7, 8)]]));
    assert_eq!(feat_coord(&f), c(0, 0));
    assert_eq!(BBox::for_feature(&f), BBox { min_x: 5, min_y: 6, max_x: 7, max_y: 8 });
    let lines = feature(Geometry::MultiLineString(vec![vec![], vec![c(-5, -6)]]));
    assert_eq!(BBox::for_feature(&lines), BBox::new(-5, -6));
    let members = feature(Geometry::GeometryCollection(vec![
        Geometry::MultiPoint(vec![]),
        Geometry::Point(c(9, 9)),
    ]));
    assert_eq!(BBox::for_feature(&members), BBox::new(9, 9));
}

#[test]
fn box_of_a_geometry_without_positions_is_at_the_origin() {
    assert_eq!(BBox::for_feature(&feature(Geometry::MultiPoint(vec![]))), BBox::new(0, 0));
    assert_eq!(BBox::for_feature(&feature(Geometry::Polygon(vec![vec![], vec![]]))), BBox::new(0, 0));
    assert_eq!(BBox::for_feature(&feature(Geometry::GeometryCollection(vec![]))), BBox::new(0, 0));
}

#[test]
fn box_of_positions_far_from_the_origin_does_not_reach_it() {
    let f = feature(Geometry::LineString(vec![c(100, 200), c(150, 180)]));
    assert_eq!(BBox::for_feature(&f), BBox { min_x: 100, min_y: 180, max_x: 150, max_y: 200 });
    let at_limit = feature(Geometry::Point(c(i64::MAX, i64::MIN)));
    assert_eq!(BBox::for_feature(&at_limit), BBox::new(i64::MAX, i64::MIN));
}

#[test]
fn ring_ends_of_a_single_ring_are_none() {
    assert_eq!(ring_ends(&vec![5]), None);
    assert_eq!(ring_ends(&Vec::new()), None);
    // A lone ring needs no positions.
    assert_eq!(ring_ends(&vec![0]), None);
}

#[test]
fn ring_ends_add_up_doubled_lengths_less_one() {
    // Rings of two and three positions.
    assert_eq!(ring_ends(&vec![2, 3]), Some(vec![2, 6]));
    assert_eq!(ring_ends(&vec![5, 4, 4]), Some(vec![8, 14, 20]));
    assert_eq!(ring_ends(&vec![1, 1]), Some(vec![0, 0]));
}
