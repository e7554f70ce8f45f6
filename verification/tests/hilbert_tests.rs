use std::collections::HashSet;

use geoq::bbox::BBox;
use geoq::hilbert::{hilbert, scale_to_grid, HILBERT_MAX};

/// The curve of order sixteen by the textbook recursion over quadrants.
fn curve_by_quadrants(x: u32, y: u32) -> u32 {
    let (mut x, mut y) = (x, y);
    let mut d: u32 = 0;
    let mut s: u32 = 1 << 15;
    while s > 0 {
        let rx = if x & s != 0 { 1u32 } else { 0 };
        let ry = if y & s != 0 { 1u32 } else { 0 };
        d = d.wrapping_add(s.wrapping_mul(s).wrapping_mul((3 * rx) ^ ry));
        x &= s - 1;
        y &= s - 1;
        if ry == 0 {
            if rx == 1 {
                x = s - 1 - x;
                y = s - 1 - y;
            }
            std::mem::swap(&mut x, &mut y);
        }
        s >>= 1;
    }
    d
}

#[test]
fn hilbert_known_positions() {
    assert_eq!(hilbert(0, 0), 0);
    assert_eq!(hilbert(1, 0), 1);
    assert_eq!(hilbert(1, 1), 2);
    assert_eq!(hilbert(0, 1), 3);
    assert_eq!(hilbert(0, 2), 4);
    assert_eq!(hilbert(2, 0), 14);
    assert_eq!(hilbert(3, 5), 52);
    assert_eq!(hilbert(5, 3), 28);
    assert_eq!(hilbert(100, 200), 28272);
    assert_eq!(hilbert(255, 255), 43690);
    assert_eq!(hilbert(256, 256), 131072);
    assert_eq!(hilbert(12345, 54321), 1555040834);
    assert_eq!(hilbert(40000, 40000), 2191532032);
    assert_eq!(hilbert(65535, 0), 4294967295);
    assert_eq!(hilbert(0, 65535), 1431655765);
    assert_eq!(hilbert(65535, 65535), 2863311530);
}

#[test]
fn hilbert_agrees_with_the_recursion_over_quadrants() {
    let mut state: u64 = 42;
    for _ in 0..200_000 {
        state = state.wrapping_mul(6364136223846793005).wrapping_add(1442695040888963407);
        let x = ((state >> 16) & 0xFFFF) as u32;
        let y = ((state >> 40) & 0xFFFF) as u32;
        assert_eq!(hilbert(x, y), curve_by_quadrants(x, y));
    }
    for x in 0..64 {
        for y in 0..64 {
            assert_eq!(hilbert(x, y), curve_by_quadrants(x, y));
        }
    }
}

#[test]
fn hilbert_has_no_collisions_on_a_sample() {
    let mut seen = HashSet::new();
    let mut count = 0usize;
    for x in (0..65536u32).step_by(257) {
        for y in (0..65536u32).step_by(263) {
            seen.insert(hilbert(x, y));
            count += 1;
        }
    }
    for x in 0..128u32 {
        for y in 65408..65536u32 {
            if x % 257 != 0 || y % 263 != 0 {
                seen.insert(hilbert(x, y));
                count += 1;
            }
        }
    }
    assert_eq!(seen.len(), count);
}

#[test]
fn hilbert_covers_a_small_corner_exactly_once() {
    // The cells below 16 on both axes are the first 256 positions.
    let mut seen = vec![false; 256];
    for x in 0..16u32 {
        for y in 0..16u32 {
            let d = hilbert(x, y) as usize;
            assert!(d < 256);
            assert!(!seen[d]);
            seen[d] = true;
        }
    }
}

#[test]
fn hilbert_neighbours_on_the_curve_are_neighbours_on_the_grid() {
    let mut cells = vec![(0u32, 0u32); 4096];
    for x in 0..64u32 {
        for y in 0..64u32 {
            cells[hilbert(x, y) as usize] = (x, y);
        }
    }
    for d in 0..4095usize {
        let (x0, y0) = cells[d];
        let (x1, y1) = cells[d + 1];
        assert_eq!(x0.abs_diff(x1) + y0.abs_diff(y1), 1);
    }
    // A handful of known pairs far from the corner.
    let d = hilbert(40000, 40000);
    let near = [(39999, 40000), (40001, 40000), (40000, 39999), (40000, 40001)];
    assert!(near.iter().any(|&(x, y)| hilbert(x, y) == d + 1));
    assert!(near.iter().any(|&(x, y)| hilbert(x, y) == d - 1));
}

#[test]
fn hilbert_takes_words_past_the_grid() {
    // Outside the grid the transforms still give one fixed value.
    assert_eq!(hilbert(65536, 0), hilbert(65536, 0));
    assert_eq!(hilbert(0, 5570475), hilbert(0, 5570475));
    assert_eq!(hilbert(u32::MAX, u32::MAX), hilbert(u32::MAX, u32::MAX));
}

#[test]
fn scale_to_grid_rounds_down() {
    assert_eq!(HILBERT_MAX, 65535);
    // center 5 of an extent of 10: 65535 * 5 / 10 = 32767.5
    assert_eq!(scale_to_grid(10, 10), 32767);
    // center 3.5 of an extent of 3: 65535 * 3.5 / 3 = 76457.5
    assert_eq!(scale_to_grid(7, 3), 76457);
    assert_eq!(scale_to_grid(200, 100), 65535);
    assert_eq!(scale_to_grid(20, 100), 6553);
    assert_eq!(scale_to_grid(1, 65536), 0);
    assert_eq!(scale_to_grid(0, 5), 0);
}

#[test]
fn scale_to_grid_guards_an_extent_of_zero() {
    assert_eq!(scale_to_grid(10, 0), 0);
    assert_eq!(scale_to_grid(-10, 0), 0);
    assert_eq!(scale_to_grid(0, 0), 0);
}

#[test]
fn scale_to_grid_saturates() {
    assert_eq!(scale_to_grid(-10, 10), 0);
    assert_eq!(scale_to_grid(10, -10), 0);
    assert_eq!(scale_to_grid(-10, -10), 32767);
    assert_eq!(scale_to_grid(1 << 64, 1), u32::MAX);
    assert_eq!(scale_to_grid(-(1 << 64), -1), u32::MAX);
    assert_eq!(scale_to_grid(1 << 64, -(1 << 64)), 0);
    assert_eq!(scale_to_grid(1 << 64, 1 << 64), 32767);
}

#[test]
fn hilbert_bbox_scales_each_axis_by_its_own_bounds() {
    let extent = BBox { min_x: 0, min_y: 0, max_x: 100, max_y: 100 };
    assert_eq!(BBox::new(0, 0).hilbert_bbox(&extent), 0);
    assert_eq!(BBox::new(10, 10).hilbert_bbox(&extent), 42107522);
    assert_eq!(BBox::new(50, 50).hilbert_bbox(&extent), 715827882);
    assert_eq!(BBox::new(90, 10).hilbert_bbox(&extent), 4252859762);
    assert_eq!(BBox::new(10, 90).hilbert_bbox(&extent), 1473763282);
    assert_eq!(BBox::new(100, 100).hilbert_bbox(&extent), 2863311530);
    let bb = BBox { min_x: 20, min_y: 30, max_x: 40, max_y: 50 };
    assert_eq!(bb.hilbert_bbox(&extent), hilbert(19660, 26214));
    assert_eq!(bb.hilbert_bbox(&extent), 776397934);
}

#[test]
fn hilbert_bbox_of_a_degenerate_extent_is_the_curve_start() {
    let extent = BBox::new(5, 5);
    assert_eq!(BBox::new(5, 5).hilbert_bbox(&extent), 0);
    let flat = BBox { min_x: 0, min_y: 7, max_x: 100, max_y: 7 };
    assert_eq!(BBox::new(50, 7).hilbert_bbox(&flat), hilbert(32767, 0));
}
