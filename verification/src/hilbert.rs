use vstd::prelude::*;

use crate::bbox::BBox;
use crate::curve::{hilbert_index, lemma_hilbert_bits_is_curve};

verus! {

/// Spreads the low sixteen bits of `v` over the even bit positions: bit `i`
/// of `v` becomes bit `2 * i` of the result.
pub open spec fn spread_bits(v: u32) -> u32 {
    let v8: u32 = (v | (v << 8)) & 0x00FF00FF;
    let v4: u32 = (v8 | (v8 << 4)) & 0x0F0F0F0F;
    let v2: u32 = (v4 | (v4 << 2)) & 0x33333333;
    (v2 | (v2 << 1)) & 0x55555555
}

/// The state of the curve after each bit position, for all sixteen positions
/// at once: bit `i` of the first mask tells whether the axes are swapped
/// exclusive-or inverted below position `i`, bit `i` of the second whether
/// they are inverted. The masks come from a parallel prefix scan over the
/// bits of `x` and `y`, in four doubling rounds.
pub open spec fn prefix_state(x: u32, y: u32) -> (u32, u32) {
    let a0: u32 = x ^ y;
    let b0: u32 = 0xFFFF ^ a0;
    let c0: u32 = 0xFFFF ^ (x | y);
    let d0: u32 = x & (y ^ 0xFFFF);
    let a1: u32 = a0 | (b0 >> 1);
    let b1: u32 = (a0 >> 1) ^ a0;
    let c1: u32 = ((c0 >> 1) ^ (b0 & (d0 >> 1))) ^ c0;
    let d1: u32 = ((a0 & (c0 >> 1)) ^ (d0 >> 1)) ^ d0;
    let a2: u32 = (a1 & (a1 >> 2)) ^ (b1 & (b1 >> 2));
    let b2: u32 = (a1 & (b1 >> 2)) ^ (b1 & ((a1 ^ b1) >> 2));
    let c2: u32 = c1 ^ ((a1 & (c1 >> 2)) ^ (b1 & (d1 >> 2)));
    let d2: u32 = d1 ^ ((b1 & (c1 >> 2)) ^ ((a1 ^ b1) & (d1 >> 2)));
    let a3: u32 = (a2 & (a2 >> 4)) ^ (b2 & (b2 >> 4));
    let b3: u32 = (a2 & (b2 >> 4)) ^ (b2 & ((a2 ^ b2) >> 4));
    let c3: u32 = c2 ^ ((a2 & (c2 >> 4)) ^ (b2 & (d2 >> 4)));
    let d3: u32 = d2 ^ ((b2 & (c2 >> 4)) ^ ((a2 ^ b2) & (d2 >> 4)));
    let c4: u32 = c3 ^ ((a3 & (c3 >> 8)) ^ (b3 & (d3 >> 8)));
    let d4: u32 = d3 ^ ((b3 & (c3 >> 8)) ^ ((a3 ^ b3) & (d3 >> 8)));
    (c4, d4)
}

/// The position of the grid cell `(x, y)` on the Hilbert curve, as the
/// bitwise transforms compute it for any two 32-bit words: the low digit
/// bits are `x ^ y`, the high digit bits come from the prefix state, and the
/// two are interleaved.
pub open spec fn hilbert_bits(x: u32, y: u32) -> u32 {
    let state = prefix_state(x, y);
    let a: u32 = state.0 ^ (state.0 >> 1);
    let b: u32 = state.1 ^ (state.1 >> 1);
    let i0: u32 = x ^ y;
    let i1: u32 = b | (0xFFFF ^ (i0 | a));
    (spread_bits(i1) << 1) | spread_bits(i0)
}

/// Maps the cell `(x, y)` of the 65536 by 65536 grid to its position on the
/// Hilbert curve of order sixteen, by bitwise transforms alone.
///
/// Words past the grid are taken too: the same transforms give them a
/// position, which the curve says nothing about.
pub fn hilbert(x: u32, y: u32) -> (position: u32)
    ensures
        position == hilbert_bits(x, y),
        x <= 0xFFFF && y <= 0xFFFF ==> position == hilbert_index(16, x as int, y as int),
{
    proof {
        if x <= 0xFFFF && y <= 0xFFFF {
            lemma_hilbert_bits_is_curve(x, y);
        }
    }
    let mut a: u32 = x ^ y;
    let mut b: u32 = 0xFFFF ^ a;
    let mut c: u32 = 0xFFFF ^ (x | y);
    let mut d: u32 = x & (y ^ 0xFFFF);

    let mut aa: u32 = a | (b >> 1);
    let mut bb: u32 = (a >> 1) ^ a;
    let mut cc: u32 = ((c >> 1) ^ (b & (d >> 1))) ^ c;
    let mut dd: u32 = ((a & (c >> 1)) ^ (d >> 1)) ^ d;

    a = aa;
    b = bb;
    c = cc;
    d = dd;
    aa = (a & (a >> 2)) ^ (b & (b >> 2));
    bb = (a & (b >> 2)) ^ (b & ((a ^ b) >> 2));
    cc = cc ^ ((a & (c >> 2)) ^ (b & (d >> 2)));
    dd = dd ^ ((b & (c >> 2)) ^ ((a ^ b) & (d >> 2)));

    a = aa;
    b = bb;
    c = cc;
    d = dd;
    aa = (a & (a >> 4)) ^ (b & (b >> 4));
    bb = (a & (b >> 4)) ^ (b & ((a ^ b) >> 4));
    cc = cc ^ ((a & (c >> 4)) ^ (b & (d >> 4)));
    dd = dd ^ ((b & (c >> 4)) ^ ((a ^ b) & (d >> 4)));

    a = aa;
    b = bb;
    c = cc;
    d = dd;
    cc = cc ^ ((a & (c >> 8)) ^ (b & (d >> 8)));
    dd = dd ^ ((b & (c >> 8)) ^ ((a ^ b) & (d >> 8)));

    a = cc ^ (cc >> 1);
    b = dd ^ (dd >> 1);

    let mut i0: u32 = x ^ y;
    let mut i1: u32 = b | (0xFFFF ^ (i0 | a));

    i0 = (i0 | (i0 << 8)) & 0x00FF00FF;
    i0 = (i0 | (i0 << 4)) & 0x0F0F0F0F;
    i0 = (i0 | (i0 << 2)) & 0x33333333;
    i0 = (i0 | (i0 << 1)) & 0x55555555;

    i1 = (i1 | (i1 << 8)) & 0x00FF00FF;
    i1 = (i1 | (i1 << 4)) & 0x0F0F0F0F;
    i1 = (i1 | (i1 << 2)) & 0x33333333;
    i1 = (i1 | (i1 << 1)) & 0x55555555;

    (i1 << 1) | i0
}

/// The largest coordinate of the grid.
pub const HILBERT_MAX: u32 = 65535;

/// Scales a box center to the grid along one axis:
/// `65535 * center / extent`, rounded down, where `center` is given doubled
/// and `extent` is the whole extent's size along that axis. An extent of
/// size zero gives the coordinate zero, a negative quotient gives zero, and
/// a quotient past the largest 32-bit unsigned integer gives that integer.
pub open spec fn grid_coordinate(doubled_center: int, extent: int) -> int {
    if extent == 0 {
        0
    } else {
        let quotient = if extent > 0 {
            (HILBERT_MAX * doubled_center) / (2 * extent)
        } else {
            (HILBERT_MAX * (-doubled_center)) / (2 * (-extent))
        };
        if quotient < 0 {
            0
        } else if quotient > u32::MAX {
            u32::MAX as int
        } else {
            quotient
        }
    }
}

/// The position on the curve of the center of `bbox`, scaled by the size of
/// `extent` along each axis.
pub open spec fn hilbert_position(bbox: BBox, extent: BBox) -> u32 {
    hilbert_bits(
        grid_coordinate(bbox.min_x + bbox.max_x, extent.spec_width()) as u32,
        grid_coordinate(bbox.min_y + bbox.max_y, extent.spec_height()) as u32,
    )
}

/// Scales a doubled center to the grid along one axis.
pub fn scale_to_grid(doubled_center: i128, extent: i128) -> (g: u32)
    requires
        -0x1_0000_0000_0000_0000 <= doubled_center <= 0x1_0000_0000_0000_0000,
        -0x1_0000_0000_0000_0000 <= extent <= 0x1_0000_0000_0000_0000,
    ensures
        g == grid_coordinate(doubled_center as int, extent as int),
{
    if extent == 0 {
        return 0;
    }
    let negative_center: bool = doubled_center < 0;
    let negative_extent: bool = extent < 0;
    let center_size: u128 = if negative_center {
        (-doubled_center) as u128
    } else {
        doubled_center as u128
    };
    let extent_size: u128 = if negative_extent {
        (-extent) as u128
    } else {
        extent as u128
    };
    let numerator: u128 = (HILBERT_MAX as u128) * center_size;
    let denominator: u128 = 2 * extent_size;
    if negative_center != negative_extent {
        proof {
            lemma_negative_quotient(HILBERT_MAX * center_size as int, denominator as int);
        }
        0
    } else {
        let quotient: u128 = numerator / denominator;
        if quotient > 0xFFFF_FFFF {
            0xFFFF_FFFF
        } else {
            quotient as u32
        }
    }
}

/// A quotient of a number that is not positive by a positive one is not
/// positive.
proof fn lemma_negative_quotient(size: int, denominator: int)
    requires
        size >= 0,
        denominator > 0,
    ensures
        (-size) / denominator <= 0,
{
    vstd::arithmetic::div_mod::lemma_div_is_ordered(-size, 0, denominator);
}

impl BBox {
    /// The position on the curve of the center of `self` within `extent`.
    pub fn hilbert_bbox(&self, extent: &BBox) -> (position: u32)
        ensures
            position == hilbert_position(*self, *extent),
    {
        let (mid_x, mid_y) = self.doubled_center();
        let x: u32 = scale_to_grid(mid_x, extent.width());
        let y: u32 = scale_to_grid(mid_y, extent.height());
        hilbert(x, y)
    }
}

} // verus!
