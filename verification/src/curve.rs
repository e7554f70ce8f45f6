use vstd::arithmetic::power2::{lemma_pow2_pos, lemma_pow2_unfold, pow2};
use vstd::prelude::*;

use crate::hilbert::{hilbert_bits, prefix_state, spread_bits};

verus! {

/// The position of the cell `(x, y)` on the Hilbert curve of the given
/// order, which visits every cell of a square of `2^order` cells a side.
///
/// The square splits into four quadrants of half the side, which the curve
/// visits one after the other: lower left, upper left, upper right, lower
/// right. Each quadrant holds a curve of the order below. In the two upper
/// quadrants it lies as the whole curve does; in the lower left one it is
/// mirrored at the diagonal, and in the lower right one at the other
/// diagonal.
pub open spec fn hilbert_index(order: nat, x: int, y: int) -> int
    recommends
        0 <= x < pow2(order),
        0 <= y < pow2(order),
    decreases order,
{
    if order == 0 {
        0
    } else {
        let half = pow2((order - 1) as nat) as int;
        let cells = half * half;
        let right = x >= half;
        let upper = y >= half;
        let qx = if right {
            x - half
        } else {
            x
        };
        let qy = if upper {
            y - half
        } else {
            y
        };
        if !right && !upper {
            hilbert_index((order - 1) as nat, qy, qx)
        } else if !right && upper {
            cells + hilbert_index((order - 1) as nat, qx, qy)
        } else if right && upper {
            2 * cells + hilbert_index((order - 1) as nat, qx, qy)
        } else {
            3 * cells + hilbert_index((order - 1) as nat, half - 1 - qy, half - 1 - qx)
        }
    }
}

/// Every cell of the square gets a position below the number of its cells.
pub proof fn lemma_hilbert_index_range(order: nat, x: int, y: int)
    requires
        0 <= x < pow2(order),
        0 <= y < pow2(order),
    ensures
        0 <= hilbert_index(order, x, y) < pow2(order) * pow2(order),
    decreases order,
{
    if order == 0 {
        assert(pow2(0) == 1) by {
            vstd::arithmetic::power2::lemma2_to64();
        }
    } else {
        let lower = (order - 1) as nat;
        let half = pow2(lower) as int;
        lemma_pow2_unfold(order);
        lemma_pow2_pos(lower);
        let right = x >= half;
        let upper = y >= half;
        let qx = if right {
            x - half
        } else {
            x
        };
        let qy = if upper {
            y - half
        } else {
            y
        };
        lemma_hilbert_index_range(lower, qx, qy);
        lemma_hilbert_index_range(lower, qy, qx);
        lemma_hilbert_index_range(lower, half - 1 - qy, half - 1 - qx);
        let side = pow2(order) as int;
        assert(side * side == 4 * (half * half)) by (nonlinear_arith)
            requires
                side == 2 * half,
        ;
    }
}

/// No two cells of the square share a position: the curve visits each cell
/// once.
pub proof fn lemma_hilbert_index_injective(order: nat, x1: int, y1: int, x2: int, y2: int)
    requires
        0 <= x1 < pow2(order),
        0 <= y1 < pow2(order),
        0 <= x2 < pow2(order),
        0 <= y2 < pow2(order),
        hilbert_index(order, x1, y1) == hilbert_index(order, x2, y2),
    ensures
        x1 == x2,
        y1 == y2,
    decreases order,
{
    if order == 0 {
        lemma_pow2_pos(0);
        assert(pow2(0) == 1) by {
            vstd::arithmetic::power2::lemma2_to64();
        }
    } else {
        let lower = (order - 1) as nat;
        let half = pow2(lower) as int;
        lemma_pow2_unfold(order);
        lemma_pow2_pos(lower);
        let qx1 = if x1 >= half {
            x1 - half
        } else {
            x1
        };
        let qy1 = if y1 >= half {
            y1 - half
        } else {
            y1
        };
        let qx2 = if x2 >= half {
            x2 - half
        } else {
            x2
        };
        let qy2 = if y2 >= half {
            y2 - half
        } else {
            y2
        };
        lemma_hilbert_index_range(lower, qx1, qy1);
        lemma_hilbert_index_range(lower, qy1, qx1);
        lemma_hilbert_index_range(lower, half - 1 - qy1, half - 1 - qx1);
        lemma_hilbert_index_range(lower, qx2, qy2);
        lemma_hilbert_index_range(lower, qy2, qx2);
        lemma_hilbert_index_range(lower, half - 1 - qy2, half - 1 - qx2);
        assert((x1 >= half) == (x2 >= half) && (y1 >= half) == (y2 >= half));
        if x1 < half && y1 < half {
            lemma_hilbert_index_injective(lower, qy1, qx1, qy2, qx2);
        } else if x1 >= half && y1 < half {
            lemma_hilbert_index_injective(
                lower,
                half - 1 - qy1,
                half - 1 - qx1,
                half - 1 - qy2,
                half - 1 - qx2,
            );
        } else {
            lemma_hilbert_index_injective(lower, qx1, qy1, qx2, qy2);
        }
    }
}

/// After the last round of the scan each state is the state eight
/// positions above it, carried through the eight positions between.
proof fn lemma_scan_round_8(a3: u32, b3: u32, c3: u32, d3: u32, c4: u32, d4: u32)
    by (bit_vector)
    requires
        a3 <= 0xFFFF,
        b3 <= 0xFFFF,
        c3 <= 0xFFFF,
        d3 <= 0xFFFF,
        c4 == c3 ^ ((a3 & (c3 >> 8)) ^ (b3 & (d3 >> 8))),
        d4 == d3 ^ ((b3 & (c3 >> 8)) ^ ((a3 ^ b3) & (d3 >> 8))),
    ensures
        c4 <= 0xFFFF,
        d4 <= 0xFFFF,
        c4 == c3 ^ ((a3 & (c4 >> 8)) ^ (b3 & (d4 >> 8))),
        d4 == d3 ^ ((b3 & (c4 >> 8)) ^ ((a3 ^ b3) & (d4 >> 8))),
{
}

/// What holds of the states eight positions apart holds of those four
/// apart, by the round of the scan that doubled four to eight.
proof fn lemma_scan_round_4(a2: u32, b2: u32, c2: u32, d2: u32, a3: u32, b3: u32, c3: u32, d3: u32, c4: u32, d4: u32)
    by (bit_vector)
    requires
        a2 <= 0xFFFF,
        b2 <= 0xFFFF,
        c2 <= 0xFFFF,
        d2 <= 0xFFFF,
        c4 <= 0xFFFF,
        d4 <= 0xFFFF,
        a3 == (a2 & (a2 >> 4)) ^ (b2 & (b2 >> 4)),
        b3 == (a2 & (b2 >> 4)) ^ (b2 & ((a2 ^ b2) >> 4)),
        c3 == c2 ^ ((a2 & (c2 >> 4)) ^ (b2 & (d2 >> 4))),
        d3 == d2 ^ ((b2 & (c2 >> 4)) ^ ((a2 ^ b2) & (d2 >> 4))),
        c4 == c3 ^ ((a3 & (c4 >> 8)) ^ (b3 & (d4 >> 8))),
        d4 == d3 ^ ((b3 & (c4 >> 8)) ^ ((a3 ^ b3) & (d4 >> 8))),
    ensures
        a3 <= 0xFFFF,
        b3 <= 0xFFFF,
        c3 <= 0xFFFF,
        d3 <= 0xFFFF,
        c4 == c2 ^ ((a2 & (c4 >> 4)) ^ (b2 & (d4 >> 4))),
        d4 == d2 ^ ((b2 & (c4 >> 4)) ^ ((a2 ^ b2) & (d4 >> 4))),
{
}

/// What holds of the states four positions apart holds of those two apart.
proof fn lemma_scan_round_2(a1: u32, b1: u32, c1: u32, d1: u32, a2: u32, b2: u32, c2: u32, d2: u32, c4: u32, d4: u32)
    by (bit_vector)
    requires
        a1 <= 0xFFFF,
        b1 <= 0xFFFF,
        c1 <= 0xFFFF,
        d1 <= 0xFFFF,
        c4 <= 0xFFFF,
        d4 <= 0xFFFF,
        a2 == (a1 & (a1 >> 2)) ^ (b1 & (b1 >> 2)),
        b2 == (a1 & (b1 >> 2)) ^ (b1 & ((a1 ^ b1) >> 2)),
        c2 == c1 ^ ((a1 & (c1 >> 2)) ^ (b1 & (d1 >> 2))),
        d2 == d1 ^ ((b1 & (c1 >> 2)) ^ ((a1 ^ b1) & (d1 >> 2))),
        c4 == c2 ^ ((a2 & (c4 >> 4)) ^ (b2 & (d4 >> 4))),
        d4 == d2 ^ ((b2 & (c4 >> 4)) ^ ((a2 ^ b2) & (d4 >> 4))),
    ensures
        a2 <= 0xFFFF,
        b2 <= 0xFFFF,
        c2 <= 0xFFFF,
        d2 <= 0xFFFF,
        c4 == c1 ^ ((a1 & (c4 >> 2)) ^ (b1 & (d4 >> 2))),
        d4 == d1 ^ ((b1 & (c4 >> 2)) ^ ((a1 ^ b1) & (d4 >> 2))),
{
}

/// What holds of the states two positions apart holds of neighbours: each
/// state follows from the one above it and the bits at its own position.
proof fn lemma_scan_round_1(x: u32, y: u32, a0: u32, b0: u32, c0: u32, d0: u32, a1: u32, b1: u32, c1: u32, d1: u32, c4: u32, d4: u32)
    by (bit_vector)
    requires
        x <= 0xFFFF,
        y <= 0xFFFF,
        c4 <= 0xFFFF,
        d4 <= 0xFFFF,
        a0 == x ^ y,
        b0 == 0xFFFF ^ a0,
        c0 == 0xFFFF ^ (x | y),
        d0 == x & (y ^ 0xFFFF),
        a1 == a0 | (b0 >> 1),
        b1 == (a0 >> 1) ^ a0,
        c1 == ((c0 >> 1) ^ (b0 & (d0 >> 1))) ^ c0,
        d1 == ((a0 & (c0 >> 1)) ^ (d0 >> 1)) ^ d0,
        c4 == c1 ^ ((a1 & (c4 >> 2)) ^ (b1 & (d4 >> 2))),
        d4 == d1 ^ ((b1 & (c4 >> 2)) ^ ((a1 ^ b1) & (d4 >> 2))),
    ensures
        a1 <= 0xFFFF,
        b1 <= 0xFFFF,
        c1 <= 0xFFFF,
        d1 <= 0xFFFF,
        c4 == c0 ^ (c4 >> 1) ^ (b0 & (d4 >> 1)),
        d4 == d0 ^ (d4 >> 1) ^ (a0 & (c4 >> 1)),
{
}

/// Bit `k` of `w`.
spec fn bit_at(w: u32, k: u32) -> bool {
    (w >> k) & 1 == 1
}

/// The low `k` bits of `w`.
spec fn low_bits(w: u32, k: u32) -> u32 {
    w & !(0xFFFF_FFFFu32 << k)
}

/// The low `k` bits of `w`.
spec fn low_bits_wide(w: u64, k: u64) -> u64 {
    w & !(0xFFFF_FFFF_FFFF_FFFFu64 << k)
}

/// The masks `c` and `d` hold, at every bit position, the state of the
/// curve after that position, as it follows from the state after the
/// position above and the bits of `x` and `y` at the position itself.
spec fn is_curve_state(x: u32, y: u32, c: u32, d: u32) -> bool {
    &&& c == (0xFFFF ^ (x | y)) ^ (c >> 1) ^ ((0xFFFF ^ (x ^ y)) & (d >> 1))
    &&& d == (x & (y ^ 0xFFFF)) ^ (d >> 1) ^ ((x ^ y) & (c >> 1))
}

/// Below bit position `k` the curve lies mirrored at a diagonal: the axes
/// trade places.
spec fn swapped(c: u32, d: u32, k: u32) -> bool {
    bit_at(c, k) != bit_at(d, k)
}

/// Below bit position `k` the curve lies reversed: both axes count down.
spec fn inverted(d: u32, k: u32) -> bool {
    bit_at(d, k)
}

/// The first coordinate as the curve below bit position `k` sees it.
spec fn seen_x(x: u32, y: u32, c: u32, d: u32, k: u32) -> u32 {
    let base = if swapped(c, d, k) {
        y
    } else {
        x
    };
    if inverted(d, k) {
        0xFFFF ^ base
    } else {
        base
    }
}

/// The second coordinate as the curve below bit position `k` sees it.
spec fn seen_y(x: u32, y: u32, c: u32, d: u32, k: u32) -> u32 {
    let base = if swapped(c, d, k) {
        x
    } else {
        y
    };
    if inverted(d, k) {
        0xFFFF ^ base
    } else {
        base
    }
}

/// The high digit bits of the position, from the state masks.
spec fn high_digits(x: u32, y: u32, c: u32, d: u32) -> u32 {
    (d ^ (d >> 1)) | (0xFFFF ^ ((x ^ y) | (c ^ (c >> 1))))
}

/// One position of the curve: how the quadrant at position `k` changes the
/// state, and which digit of the position it gives.
proof fn lemma_quadrant_step(x: u32, y: u32, c: u32, d: u32, k: u32, k1: u32)
    by (bit_vector)
    requires
        k < 16,
        k1 == k + 1,
        x <= 0xFFFF,
        y <= 0xFFFF,
        c <= 0xFFFF,
        d <= 0xFFFF,
        is_curve_state(x, y, c, d),
    ensures
        swapped(c, d, k) == (swapped(c, d, k1) != !bit_at(seen_y(x, y, c, d, k1), k)),
        inverted(d, k) == (inverted(d, k1) != (bit_at(seen_x(x, y, c, d, k1), k) && !bit_at(
            seen_y(x, y, c, d, k1),
            k,
        ))),
        bit_at(high_digits(x, y, c, d), k) == bit_at(seen_x(x, y, c, d, k1), k),
        bit_at(x ^ y, k) == (bit_at(seen_x(x, y, c, d, k1), k) != bit_at(seen_y(x, y, c, d, k1), k)),
        high_digits(x, y, c, d) <= 0xFFFF,
        (x ^ y) <= 0xFFFF,
{
}

/// The low bits of a word grow by one bit at a time, and inverting a word
/// counts its low bits down from the top.
proof fn lemma_low_bits_step(w: u32, k: u32, k1: u32)
    by (bit_vector)
    requires
        k < 16,
        k1 == k + 1,
        w <= 0xFFFF,
    ensures
        low_bits(w, k1) == low_bits(w, k) + (if bit_at(w, k) {
            1u32 << k
        } else {
            0u32
        }),
        low_bits(w, k) < (1u32 << k),
        low_bits(0xFFFF ^ w, k) + low_bits(w, k) + 1 == (1u32 << k),
        (0xFFFF ^ w) <= 0xFFFF,
        0xFFFF ^ (0xFFFF ^ w) == w,
        (1u32 << k1) == 2 * (1u32 << k),
{
}

/// No low bits are zero, and all low bits are the word.
proof fn lemma_low_bits_ends(w: u32, r: u32)
    by (bit_vector)
    requires
        w <= 0xFFFF,
    ensures
        low_bits(w, 16) == w,
        !bit_at(w, 16),
        low_bits(w, 0) == 0,
        low_bits_wide(r as u64, 0) == 0,
        low_bits_wide(r as u64, 32) == r,
        (1u32 << 0) == 1,
{
}

/// The interleaved position grows by one base-four digit for each bit
/// position of the two digit masks.
proof fn lemma_digit_step(i0: u32, i1: u32, r: u32, k: u32, k2: u64, k22: u64)
    by (bit_vector)
    requires
        k < 16,
        k2 == 2 * k,
        k22 == 2 * k + 2,
        i0 <= 0xFFFF,
        i1 <= 0xFFFF,
        r == (spread_bits(i1) << 1) | spread_bits(i0),
    ensures
        low_bits_wide(r as u64, k22) == low_bits_wide(r as u64, k2) + ((if bit_at(i1, k) {
            2u64
        } else {
            0u64
        }) + (if bit_at(i0, k) {
            1u64
        } else {
            0u64
        })) * (((1u32 << k) as u64) * ((1u32 << k) as u64)),
        low_bits_wide(r as u64, k2) < ((1u32 << k) as u64) * ((1u32 << k) as u64),
{
}

/// The number of steps along the axes between two cells.
pub open spec fn grid_distance(x1: int, y1: int, x2: int, y2: int) -> int {
    (if x1 <= x2 {
        x2 - x1
    } else {
        x1 - x2
    }) + (if y1 <= y2 {
        y2 - y1
    } else {
        y1 - y2
    })
}

/// The curve begins in the lower left corner of the square and ends in the
/// lower right one.
pub proof fn lemma_hilbert_index_ends(order: nat)
    ensures
        hilbert_index(order, 0, 0) == 0,
        hilbert_index(order, pow2(order) - 1, 0) == pow2(order) * pow2(order) - 1,
    decreases order,
{
    if order == 0 {
        assert(pow2(0) == 1) by {
            vstd::arithmetic::power2::lemma2_to64();
        }
    } else {
        let lower = (order - 1) as nat;
        let half = pow2(lower) as int;
        lemma_pow2_unfold(order);
        lemma_pow2_pos(lower);
        lemma_hilbert_index_ends(lower);
        let side = pow2(order) as int;
        assert(side * side == 4 * (half * half)) by (nonlinear_arith)
            requires
                side == 2 * half,
        ;
    }
}

/// The curve never jumps: the cell that follows a cell on the curve is its
/// neighbour on the grid.
pub proof fn lemma_hilbert_index_neighbours(order: nat, x1: int, y1: int, x2: int, y2: int)
    requires
        0 <= x1 < pow2(order),
        0 <= y1 < pow2(order),
        0 <= x2 < pow2(order),
        0 <= y2 < pow2(order),
        hilbert_index(order, x2, y2) == hilbert_index(order, x1, y1) + 1,
    ensures
        grid_distance(x1, y1, x2, y2) == 1,
    decreases order,
{
    if order == 0 {
        assert(pow2(0) == 1) by {
            vstd::arithmetic::power2::lemma2_to64();
        }
    } else {
        let lower = (order - 1) as nat;
        let half = pow2(lower) as int;
        let cells = half * half;
        lemma_pow2_unfold(order);
        lemma_pow2_pos(lower);
        let qx1 = if x1 >= half {
            x1 - half
        } else {
            x1
        };
        let qy1 = if y1 >= half {
            y1 - half
        } else {
            y1
        };
        let qx2 = if x2 >= half {
            x2 - half
        } else {
            x2
        };
        let qy2 = if y2 >= half {
            y2 - half
        } else {
            y2
        };
        // The cell of each curve as the quadrant's own curve sees it.
        let (ax1, ay1) = if x1 < half && y1 < half {
            (qy1, qx1)
        } else if x1 >= half && y1 < half {
            (half - 1 - qy1, half - 1 - qx1)
        } else {
            (qx1, qy1)
        };
        let (ax2, ay2) = if x2 < half && y2 < half {
            (qy2, qx2)
        } else if x2 >= half && y2 < half {
            (half - 1 - qy2, half - 1 - qx2)
        } else {
            (qx2, qy2)
        };
        lemma_hilbert_index_range(lower, ax1, ay1);
        lemma_hilbert_index_range(lower, ax2, ay2);
        lemma_hilbert_index_ends(lower);
        let s1 = hilbert_index(lower, ax1, ay1);
        let s2 = hilbert_index(lower, ax2, ay2);
        if s2 == s1 + 1 {
            // Both cells lie in one quadrant.
            assert((x1 >= half) == (x2 >= half) && (y1 >= half) == (y2 >= half));
            lemma_hilbert_index_neighbours(lower, ax1, ay1, ax2, ay2);
        } else {
            // The first cell ends its quadrant and the second begins the next.
            assert(s1 == cells - 1 && s2 == 0);
            lemma_hilbert_index_injective(lower, ax1, ay1, half - 1, 0);
            lemma_hilbert_index_injective(lower, ax2, ay2, 0, 0);
        }
    }
}

/// The masks that the prefix scan computes are the state of the curve, and
/// the position is made of the digits that follow from them.
proof fn lemma_prefix_state_is_curve_state(x: u32, y: u32)
    requires
        x <= 0xFFFF,
        y <= 0xFFFF,
    ensures
        prefix_state(x, y).0 <= 0xFFFF,
        prefix_state(x, y).1 <= 0xFFFF,
        is_curve_state(x, y, prefix_state(x, y).0, prefix_state(x, y).1),
        hilbert_bits(x, y) == (spread_bits(
            high_digits(x, y, prefix_state(x, y).0, prefix_state(x, y).1),
        ) << 1) | spread_bits(x ^ y),
{
    let a0: u32 = x ^ y;
    let b0: u32 = 0xFFFF ^ a0;
    let c0: u32 = 0xFFFF ^ (x | y);
    let d0: u32 = x & (y ^ 0xFFFF);
    let a1: u32 = a0 | (b0 >> 1);
    let b1: u32 = (a0 >> 1) ^ a0;
    let c1: u32 = ((c0 >> 1) ^ (b0 & (d0 >> 1))) ^ c0;
    let d1: u32 = ((a0 & (c0 >> 1)) ^ (d0 >> 1)) ^ d0;
    let a2: u32 = (a1 & (a1 >> 2)) ^ (b1 & (b1 >> 2));
    let b2: u32 = (a1 & (b1 >> 2)) ^ (b1 & ((a1 ^ b1) >> 2));
    let c2: u32 = c1 ^ ((a1 & (c1 >> 2)) ^ (b1 & (d1 >> 2)));
    let d2: u32 = d1 ^ ((b1 & (c1 >> 2)) ^ ((a1 ^ b1) & (d1 >> 2)));
    let a3: u32 = (a2 & (a2 >> 4)) ^ (b2 & (b2 >> 4));
    let b3: u32 = (a2 & (b2 >> 4)) ^ (b2 & ((a2 ^ b2) >> 4));
    let c3: u32 = c2 ^ ((a2 & (c2 >> 4)) ^ (b2 & (d2 >> 4)));
    let d3: u32 = d2 ^ ((b2 & (c2 >> 4)) ^ ((a2 ^ b2) & (d2 >> 4)));
    let c4: u32 = c3 ^ ((a3 & (c3 >> 8)) ^ (b3 & (d3 >> 8)));
    let d4: u32 = d3 ^ ((b3 & (c3 >> 8)) ^ ((a3 ^ b3) & (d3 >> 8)));
    assert(prefix_state(x, y) == (c4, d4));
    lemma_scan_bounds(x, y, a0, b0, c0, d0, a1, b1, c1, d1, a2, b2, c2, d2, a3, b3, c3, d3);
    lemma_scan_round_8(a3, b3, c3, d3, c4, d4);
    lemma_scan_round_4(a2, b2, c2, d2, a3, b3, c3, d3, c4, d4);
    lemma_scan_round_2(a1, b1, c1, d1, a2, b2, c2, d2, c4, d4);
    lemma_scan_round_1(x, y, a0, b0, c0, d0, a1, b1, c1, d1, c4, d4);
}

/// Every mask of the scan stays within sixteen bits.
proof fn lemma_scan_bounds(
    x: u32,
    y: u32,
    a0: u32,
    b0: u32,
    c0: u32,
    d0: u32,
    a1: u32,
    b1: u32,
    c1: u32,
    d1: u32,
    a2: u32,
    b2: u32,
    c2: u32,
    d2: u32,
    a3: u32,
    b3: u32,
    c3: u32,
    d3: u32,
)
    by (bit_vector)
    requires
        x <= 0xFFFF,
        y <= 0xFFFF,
        a0 == x ^ y,
        b0 == 0xFFFF ^ a0,
        c0 == 0xFFFF ^ (x | y),
        d0 == x & (y ^ 0xFFFF),
        a1 == a0 | (b0 >> 1),
        b1 == (a0 >> 1) ^ a0,
        c1 == ((c0 >> 1) ^ (b0 & (d0 >> 1))) ^ c0,
        d1 == ((a0 & (c0 >> 1)) ^ (d0 >> 1)) ^ d0,
        a2 == (a1 & (a1 >> 2)) ^ (b1 & (b1 >> 2)),
        b2 == (a1 & (b1 >> 2)) ^ (b1 & ((a1 ^ b1) >> 2)),
        c2 == c1 ^ ((a1 & (c1 >> 2)) ^ (b1 & (d1 >> 2))),
        d2 == d1 ^ ((b1 & (c1 >> 2)) ^ ((a1 ^ b1) & (d1 >> 2))),
        a3 == (a2 & (a2 >> 4)) ^ (b2 & (b2 >> 4)),
        b3 == (a2 & (b2 >> 4)) ^ (b2 & ((a2 ^ b2) >> 4)),
        c3 == c2 ^ ((a2 & (c2 >> 4)) ^ (b2 & (d2 >> 4))),
        d3 == d2 ^ ((b2 & (c2 >> 4)) ^ ((a2 ^ b2) & (d2 >> 4))),
    ensures
        a1 <= 0xFFFF,
        b1 <= 0xFFFF,
        c1 <= 0xFFFF,
        d1 <= 0xFFFF,
        a2 <= 0xFFFF,
        b2 <= 0xFFFF,
        c2 <= 0xFFFF,
        d2 <= 0xFFFF,
        a3 <= 0xFFFF,
        b3 <= 0xFFFF,
        c3 <= 0xFFFF,
        d3 <= 0xFFFF,
{
}

/// One shifted left by `k` is the `k`-th power of two.
proof fn lemma_shift_is_power(k: u32)
    requires
        k <= 16,
    ensures
        (1u32 << k) == pow2(k as nat),
    decreases k,
{
    if k == 0 {
        lemma_low_bits_ends(0, 0);
        assert(pow2(0) == 1) by {
            vstd::arithmetic::power2::lemma2_to64();
        }
    } else {
        let j = (k - 1) as u32;
        lemma_shift_is_power(j);
        lemma_low_bits_step(0, j, k);
        lemma_pow2_unfold(k as nat);
    }
}

/// Below every bit position the digits of the position are the curve of
/// that order over the low bits of the coordinates, as the state at that
/// position has them swapped and inverted.
proof fn lemma_curve_below(x: u32, y: u32, c: u32, d: u32, r: u32, k: u32)
    requires
        k <= 16,
        x <= 0xFFFF,
        y <= 0xFFFF,
        c <= 0xFFFF,
        d <= 0xFFFF,
        is_curve_state(x, y, c, d),
        r == (spread_bits(high_digits(x, y, c, d)) << 1) | spread_bits(x ^ y),
    ensures
        hilbert_index(
            k as nat,
            low_bits(seen_x(x, y, c, d, k), k) as int,
            low_bits(seen_y(x, y, c, d, k), k) as int,
        ) == low_bits_wide(r as u64, (2 * k) as u64),
    decreases k,
{
    if k == 0 {
        lemma_low_bits_ends(0, r);
    } else {
        let j = (k - 1) as u32;
        let i0 = x ^ y;
        let i1 = high_digits(x, y, c, d);
        lemma_curve_below(x, y, c, d, r, j);
        lemma_quadrant_step(x, y, c, d, j, k);
        lemma_low_bits_step(x, j, k);
        lemma_low_bits_step(y, j, k);
        lemma_low_bits_step(0xFFFF ^ x, j, k);
        lemma_low_bits_step(0xFFFF ^ y, j, k);
        lemma_digit_step(i0, i1, r, j, (2 * j) as u64, (2 * j + 2) as u64);
        lemma_shift_is_power(j);
        let half = pow2(j as nat) as int;
        let cells = half * half;
        let sx = seen_x(x, y, c, d, k);
        let sy = seen_y(x, y, c, d, k);
        let px = low_bits(sx, k) as int;
        let py = low_bits(sy, k) as int;
        let right = bit_at(sx, j);
        let upper = bit_at(sy, j);
        assert(right == (px >= half));
        assert(upper == (py >= half));
        let below = low_bits_wide(r as u64, (2 * j) as u64) as int;
        let digit: int = (if bit_at(i1, j) {
            2int
        } else {
            0int
        }) + (if bit_at(i0, j) {
            1int
        } else {
            0int
        });
        assert(((1u32 << j) as u64) * ((1u32 << j) as u64) == cells);
        assert(low_bits_wide(r as u64, (2 * k) as u64) == below + digit * cells);
        assert(2 * cells == cells + cells && 3 * cells == cells + cells + cells && 0 * cells == 0
            && 1 * cells == cells) by (nonlinear_arith);
    }
}

/// On the grid the bitwise transforms compute the Hilbert curve of order
/// sixteen.
pub proof fn lemma_hilbert_bits_is_curve(x: u32, y: u32)
    requires
        x <= 0xFFFF,
        y <= 0xFFFF,
    ensures
        hilbert_bits(x, y) == hilbert_index(16, x as int, y as int),
{
    let c = prefix_state(x, y).0;
    let d = prefix_state(x, y).1;
    let r = hilbert_bits(x, y);
    lemma_prefix_state_is_curve_state(x, y);
    lemma_curve_below(x, y, c, d, r, 16);
    lemma_low_bits_ends(c, r);
    lemma_low_bits_ends(d, r);
    lemma_low_bits_ends(x, r);
    lemma_low_bits_ends(y, r);
}

/// On the grid no two cells get the same position.
pub proof fn lemma_hilbert_bits_injective(x1: u32, y1: u32, x2: u32, y2: u32)
    requires
        x1 <= 0xFFFF,
        y1 <= 0xFFFF,
        x2 <= 0xFFFF,
        y2 <= 0xFFFF,
        hilbert_bits(x1, y1) == hilbert_bits(x2, y2),
    ensures
        x1 == x2,
        y1 == y2,
{
    lemma_hilbert_bits_is_curve(x1, y1);
    lemma_hilbert_bits_is_curve(x2, y2);
    assert(pow2(16) == 0x10000) by {
        vstd::arithmetic::power2::lemma2_to64();
    }
    lemma_hilbert_index_injective(16, x1 as int, y1 as int, x2 as int, y2 as int);
}

/// On the grid the cell at the next position is a neighbour.
pub proof fn lemma_hilbert_bits_neighbours(x1: u32, y1: u32, x2: u32, y2: u32)
    requires
        x1 <= 0xFFFF,
        y1 <= 0xFFFF,
        x2 <= 0xFFFF,
        y2 <= 0xFFFF,
        hilbert_bits(x2, y2) == hilbert_bits(x1, y1) + 1,
    ensures
        grid_distance(x1 as int, y1 as int, x2 as int, y2 as int) == 1,
{
    lemma_hilbert_bits_is_curve(x1, y1);
    lemma_hilbert_bits_is_curve(x2, y2);
    assert(pow2(16) == 0x10000) by {
        vstd::arithmetic::power2::lemma2_to64();
    }
    lemma_hilbert_index_neighbours(16, x1 as int, y1 as int, x2 as int, y2 as int);
}

} // verus!
