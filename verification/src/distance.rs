//! Color distances in fixed point.
//!
//! The Euclidean RGB distance between two pixels is carried in thousandths:
//! `dist_fp(a, b) = floor(1000 * sqrt(dr^2 + dg^2 + db^2))`.  A precomputed
//! flat table holds this distance from every pixel to every neighbor inside
//! a 7 by 7 window.  Connectivity penalties use the fixed neighbor weight
//! table, reciprocals scaled by 840 so that every term is an exact integer.

use vstd::prelude::*;

verus! {

/// An RGB pixel of the source image.
#[derive(Clone, Copy, Debug, PartialEq, Eq, Structural)]
pub struct Pixel {
    pub red: u8,
    pub green: u8,
    pub blue: u8,
}

/// Scale of fixed-point color distances: thousandths.
pub const DIST_SCALE: u64 = 1000;

/// The largest fixed-point distance two 8-bit RGB colors can have:
/// `floor(1000 * sqrt(3 * 255^2))`.
pub const MAX_DIST_FP: u64 = 441672;

/// Reciprocal connectivity weights are scaled by 840, the least common
/// multiple of the weights 1 through 8, so each `840 / w` is exact.
pub const CONN_SCALE: u64 = 840;

/// `r` is the integer square root of `x`, rounded down.
pub open spec fn is_sqrt_floor(x: int, r: int) -> bool {
    0 <= r && r * r <= x && (r + 1) * (r + 1) > x
}

/// The integer square root of `x`, rounded down.
pub open spec fn sqrt_floor(x: int) -> int {
    choose|r: int| is_sqrt_floor(x, r)
}

/// The rounded-down square root is unique, so any witness equals
/// `sqrt_floor`.
pub proof fn lemma_sqrt_floor_unique(x: int, r: int)
    requires
        is_sqrt_floor(x, r),
    ensures
        sqrt_floor(x) == r,
{
    let r2 = sqrt_floor(x);
    assert(is_sqrt_floor(x, r2));
    assert(r == r2) by (nonlinear_arith)
        requires
            is_sqrt_floor(x, r),
            is_sqrt_floor(x, r2),
    ;
}

/// The integer square root, rounded down.
pub fn isqrt(x: u64) -> (r: u64)
    ensures
        is_sqrt_floor(x as int, r as int),
        r == sqrt_floor(x as int),
{
    let mut lo: u64 = 0;
    let mut hi: u64 = 4294967296;
    while hi - lo > 1
        invariant
            lo < hi <= 4294967296,
            (lo * lo) as int <= x as int,
            (hi as int) * (hi as int) > x as int,
        decreases hi - lo,
    {
        let mid: u64 = lo + (hi - lo) / 2;
        proof {
            assert((mid as int) * (mid as int) <= 4294967296 * 4294967296) by (nonlinear_arith)
                requires
                    0 <= mid <= 4294967296,
            ;
        }
        let sq: u128 = (mid as u128) * (mid as u128);
        if sq <= x as u128 {
            lo = mid;
        } else {
            hi = mid;
        }
    }
    proof {
        assert(hi == lo + 1);
        lemma_sqrt_floor_unique(x as int, lo as int);
    }
    lo
}

/// The integer square root of a wide value, rounded down.
pub fn isqrt_wide(x: u128) -> (r: u64)
    ensures
        is_sqrt_floor(x as int, r as int),
        r == sqrt_floor(x as int),
{
    let mut lo: u128 = 0;
    let mut hi: u128 = 340282366920938463463374607431768211455;
    proof {
        assert((hi as int) * (hi as int) > x as int) by (nonlinear_arith)
            requires
                hi == 340282366920938463463374607431768211455u128,
                x as int <= 340282366920938463463374607431768211455,
        ;
    }
    while hi - lo > 1
        invariant
            lo < hi <= 340282366920938463463374607431768211455,
            (lo as int) * (lo as int) <= x as int,
            (hi as int) * (hi as int) > x as int,
        decreases hi - lo,
    {
        let mid: u128 = lo + (hi - lo) / 2;
        if mid >= 18446744073709551616 {
            // mid is at least 2^64: its square tops every 128-bit value,
            // so the root lies below it.
            proof {
                assert((mid as int) * (mid as int) > x as int) by (nonlinear_arith)
                    requires
                        mid as int >= 18446744073709551616,
                        (x as int) < 340282366920938463463374607431768211456,
                ;
            }
            hi = mid;
        } else {
            proof {
                assert((mid as int) * (mid as int)
                    < 340282366920938463463374607431768211455) by (nonlinear_arith)
                    requires
                        0 <= (mid as int) < 18446744073709551616,
                ;
            }
            let sq: u128 = mid * mid;
            if sq <= x {
                lo = mid;
            } else {
                hi = mid;
            }
        }
    }
    proof {
        assert(hi == lo + 1);
        assert(lo < 18446744073709551616) by (nonlinear_arith)
            requires
                (lo as int) * (lo as int) <= x as int,
                (x as int) < 340282366920938463463374607431768211456,
                lo >= 0,
                (x as int) < 18446744073709551616 * 18446744073709551616,
        ;
        lemma_sqrt_floor_unique(x as int, lo as int);
    }
    lo as u64
}

/// The squared channel difference of two pixels, summed over channels.
pub open spec fn color_gap_sq(a: Pixel, b: Pixel) -> int {
    let dr = a.red - b.red;
    let dg = a.green - b.green;
    let db = a.blue - b.blue;
    dr * dr + dg * dg + db * db
}

/// The fixed-point Euclidean color distance of two pixels, in thousandths.
pub open spec fn dist_fp(a: Pixel, b: Pixel) -> int {
    sqrt_floor(1000000 * color_gap_sq(a, b))
}

/// The Euclidean RGB distance between two pixels, in thousandths.
pub fn euclidean_distance(pixel_a: &Pixel, pixel_b: &Pixel) -> (r: u64)
    ensures
        r == dist_fp(*pixel_a, *pixel_b),
        r <= MAX_DIST_FP,
{
    let dr: u64 = if pixel_a.red >= pixel_b.red {
        (pixel_a.red - pixel_b.red) as u64
    } else {
        (pixel_b.red - pixel_a.red) as u64
    };
    let dg: u64 = if pixel_a.green >= pixel_b.green {
        (pixel_a.green - pixel_b.green) as u64
    } else {
        (pixel_b.green - pixel_a.green) as u64
    };
    let db: u64 = if pixel_a.blue >= pixel_b.blue {
        (pixel_a.blue - pixel_b.blue) as u64
    } else {
        (pixel_b.blue - pixel_a.blue) as u64
    };
    proof {
        assert(dr * dr + dg * dg + db * db <= 3 * 255 * 255) by (nonlinear_arith)
            requires
                0 <= dr <= 255,
                0 <= dg <= 255,
                0 <= db <= 255,
        ;
    }
    let sq: u64 = dr * dr + dg * dg + db * db;
    let r = isqrt(1000000 * sq);
    proof {
        assert(sq == color_gap_sq(*pixel_a, *pixel_b)) by (nonlinear_arith)
            requires
                dr == if pixel_a.red >= pixel_b.red {
                    pixel_a.red - pixel_b.red
                } else {
                    pixel_b.red - pixel_a.red
                },
                dg == if pixel_a.green >= pixel_b.green {
                    pixel_a.green - pixel_b.green
                } else {
                    pixel_b.green - pixel_a.green
                },
                db == if pixel_a.blue >= pixel_b.blue {
                    pixel_a.blue - pixel_b.blue
                } else {
                    pixel_b.blue - pixel_a.blue
                },
                sq == dr * dr + dg * dg + db * db,
        ;
        assert(r <= MAX_DIST_FP) by (nonlinear_arith)
            requires
                is_sqrt_floor(1000000 * sq as int, r as int),
                sq <= 3 * 255 * 255,
        ;
    }
    r
}

/// The fixed direction-specific neighbor weight table: orthogonal neighbors
/// weigh 1 through 4, diagonal ones 5 through 8, keyed by relative offset.
pub open spec fn neighbor_weight(x_offset: int, y_offset: int) -> int {
    if x_offset == -1 && y_offset == -1 {
        7
    } else if x_offset == 0 && y_offset == -1 {
        3
    } else if x_offset == 1 && y_offset == -1 {
        5
    } else if x_offset == -1 && y_offset == 0 {
        2
    } else if x_offset == 0 && y_offset == 0 {
        0
    } else if x_offset == 1 && y_offset == 0 {
        1
    } else if x_offset == -1 && y_offset == 1 {
        8
    } else if x_offset == 0 && y_offset == 1 {
        4
    } else {
        6
    }
}

/// The weight of the neighbor at the given relative offset.
pub fn get_nearest_neighbor_value(x_offset: i32, y_offset: i32) -> (r: i32)
    requires
        -1 <= x_offset <= 1,
        -1 <= y_offset <= 1,
    ensures
        r == neighbor_weight(x_offset as int, y_offset as int),
{
    match (x_offset, y_offset) {
        (-1, -1) => 7,
        (0, -1) => 3,
        (1, -1) => 5,
        (-1, 0) => 2,
        (0, 0) => 0,
        (1, 0) => 1,
        (-1, 1) => 8,
        (0, 1) => 4,
        _ => 6,
    }
}

} // verus!
