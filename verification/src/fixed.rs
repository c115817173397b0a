//! 16.16 fixed-point scalars and the small arithmetic helpers the
//! rasterizer is built on.

use vstd::arithmetic::div_mod::{lemma_fundamental_div_mod, lemma_fundamental_div_mod_converse_div};
use vstd::prelude::*;

verus! {

/// Number of fixed-point units in one pixel: coordinates are 16.16.
pub const SCALE: i64 = 65536;

/// Largest coordinate magnitude the engine accepts: 32768 pixels, in
/// fixed-point units.  Keeping coordinates in this range keeps every
/// intermediate product of the area computation inside `i64`/`i128`.
pub const COORD_LIMIT: i64 = 0x8000_0000;

/// Largest accepted raster width or height, in pixels.
pub const MAX_DIM: usize = 8192;

/// `a + d` clamped to the `i64` range.
pub open spec fn sat_add(a: int, d: int) -> int {
    if a + d > i64::MAX as int {
        i64::MAX as int
    } else if a + d < i64::MIN as int {
        i64::MIN as int
    } else {
        a + d
    }
}

/// `i64` addition that clamps at the type's bounds instead of overflowing.
pub fn sat_add_i64(a: i64, d: i64) -> (r: i64)
    ensures
        r as int == sat_add(a as int, d as int),
{
    let s: i128 = a as i128 + d as i128;
    if s > i64::MAX as i128 {
        i64::MAX
    } else if s < i64::MIN as i128 {
        i64::MIN
    } else {
        s as i64
    }
}

/// Floor division, which for a positive divisor agrees with mathematical
/// (Euclidean) division on `int`.
pub fn floor_div_i128(a: i128, b: i128) -> (r: i128)
    requires
        0 < b,
        i128::MIN < a,
    ensures
        r == a as int / b as int,
{
    if a >= 0 {
        a / b
    } else {
        let na: i128 = -a;
        let q: i128 = na / b;
        let rem: i128 = na % b;
        proof {
            lemma_fundamental_div_mod(na as int, b as int);
            if rem != 0 {
                assert(a as int == (-(q as int) - 1) * (b as int) + (b as int - rem as int))
                    by (nonlinear_arith)
                    requires
                        na as int == (b as int) * (na as int / b as int) + (na as int % b as int),
                        q as int == na as int / b as int,
                        rem as int == na as int % b as int,
                        a as int == -(na as int),
                ;
                lemma_fundamental_div_mod_converse_div(
                    a as int,
                    b as int,
                    -(q as int) - 1,
                    b as int - rem as int,
                );
            } else {
                assert(a as int == (-(q as int)) * (b as int) + 0) by (nonlinear_arith)
                    requires
                        na as int == (b as int) * (na as int / b as int) + (na as int % b as int),
                        q as int == na as int / b as int,
                        0 == na as int % b as int,
                        a as int == -(na as int),
                ;
                lemma_fundamental_div_mod_converse_div(a as int, b as int, -(q as int), 0);
            }
        }
        if rem == 0 {
            -q
        } else {
            -q - 1
        }
    }
}

} // verus!
