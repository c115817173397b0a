//! Mapping coverage to pixels: each coverage value in `[0, SCALE]` becomes
//! one rounded 8-bit intensity, replicated across all four channels
//! (opaque grayscale-as-RGBA).  This is the only place fractional coverage
//! becomes a discrete byte; container encoding itself is left to the
//! caller.

use crate::engine::Rasterizer;
use crate::fixed::SCALE;
use vstd::arithmetic::div_mod::{
    lemma_div_is_ordered, lemma_div_pos_is_pos, lemma_fundamental_div_mod_converse_div,
};
use vstd::prelude::*;

verus! {

/// `round(cov * 255 / SCALE)` for a coverage value `cov` in `[0, SCALE]`:
/// the 8-bit intensity of a pixel with that fractional coverage.
pub open spec fn coverage_byte(cov: int) -> int {
    (cov * 255 + 32768) / 65536
}

pub proof fn lemma_coverage_byte_range(cov: int)
    requires
        0 <= cov <= SCALE,
    ensures
        0 <= coverage_byte(cov) <= 255,
{
    lemma_div_pos_is_pos(cov * 255 + 32768, 65536);
    assert(cov * 255 + 32768 <= 16744448) by (nonlinear_arith)
        requires
            0 <= cov <= 65536,
    ;
    lemma_div_is_ordered(cov * 255 + 32768, 16744448, 65536);
    assert(16744448int / 65536int == 255int) by (nonlinear_arith);
}

/// The intensity byte for one coverage value.
pub fn coverage_to_byte(cov: i64) -> (b: u8)
    requires
        0 <= cov <= SCALE,
    ensures
        b as int == coverage_byte(cov as int),
{
    proof {
        lemma_coverage_byte_range(cov as int);
    }
    ((cov * 255 + 32768) / 65536) as u8
}

/// The RGBA bytes of the whole raster: four identical channel bytes per
/// pixel, pixels in row-major order.
pub open spec fn rgba_spec(rast: Rasterizer) -> Seq<u8> {
    Seq::new(
        (4 * rast.acc.width * rast.acc.height) as nat,
        |i: int|
            coverage_byte(
                rast.acc.coverage(
                    (i / 4) % (rast.acc.width as int),
                    (i / 4) / (rast.acc.width as int),
                ),
            ) as u8,
    )
}

/// Serializes the engine's coverage into RGBA bytes, one rounded
/// grayscale byte replicated over the four channels of each pixel.
#[verifier::loop_isolation(false)]
pub fn serialize_to_rgba(rast: &Rasterizer) -> (rgba: Vec<u8>)
    requires
        rast.wf(),
        rast.sized,
    ensures
        rgba@ == rgba_spec(*rast),
{
    let w = rast.acc.width;
    let h = rast.acc.height;
    let mut rgba: Vec<u8> = Vec::new();
    let mut y: usize = 0;
    while y < h
        invariant
            y <= h,
            rgba@.len() == 4 * ((y as int) * (w as int)),
            forall|j: int| 0 <= j < rgba@.len() ==> #[trigger] rgba@[j] == rgba_spec(*rast)[j],
        decreases h - y,
    {
        let mut x: usize = 0;
        while x < w
            invariant
                x <= w,
                y < h,
                rgba@.len() == 4 * ((y as int) * (w as int) + (x as int)),
                forall|j: int| 0 <= j < rgba@.len() ==> #[trigger] rgba@[j] == rgba_spec(*rast)[j],
            decreases w - x,
        {
            proof {
                assert((y as int) * (w as int) + (x as int) < (w as int) * (h as int) && 4 * ((
                y as int) * (w as int) + (x as int)) < 0x1000_0000) by (nonlinear_arith)
                    requires
                        0 <= (y as int) < (h as int),
                        (h as int) <= 8192,
                        0 <= (x as int) < (w as int),
                        (w as int) <= 8192,
                ;
            }
            let cov: i64 = rast.coverage_at(x, y);
            let b: u8 = coverage_to_byte(cov);
            let ghost p: int = (y as int) * (w as int) + (x as int);
            let mut k: usize = 0;
            while k < 4
                invariant
                    k <= 4,
                    rgba@.len() == 4 * p + k as int,
                    b as int == coverage_byte(rast.acc.coverage(x as int, y as int)),
                    forall|j: int|
                        0 <= j < 4 * p ==> #[trigger] rgba@[j] == rgba_spec(*rast)[j],
                    forall|j: int| 4 * p <= j < rgba@.len() ==> #[trigger] rgba@[j] == b,
                decreases 4 - k,
            {
                rgba.push(b);
                k = k + 1;
            }
            proof {
                assert forall|j: int| 4 * p <= j < 4 * p + 4 implies #[trigger] rgba@[j]
                    == rgba_spec(*rast)[j] by {
                    lemma_fundamental_div_mod_converse_div(j, 4, p, j - 4 * p);
                    assert(j / 4 == p);
                    lemma_fundamental_div_mod_converse_div(p, w as int, y as int, x as int);
                    vstd::arithmetic::div_mod::lemma_fundamental_div_mod_converse_mod(
                        p,
                        w as int,
                        y as int,
                        x as int,
                    );
                    assert(4 * p + 4 <= 4 * (w as int) * (h as int)) by (nonlinear_arith)
                        requires
                            p == (y as int) * (w as int) + (x as int),
                            0 <= (y as int) < (h as int),
                            0 <= (x as int) < (w as int),
                    ;
                    assert(rgba_spec(*rast).len() == 4 * (w as int) * (h as int));
                }
            }
            x = x + 1;
        }
        proof {
            assert(4 * ((y as int + 1) * (w as int)) == 4 * ((y as int) * (w as int)) + 4 * (
            w as int)) by (nonlinear_arith);
        }
        y = y + 1;
    }
    proof {
        assert(4 * ((h as int) * (w as int)) == 4 * (w as int) * (h as int)) by (nonlinear_arith);
        assert(rgba@ =~= rgba_spec(*rast));
    }
    rgba
}

} // verus!
