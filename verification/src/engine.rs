//! The rasterizer engine: owns one coverage accumulator, sequences draw
//! operations against it, and exposes the normalized per-pixel coverage.
//!
//! State machine: `Uninitialized -> Sized` via `resize`, then any number of
//! `draw_line`/`draw_quad` calls; coverage reads are valid only in `Sized`.
//! A second `resize` discards all prior drawing and yields a fresh `Sized`
//! state.  Draws before the first `resize` are rejected; on well-formed
//! draw calls the engine itself never fails.

use crate::accum::{line_deposit, CoverageAccumulator};
use crate::fixed::{sat_add, MAX_DIM, SCALE};
use crate::flatten::{flatten_quad, flatten_spec, DEFAULT_TOLERANCE, MAX_SPLIT_DEPTH};
use crate::geom::{Point, Segment};
use vstd::arithmetic::div_mod::{
    lemma_fundamental_div_mod_converse_div, lemma_fundamental_div_mod_converse_mod,
};
use vstd::prelude::*;

verus! {

/// Rejection of an operation that the engine's state machine does not
/// allow: a draw issued before any `resize`.
#[derive(Clone, Copy, PartialEq, Eq, Structural, Debug)]
pub enum RasterError {
    DrawBeforeResize,
}

/// Value of cell `(r, c)` after the deposits of a chain of segments have
/// been accumulated, in order, on top of `v0`.
pub open spec fn deposit_chain(width: int, segs: Seq<Segment>, r: int, c: int, v0: int) -> int
    decreases segs.len(),
{
    if segs.len() == 0 {
        v0
    } else {
        sat_add(
            deposit_chain(width, segs.drop_last(), r, c, v0),
            line_deposit(width, segs.last().a, segs.last().b, r, c),
        )
    }
}

pub struct Rasterizer {
    pub sized: bool,
    pub acc: CoverageAccumulator,
}

impl Rasterizer {
    pub open spec fn wf(self) -> bool {
        self.acc.wf()
    }

    pub open spec fn width_spec(self) -> int {
        self.acc.width as int
    }

    pub open spec fn height_spec(self) -> int {
        self.acc.height as int
    }

    /// Row-major traversal of the whole buffer: for every cell, in order,
    /// the pair of its flat index and its clamped coverage.
    pub open spec fn coverage_pairs_spec(self) -> Seq<(usize, i64)> {
        Seq::new(
            (self.acc.width * self.acc.height) as nat,
            |i: int|
                (
                    i as usize,
                    self.acc.coverage(
                        i % (self.acc.width as int),
                        i / (self.acc.width as int),
                    ) as i64,
                ),
        )
    }

    /// A fresh engine; no operation except `resize` is valid yet.
    pub fn new() -> (rast: Rasterizer)
        ensures
            rast.wf(),
            !rast.sized,
            rast.width_spec() == 0,
            rast.height_spec() == 0,
    {
        Rasterizer { sized: false, acc: CoverageAccumulator::new(0, 0) }
    }

    /// Reallocates and fully clears the accumulator to `width x height`
    /// cells: afterwards every cell is zero, whatever was drawn before.
    /// `0 x 0` is a valid empty state.
    pub fn resize(&mut self, width: usize, height: usize)
        requires
            width <= MAX_DIM,
            height <= MAX_DIM,
        ensures
            final(self).wf(),
            final(self).sized,
            final(self).acc.width == width,
            final(self).acc.height == height,
            forall|i: int|
                0 <= i < final(self).acc.cells@.len() ==> final(self).acc.cells@[i] == 0i64,
    {
        self.acc.resize(width, height);
        self.sized = true;
    }

    /// The last dimensions passed to `resize` (zero by zero before any).
    pub fn dimensions(&self) -> (dims: (usize, usize))
        ensures
            dims.0 as int == self.width_spec(),
            dims.1 as int == self.height_spec(),
    {
        (self.acc.width, self.acc.height)
    }

    /// Rasterizes one directed line segment into the accumulator: every
    /// cell moves by exactly its `line_deposit`; a horizontal segment
    /// changes nothing.  Rejected (and the state left untouched) if no
    /// `resize` has happened yet.
    pub fn draw_line(&mut self, a: Point, b: Point) -> (res: Result<(), RasterError>)
        requires
            old(self).wf(),
            a.wf(),
            b.wf(),
        ensures
            final(self).wf(),
            final(self).sized == old(self).sized,
            final(self).width_spec() == old(self).width_spec(),
            final(self).height_spec() == old(self).height_spec(),
            !old(self).sized ==> res == Result::<(), RasterError>::Err(
                RasterError::DrawBeforeResize,
            ) && *final(self) == *old(self),
            old(self).sized ==> res == Result::<(), RasterError>::Ok(()) && forall|r: int, c: int|
                0 <= r < old(self).height_spec() && 0 <= c <= old(self).width_spec()
                    ==> #[trigger] final(self).acc.cell(r, c) == sat_add(
                    old(self).acc.cell(r, c),
                    line_deposit(old(self).width_spec(), a, b, r, c),
                ),
            old(self).sized && a.y == b.y ==> final(self).acc.cells@ == old(self).acc.cells@,
    {
        if !self.sized {
            return Err(RasterError::DrawBeforeResize);
        }
        self.acc.accumulate_line(a, b);
        Ok(())
    }

    /// Flattens one quadratic curve at the engine's default tolerance and
    /// rasterizes the resulting chain of chords in traversal order: every
    /// cell ends at the `deposit_chain` of the curve's flattening.
    /// Rejected (and the state left untouched) if no `resize` has
    /// happened yet.
    pub fn draw_quad(&mut self, a: Point, b: Point, c: Point) -> (res: Result<(), RasterError>)
        requires
            old(self).wf(),
            a.wf(),
            b.wf(),
            c.wf(),
        ensures
            final(self).wf(),
            final(self).sized == old(self).sized,
            final(self).width_spec() == old(self).width_spec(),
            final(self).height_spec() == old(self).height_spec(),
            !old(self).sized ==> res == Result::<(), RasterError>::Err(
                RasterError::DrawBeforeResize,
            ) && *final(self) == *old(self),
            old(self).sized ==> res == Result::<(), RasterError>::Ok(()) && forall|r: int, cc: int|
                0 <= r < old(self).height_spec() && 0 <= cc <= old(self).width_spec()
                    ==> #[trigger] final(self).acc.cell(r, cc) == deposit_chain(
                    old(self).width_spec(),
                    flatten_spec(a, b, c, DEFAULT_TOLERANCE as int, MAX_SPLIT_DEPTH as nat),
                    r,
                    cc,
                    old(self).acc.cell(r, cc),
                ),
    {
        if !self.sized {
            return Err(RasterError::DrawBeforeResize);
        }
        let segs: Vec<Segment> = flatten_quad(a, b, c, DEFAULT_TOLERANCE);
        let ghost whole = segs@;
        let ghost width = self.width_spec();
        let ghost height = self.height_spec();
        let ghost start = *self;
        let mut i: usize = 0;
        while i < segs.len()
            invariant
                i <= segs.len(),
                segs@ == whole,
                whole == flatten_spec(a, b, c, DEFAULT_TOLERANCE as int, MAX_SPLIT_DEPTH as nat),
                forall|k: int| 0 <= k < whole.len() ==> (#[trigger] whole[k]).wf(),
                self.wf(),
                self.sized,
                self.width_spec() == width,
                self.height_spec() == height,
                start.acc.cells@.len() == self.acc.cells@.len(),
                forall|r: int, cc: int|
                    0 <= r < height && 0 <= cc <= width ==> #[trigger] self.acc.cell(r, cc)
                        == deposit_chain(
                        width,
                        whole.subrange(0, i as int),
                        r,
                        cc,
                        start.acc.cell(r, cc),
                    ),
            decreases segs.len() - i,
        {
            let seg: Segment = segs[i];
            let ghost before = *self;
            self.acc.accumulate_line(seg.a, seg.b);
            proof {
                assert forall|r: int, cc: int|
                    0 <= r < height && 0 <= cc <= width implies #[trigger] self.acc.cell(r, cc)
                    == deposit_chain(
                    width,
                    whole.subrange(0, i as int + 1),
                    r,
                    cc,
                    start.acc.cell(r, cc),
                ) by {
                    assert(whole.subrange(0, i as int + 1).drop_last() =~= whole.subrange(
                        0,
                        i as int,
                    ));
                    assert(whole.subrange(0, i as int + 1).last() == whole[i as int]);
                    assert(before.acc.cell(r, cc) == deposit_chain(
                        width,
                        whole.subrange(0, i as int),
                        r,
                        cc,
                        start.acc.cell(r, cc),
                    ));
                }
            }
            i = i + 1;
        }
        proof {
            assert(whole.subrange(0, whole.len() as int) =~= whole);
        }
        Ok(())
    }

    /// Clamped prefix-sum coverage of cell `(x, y)`, in `[0, SCALE]`.
    /// Valid only on a sized engine and inside the raster.
    pub fn coverage_at(&self, x: usize, y: usize) -> (cov: i64)
        requires
            self.wf(),
            self.sized,
            x < self.acc.width,
            y < self.acc.height,
        ensures
            cov as int == self.acc.coverage(x as int, y as int),
            0 <= cov <= SCALE,
    {
        self.acc.coverage_at(x, y)
    }

    /// Full-buffer coverage traversal: yields, for every cell in row-major
    /// order, the pair `(flat index, coverage)`.  Read-only: it takes the
    /// engine by shared reference and its result is a pure function of the
    /// engine state.
    #[verifier::loop_isolation(false)]
    pub fn coverage_pairs(&self) -> (pairs: Vec<(usize, i64)>)
        requires
            self.wf(),
            self.sized,
        ensures
            pairs@ == self.coverage_pairs_spec(),
    {
        let w = self.acc.width;
        let h = self.acc.height;
        let mut pairs: Vec<(usize, i64)> = Vec::new();
        let mut y: usize = 0;
        while y < h
            invariant
                y <= h,
                pairs@.len() == y as int * w as int,
                forall|j: int|
                    0 <= j < pairs@.len() ==> #[trigger] pairs@[j]
                        == self.coverage_pairs_spec()[j],
            decreases h - y,
        {
            let mut x: usize = 0;
            while x < w
                invariant
                    x <= w,
                    y < h,
                    pairs@.len() == y as int * w as int + x as int,
                    forall|j: int|
                        0 <= j < pairs@.len() ==> #[trigger] pairs@[j]
                            == self.coverage_pairs_spec()[j],
                decreases w - x,
            {
                proof {
                    assert((y as int) * (w as int) + (x as int) < (w as int) * (h as int) && (
                    y as int) * (w as int) + (x as int) < 0x400_0000) by (nonlinear_arith)
                        requires
                            0 <= (y as int) < (h as int),
                            (h as int) <= 8192,
                            0 <= (x as int) < (w as int),
                            (w as int) <= 8192,
                    ;
                }
                let idx: usize = y * w + x;
                let cov: i64 = self.acc.coverage_at(x, y);
                pairs.push((idx, cov));
                proof {
                    lemma_fundamental_div_mod_converse_div(
                        idx as int,
                        w as int,
                        y as int,
                        x as int,
                    );
                    lemma_fundamental_div_mod_converse_mod(
                        idx as int,
                        w as int,
                        y as int,
                        x as int,
                    );
                    assert(pairs@[idx as int] == self.coverage_pairs_spec()[idx as int]);
                }
                x = x + 1;
            }
            proof {
                assert((y as int + 1) * (w as int) == y as int * w as int + w as int)
                    by (nonlinear_arith);
            }
            y = y + 1;
        }
        proof {
            assert((h as int) * (w as int) == (w as int) * (h as int)) by (nonlinear_arith);
            assert(pairs@ =~= self.coverage_pairs_spec());
        }
        pairs
    }
}

/// Law: the coverage traversal is idempotent.  Its result is a pure
/// function of the engine state, so reading it twice after the same
/// sequence of draws yields identical results both times.
pub proof fn lemma_coverage_read_idempotent(
    rast: Rasterizer,
    r1: Seq<(usize, i64)>,
    r2: Seq<(usize, i64)>,
)
    requires
        r1 == rast.coverage_pairs_spec(),
        r2 == rast.coverage_pairs_spec(),
    ensures
        r1 == r2,
{
}

} // verus!
