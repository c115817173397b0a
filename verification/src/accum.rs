//! The coverage accumulator: a grid of signed fixed-point area cells, one
//! row per scanline, with one overflow cell per row.  A directed line
//! segment deposits exact signed trapezoidal area deltas into the cells it
//! crosses; the clamped left-to-right prefix sum of a row is the fractional
//! coverage of each pixel.
//!
//! The deposit of a segment into a cell is specified *exactly*: for each
//! scanline the segment is clipped to the row, the clipped piece's area left
//! of each column boundary is a closed-form ramp integral, and the cell
//! delta is the difference of two such boundary areas.  Horizontal extent
//! left of column 0 folds into column 0; extent right of the last column
//! folds into the overflow cell, so no write ever leaves the row.

use crate::fixed::{floor_div_i128, sat_add, sat_add_i64, COORD_LIMIT, MAX_DIM, SCALE};
use crate::geom::Point;
use vstd::arithmetic::div_mod::{
    lemma_div_is_ordered, lemma_div_pos_is_pos, lemma_fundamental_div_mod,
    lemma_fundamental_div_mod_converse_div,
};
use vstd::prelude::*;

verus! {

/// `v` clamped to `[lo, hi]`.
pub open spec fn clamp_int(v: int, lo: int, hi: int) -> int {
    if v < lo {
        lo
    } else if v > hi {
        hi
    } else {
        v
    }
}

pub open spec fn min_int(a: int, b: int) -> int {
    if a <= b {
        a
    } else {
        b
    }
}

pub open spec fn max_int(a: int, b: int) -> int {
    if a >= b {
        a
    } else {
        b
    }
}

/// Area under the unit ramp `u |-> clamp(u, 0, SCALE)` from 0 to `t`,
/// normalized so that the result is in fixed-point units: 0 for `t <= 0`,
/// quadratic for `0 <= t <= SCALE`, then linear with unit slope.  This is
/// the area of a triangle/trapezoid cut off by a column boundary.
pub open spec fn ramp_area(t: int) -> int {
    if t <= 0 {
        0
    } else if t <= SCALE {
        (t * t) / (2 * SCALE)
    } else {
        t - SCALE / 2
    }
}

/// Of the area swept by a row piece with vertical extent `dy` and
/// horizontal extent `[x0, x1]`, the part that lies left of the column
/// boundary at `c` pixels (a value in `[0, dy]`).
pub open spec fn boundary_area(x0: int, x1: int, dy: int, c: int) -> int {
    let u = c * SCALE - x0;
    let v = c * SCALE - x1;
    if x1 == x0 {
        dy * clamp_int(u, 0, SCALE as int) / (SCALE as int)
    } else {
        dy * (ramp_area(u) - ramp_area(v)) / (x1 - x0)
    }
}

/// First column that receives part of a row piece with horizontal extent
/// starting at `x0`; extent left of column 0 folds into column 0.
pub open spec fn col_lo(width: int, x0: int) -> int {
    min_int(width, max_int(0, x0 / (SCALE as int)))
}

/// Last column that receives part of the piece; extent right of the last
/// column folds into the overflow column `width`.
pub open spec fn col_hi(width: int, x0: int, x1: int) -> int {
    min_int(width, max_int(col_lo(width, x0), (x1 + SCALE - 1) / (SCALE as int)))
}

/// Cumulative area of the row piece deposited strictly left of the column
/// boundary at `c`, after folding the out-of-range extent into the first
/// and last columns of the piece's clamped range.
pub open spec fn area_before(width: int, x0: int, x1: int, dy: int, c: int) -> int {
    if c <= col_lo(width, x0) {
        0
    } else if c > col_hi(width, x0, x1) {
        dy
    } else {
        boundary_area(x0, x1, dy, c)
    }
}

/// The x position, by linear interpolation, where the segment `p -> q`
/// (with `p.y < q.y`) crosses the horizontal line at `y`.
pub open spec fn x_at(p: Point, q: Point, y: int) -> int {
    p.x + (q.x - p.x) * (y - p.y) / (q.y - p.y)
}

/// Signed delta deposited in row `r`, column `c` by the segment `p -> q`
/// with `p.y < q.y`, where `sign` is +1 if the original direction was
/// downward and -1 if upward.  Rows the segment does not cross get 0.
pub open spec fn row_deposit(width: int, p: Point, q: Point, sign: int, r: int, c: int) -> int {
    let ya = max_int(p.y as int, r * SCALE);
    let yb = min_int(q.y as int, (r + 1) * SCALE);
    if yb <= ya {
        0
    } else {
        let xa = x_at(p, q, ya);
        let xb = x_at(p, q, yb);
        let x0 = min_int(xa, xb);
        let x1 = max_int(xa, xb);
        let dy = yb - ya;
        sign * (area_before(width, x0, x1, dy, c + 1) - area_before(width, x0, x1, dy, c))
    }
}

/// Signed area delta that the directed segment `a -> b` deposits into the
/// accumulator cell at row `r`, column `c`: +1 weighting when the segment
/// moves downward in y, -1 when upward, 0 everywhere for horizontal
/// segments.
pub open spec fn line_deposit(width: int, a: Point, b: Point, r: int, c: int) -> int {
    if a.y == b.y {
        0
    } else if a.y < b.y {
        row_deposit(width, a, b, 1, r, c)
    } else {
        row_deposit(width, b, a, -1, r, c)
    }
}

/// Monotonicity and 1-Lipschitz continuity of the ramp integral: for
/// `t1 <= t2`, `0 <= ramp_area(t2) - ramp_area(t1) <= t2 - t1`.
pub proof fn lemma_ramp_area_props(t1: int, t2: int)
    requires
        t1 <= t2,
    ensures
        ramp_area(t1) <= ramp_area(t2),
        ramp_area(t2) - ramp_area(t1) <= t2 - t1,
{
    let s: int = SCALE as int;
    if t2 <= 0 {
    } else if t1 <= 0 {
        // ramp_area(t1) == 0; show 0 <= ramp_area(t2) <= t2
        lemma_ramp_area_range(t2);
    } else if t2 <= s {
        // both quadratic
        assert(t1 * t1 <= t2 * t2) by (nonlinear_arith)
            requires
                0 < t1 <= t2,
        ;
        lemma_div_is_ordered(t1 * t1, t2 * t2, 2 * s);
        // t2^2 <= t1^2 + (t2 - t1) * 2s
        assert(t2 * t2 <= t1 * t1 + (t2 - t1) * (2 * s)) by (nonlinear_arith)
            requires
                0 < t1 <= t2 <= s,
        ;
        lemma_div_shift_multiple(t1 * t1, t2 - t1, 2 * s);
        lemma_div_is_ordered(t2 * t2, t1 * t1 + (t2 - t1) * (2 * s), 2 * s);
    } else if t1 <= s {
        // t1 quadratic, t2 linear
        assert(t1 * t1 <= s * s) by (nonlinear_arith)
            requires
                0 < t1 <= s,
        ;
        lemma_div_is_ordered(t1 * t1, s * s, 2 * s);
        assert(s * s / (2 * s) == s / 2) by (nonlinear_arith)
            requires
                s == 65536,
        ;
        // lower bound: t1^2 >= 2s * (t1 - s/2), exactly divisible
        assert(t1 * t1 >= (t1 - s / 2) * (2 * s)) by (nonlinear_arith)
            requires
                0 < t1 <= s,
                s == 65536,
        ;
        lemma_div_exact_multiple(t1 - s / 2, 2 * s);
        lemma_div_is_ordered((t1 - s / 2) * (2 * s), t1 * t1, 2 * s);
    } else {
        // both linear
    }
}

/// `0 <= ramp_area(t) <= max(t, 0)`.
pub proof fn lemma_ramp_area_range(t: int)
    ensures
        0 <= ramp_area(t) <= max_int(t, 0),
{
    let s: int = SCALE as int;
    if t <= 0 {
    } else if t <= s {
        assert(0 <= t * t) by (nonlinear_arith)
            requires
                0 < t,
        ;
        lemma_div_pos_is_pos(t * t, 2 * s);
        assert(t * t <= t * (2 * s)) by (nonlinear_arith)
            requires
                0 < t <= s,
        ;
        lemma_div_exact_multiple(t, 2 * s);
        lemma_div_is_ordered(t * t, t * (2 * s), 2 * s);
    } else {
    }
}

/// `(k * d) / d == k` for `d > 0`.
proof fn lemma_div_exact_multiple(k: int, d: int)
    requires
        0 < d,
    ensures
        (k * d) / d == k,
{
    lemma_fundamental_div_mod_converse_div(k * d, d, k, 0);
}

/// `(x + k * d) / d == x / d + k` for `d > 0`.
proof fn lemma_div_shift_multiple(x: int, k: int, d: int)
    requires
        0 < d,
    ensures
        (x + k * d) / d == x / d + k,
{
    lemma_fundamental_div_mod(x, d);
    assert(x + k * d == (x / d + k) * d + x % d) by (nonlinear_arith)
        requires
            x == d * (x / d) + x % d,
    ;
    lemma_fundamental_div_mod_converse_div(x + k * d, d, x / d + k, x % d);
}

/// For `0 <= f <= den` and `0 <= dy`: `0 <= dy * f / den <= dy`.
proof fn lemma_scaled_fraction_bounds(dy: int, f: int, den: int)
    requires
        0 < den,
        0 <= f <= den,
        0 <= dy,
    ensures
        0 <= dy * f / den <= dy,
{
    assert(0 <= dy * f) by (nonlinear_arith)
        requires
            0 <= dy,
            0 <= f,
    ;
    lemma_div_pos_is_pos(dy * f, den);
    assert(dy * f <= dy * den) by (nonlinear_arith)
        requires
            0 <= dy,
            f <= den,
    ;
    lemma_div_exact_multiple(dy, den);
    lemma_div_is_ordered(dy * f, dy * den, den);
}

/// `boundary_area` stays within `[0, dy]`.
pub proof fn lemma_boundary_area_range(x0: int, x1: int, dy: int, c: int)
    requires
        x0 <= x1,
        0 <= dy,
    ensures
        0 <= boundary_area(x0, x1, dy, c) <= dy,
{
    let u = c * SCALE - x0;
    let v = c * SCALE - x1;
    if x1 == x0 {
        lemma_scaled_fraction_bounds(dy, clamp_int(u, 0, SCALE as int), SCALE as int);
    } else {
        lemma_ramp_area_props(v, u);
        lemma_scaled_fraction_bounds(dy, ramp_area(u) - ramp_area(v), x1 - x0);
    }
}

/// Quotient bounds for the interpolation step: for `0 <= t <= den`,
/// `dx * t / den` lies between 0 and `dx`.
proof fn lemma_interp_quotient_bounds(dx: int, t: int, den: int)
    requires
        0 < den,
        0 <= t <= den,
    ensures
        min_int(0, dx) <= dx * t / den <= max_int(0, dx),
{
    if dx >= 0 {
        lemma_scaled_fraction_bounds(dx, t, den);
    } else {
        assert(dx * den <= dx * t <= 0) by (nonlinear_arith)
            requires
                dx < 0,
                0 <= t <= den,
        ;
        lemma_div_exact_multiple(dx, den);
        lemma_div_is_ordered(dx * den, dx * t, den);
        lemma_div_is_ordered(dx * t, 0, den);
    }
}

/// Two (row, column) pairs with columns inside the stride address the same
/// cell only if they are the same pair.
proof fn lemma_cell_index_inj(stride: int, r1: int, c1: int, r2: int, c2: int)
    requires
        0 < stride,
        0 <= c1 < stride,
        0 <= c2 < stride,
        r1 * stride + c1 == r2 * stride + c2,
    ensures
        r1 == r2,
        c1 == c2,
{
    lemma_fundamental_div_mod_converse_div(r1 * stride + c1, stride, r1, c1);
    lemma_fundamental_div_mod_converse_div(r2 * stride + c2, stride, r2, c2);
}

fn imin(a: i64, b: i64) -> (r: i64)
    ensures
        r as int == min_int(a as int, b as int),
{
    if a <= b {
        a
    } else {
        b
    }
}

fn imax(a: i64, b: i64) -> (r: i64)
    ensures
        r as int == max_int(a as int, b as int),
{
    if a >= b {
        a
    } else {
        b
    }
}

/// Where the segment `p -> q` crosses the horizontal line at `y`.
fn x_at_exec(p: Point, q: Point, y: i64) -> (r: i64)
    requires
        p.wf(),
        q.wf(),
        p.y < q.y,
        p.y <= y <= q.y,
    ensures
        r as int == x_at(p, q, y as int),
        min_int(p.x as int, q.x as int) <= r as int <= max_int(p.x as int, q.x as int),
{
    proof {
        assert((q.x as int - p.x as int) * (y as int - p.y as int) <= 0x1_0000_0000_0000_0000
            && (q.x as int - p.x as int) * (y as int - p.y as int) >= -0x1_0000_0000_0000_0000)
            by (nonlinear_arith)
            requires
                -0x1_0000_0000 <= q.x as int - p.x as int <= 0x1_0000_0000,
                0 <= y as int - p.y as int <= 0x1_0000_0000,
        ;
    }
    let num: i128 = (q.x as i128 - p.x as i128) * ((y as i128) - (p.y as i128));
    let den: i128 = (q.y as i128) - (p.y as i128);
    let v: i128 = floor_div_i128(num, den);
    proof {
        lemma_interp_quotient_bounds(q.x as int - p.x as int, y as int - p.y as int, den as int);
    }
    p.x + (v as i64)
}

/// The ramp integral, executably.
fn ramp_area_exec(t: i64) -> (r: i64)
    requires
        -0x4_0000_0000 <= t <= 0x4_0000_0000,
    ensures
        r as int == ramp_area(t as int),
        0 <= r as int <= max_int(t as int, 0),
{
    proof {
        lemma_ramp_area_range(t as int);
    }
    if t <= 0 {
        0
    } else if t <= SCALE {
        proof {
            assert(0 <= t as int * t as int <= 0x1_0000_0000) by (nonlinear_arith)
                requires
                    0 < t as int <= 65536,
            ;
        }
        (t * t) / (2 * SCALE)
    } else {
        t - SCALE / 2
    }
}

/// The boundary-area formula, executably.
fn boundary_area_exec(x0: i64, x1: i64, dy: i64, c: usize) -> (r: i64)
    requires
        -COORD_LIMIT <= x0 <= x1 <= COORD_LIMIT,
        0 < dy <= SCALE,
        c <= MAX_DIM + 1,
    ensures
        r as int == boundary_area(x0 as int, x1 as int, dy as int, c as int),
        0 <= r <= dy,
{
    proof {
        lemma_boundary_area_range(x0 as int, x1 as int, dy as int, c as int);
    }
    let cs: i64 = (c as i64) * SCALE;
    if x1 == x0 {
        let u: i64 = cs - x0;
        let cl: i64 = if u < 0 {
            0
        } else if u > SCALE {
            SCALE
        } else {
            u
        };
        dy * cl / SCALE
    } else {
        let rau: i64 = ramp_area_exec(cs - x0);
        let rav: i64 = ramp_area_exec(cs - x1);
        proof {
            lemma_ramp_area_props(cs as int - x1 as int, cs as int - x0 as int);
            assert(0 <= dy as int * (rau as int - rav as int) <= 0x2_0000_0000_0000)
                by (nonlinear_arith)
                requires
                    0 < dy as int <= 65536,
                    0 <= rau as int - rav as int <= 0x2_0000_0000,
        ;
        }
        dy * (rau - rav) / (x1 - x0)
    }
}

/// Law: a perfectly horizontal segment contributes nothing; the deposit of
/// such a segment is zero in every cell, so no draw of it can ever change
/// any coverage value.
pub proof fn lemma_horizontal_line_deposits_nothing(
    width: int,
    a: Point,
    b: Point,
    r: int,
    c: int,
)
    requires
        a.y == b.y,
    ensures
        line_deposit(width, a, b, r, c) == 0,
{
}

/// Law: reversing a segment's direction negates its deposit in every
/// cell.  Drawing a segment and then the same segment reversed therefore
/// leaves the accumulator's net content unchanged: only geometry that
/// closes around an area produces coverage.
pub proof fn lemma_reverse_line_negates_deposit(width: int, a: Point, b: Point, r: int, c: int)
    ensures
        line_deposit(width, b, a, r, c) == -line_deposit(width, a, b, r, c),
{
}

/// A rectangular grid of signed area cells sized to the raster target:
/// `height` rows of `width + 1` cells, the last cell of each row being the
/// overflow cell that absorbs geometry projecting past the right edge.
pub struct CoverageAccumulator {
    pub width: usize,
    pub height: usize,
    pub cells: Vec<i64>,
}

impl CoverageAccumulator {
    /// Cells per row: the raster width plus the overflow cell.
    pub open spec fn stride(self) -> int {
        self.width as int + 1
    }

    pub open spec fn wf(self) -> bool {
        &&& self.width <= MAX_DIM
        &&& self.height <= MAX_DIM
        &&& self.cells@.len() == self.stride() * self.height as int
    }

    /// The signed area delta stored for row `r`, column `c` (column
    /// `width` is the row's overflow cell).
    pub open spec fn cell(self, r: int, c: int) -> int {
        self.cells@[r * self.stride() + c] as int
    }

    /// A freshly zeroed accumulator of the given dimensions.
    pub fn new(width: usize, height: usize) -> (acc: CoverageAccumulator)
        requires
            width <= MAX_DIM,
            height <= MAX_DIM,
        ensures
            acc.wf(),
            acc.width == width,
            acc.height == height,
            forall|i: int| 0 <= i < acc.cells@.len() ==> acc.cells@[i] == 0i64,
    {
        proof {
            assert((width as int + 1) * (height as int) <= 0x800_4000) by (nonlinear_arith)
                requires
                    width <= 8192,
                    height <= 8192,
            ;
        }
        let n: usize = (width + 1) * height;
        let mut cells: Vec<i64> = Vec::new();
        while cells.len() < n
            invariant
                cells.len() <= n,
                forall|i: int| 0 <= i < cells@.len() ==> cells@[i] == 0i64,
            decreases n - cells.len(),
        {
            cells.push(0);
        }
        CoverageAccumulator { width, height, cells }
    }

    /// Discards all prior content and reallocates to the new dimensions;
    /// every cell of the result is zero no matter what was drawn before.
    pub fn resize(&mut self, width: usize, height: usize)
        requires
            width <= MAX_DIM,
            height <= MAX_DIM,
        ensures
            final(self).wf(),
            final(self).width == width,
            final(self).height == height,
            forall|i: int| 0 <= i < final(self).cells@.len() ==> final(self).cells@[i] == 0i64,
    {
        *self = Self::new(width, height);
    }

    /// Deposits the exact signed trapezoidal area contributions of the
    /// directed segment `a -> b` into the buffer, row by row, clipped to
    /// the valid rows and folded into the valid columns.  Every cell moves
    /// by exactly `line_deposit` (saturating only at the `i64` range); a
    /// horizontal segment contributes nothing at all.
    #[verifier::loop_isolation(false)]
    #[verifier::rlimit(60)]
    pub fn accumulate_line(&mut self, a: Point, b: Point)
        requires
            old(self).wf(),
            a.wf(),
            b.wf(),
        ensures
            final(self).wf(),
            final(self).width == old(self).width,
            final(self).height == old(self).height,
            forall|r: int, c: int|
                0 <= r < old(self).height as int && 0 <= c <= old(self).width as int
                    ==> #[trigger] final(self).cell(r, c) == sat_add(
                    old(self).cell(r, c),
                    line_deposit(old(self).width as int, a, b, r, c),
                ),
            a.y == b.y ==> final(self).cells@ == old(self).cells@,
    {
        if a.y == b.y {
            return ;
        }
        let downward: bool = a.y < b.y;
        let (p, q): (Point, Point) = if downward {
            (a, b)
        } else {
            (b, a)
        };
        let ghost sign: int = if downward {
            1
        } else {
            -1
        };
        let width = self.width;
        let height = self.height;
        let stride = width + 1;
        let mut r: usize = 0;
        while r < height
            invariant
                r <= height,
                self.width == width,
                self.height == height,
                self.wf(),
                forall|rr: int, cc: int|
                    0 <= rr < r as int && 0 <= cc <= width as int
                        ==> #[trigger] self.cell(rr, cc) == sat_add(
                        old(self).cell(rr, cc),
                        line_deposit(width as int, a, b, rr, cc),
                    ),
                forall|rr: int, cc: int|
                    r as int <= rr < height as int && 0 <= cc <= width as int
                        ==> #[trigger] self.cell(rr, cc) == old(self).cell(rr, cc),
            decreases height - r,
        {
            let r_s: i64 = (r as i64) * SCALE;
            let ya: i64 = imax(p.y, r_s);
            let yb: i64 = imin(q.y, r_s + SCALE);
            if yb > ya {
                let xa: i64 = x_at_exec(p, q, ya);
                let xb: i64 = x_at_exec(p, q, yb);
                let x0: i64 = imin(xa, xb);
                let x1: i64 = imax(xa, xb);
                let dy: i64 = yb - ya;
                let lo_raw: i128 = floor_div_i128(x0 as i128, SCALE as i128);
                let lo: usize = if lo_raw < 0 {
                    0
                } else if lo_raw > width as i128 {
                    width
                } else {
                    lo_raw as usize
                };
                let hi_raw: i128 = floor_div_i128(x1 as i128 + (SCALE - 1) as i128, SCALE as i128);
                let hi: usize = if hi_raw < lo as i128 {
                    lo
                } else if hi_raw > width as i128 {
                    width
                } else {
                    hi_raw as usize
                };
                assert(lo as int == col_lo(width as int, x0 as int));
                assert(hi as int == col_hi(width as int, x0 as int, x1 as int));
                let mut c: usize = lo;
                let mut prev: i64 = 0;
                while c <= hi
                    invariant
                        lo <= c <= hi + 1,
                        0 <= prev <= dy,
                        prev as int == area_before(
                            width as int,
                            x0 as int,
                            x1 as int,
                            dy as int,
                            c as int,
                        ),
                        self.width == width,
                        self.height == height,
                        self.wf(),
                        forall|rr: int, cc: int|
                            0 <= rr < r as int && 0 <= cc <= width as int
                                ==> #[trigger] self.cell(rr, cc) == sat_add(
                                old(self).cell(rr, cc),
                                line_deposit(width as int, a, b, rr, cc),
                            ),
                        forall|cc: int|
                            0 <= cc < c as int
                                ==> #[trigger] self.cell(r as int, cc) == sat_add(
                                old(self).cell(r as int, cc),
                                line_deposit(width as int, a, b, r as int, cc),
                            ),
                        forall|cc: int|
                            c as int <= cc <= width as int
                                ==> #[trigger] self.cell(r as int, cc) == old(self).cell(
                                r as int,
                                cc,
                            ),
                        forall|rr: int, cc: int|
                            (r as int) < rr < height as int && 0 <= cc <= width as int
                                ==> #[trigger] self.cell(rr, cc) == old(self).cell(rr, cc),
                    decreases hi + 1 - c,
                {
                    let nxt: i64 = if c == hi {
                        dy
                    } else {
                        boundary_area_exec(x0, x1, dy, c + 1)
                    };
                    let dep_mag: i64 = nxt - prev;
                    let dep: i64 = if downward {
                        dep_mag
                    } else {
                        -dep_mag
                    };
                    proof {
                        assert((r as int) * (stride as int) + (c as int) < (stride as int) * (
                        height as int) && (r as int) * (stride as int) + (c as int) < 0x800_4000)
                            by (nonlinear_arith)
                            requires
                                0 <= (r as int) < (height as int),
                                (height as int) <= 8192,
                                0 <= (c as int) < (stride as int),
                                (stride as int) <= 8193,
                        ;
                    }
                    let idx: usize = r * stride + c;
                    let cur: i64 = self.cells[idx];
                    let nv: i64 = sat_add_i64(cur, dep);
                    let ghost pre_self = *self;
                    self.cells.set(idx, nv);
                    proof {
                        // the stored delta is exactly the specified deposit
                        assert(nxt as int == area_before(
                            width as int,
                            x0 as int,
                            x1 as int,
                            dy as int,
                            c as int + 1,
                        ));
                        assert(dep as int == line_deposit(width as int, a, b, r as int, c as int));
                        assert(self.cell(r as int, c as int) == sat_add(
                            pre_self.cell(r as int, c as int),
                            dep as int,
                        ));
                        // all other cells are untouched
                        assert forall|rr: int, cc: int|
                            0 <= rr < height as int && 0 <= cc <= width as int && !(rr == r as int
                                && cc == c as int) implies #[trigger] self.cell(rr, cc)
                            == pre_self.cell(rr, cc) by {
                            assert(0 <= rr * (stride as int) + cc < pre_self.cells@.len())
                                by (nonlinear_arith)
                                requires
                                    0 <= rr,
                                    rr < (height as int),
                                    0 <= cc,
                                    cc < (stride as int),
                                    pre_self.cells@.len() == (stride as int) * (height as int),
                            ;
                            if rr * (stride as int) + cc == idx as int {
                                lemma_cell_index_inj(stride as int, rr, cc, r as int, c as int);
                            }
                        }
                    }
                    prev = nxt;
                    c = c + 1;
                }
                proof {
                    assert forall|cc: int|
                        0 <= cc <= width as int implies #[trigger] self.cell(r as int, cc)
                        == sat_add(
                        old(self).cell(r as int, cc),
                        line_deposit(width as int, a, b, r as int, cc),
                    ) by {
                        if cc > hi as int {
                            assert(line_deposit(width as int, a, b, r as int, cc) == 0);
                        }
                    }
                }
            } else {
                proof {
                    assert forall|cc: int| 0 <= cc <= width as int implies line_deposit(
                        width as int,
                        a,
                        b,
                        r as int,
                        cc,
                    ) == 0 by {}
                }
            }
            r = r + 1;
        }
    }

    /// Sum of the cells of row `r` from column 0 through column `x`.
    pub open spec fn row_prefix(self, r: int, x: int) -> int
        decreases x + 1,
    {
        if x < 0 {
            0
        } else {
            self.row_prefix(r, x - 1) + self.cell(r, x)
        }
    }

    /// Fractional coverage of the pixel at column `x`, row `y`: the
    /// prefix-summed accumulator row, clamped to `[0, SCALE]`.  The cells
    /// themselves are never coverage; only their running sum is.
    pub open spec fn coverage(self, x: int, y: int) -> int {
        clamp_int(self.row_prefix(y, x), 0, SCALE as int)
    }

    /// Clamped prefix-sum coverage of cell `(x, y)`, in fixed-point units
    /// (`SCALE` means fully covered).  Read-only.
    #[verifier::loop_isolation(false)]
    pub fn coverage_at(&self, x: usize, y: usize) -> (cov: i64)
        requires
            self.wf(),
            x < self.width,
            y < self.height,
        ensures
            cov as int == self.coverage(x as int, y as int),
            0 <= cov <= SCALE,
    {
        let stride = self.width + 1;
        let mut sum: i128 = 0;
        let mut c: usize = 0;
        while c <= x
            invariant
                c <= x + 1,
                sum as int == self.row_prefix(y as int, c as int - 1),
                -0x8000_0000_0000_0000_0000 * (c as int) <= sum as int <= 0x8000_0000_0000_0000_0000
                    * (c as int),
            decreases x + 1 - c,
        {
            proof {
                assert((y as int) * (stride as int) + (c as int) < (stride as int) * (
                self.height as int) && 0 <= (y as int) * (stride as int) + (c as int) && (y as int)
                    * (stride as int) + (c as int) < 0x800_4000) by (nonlinear_arith)
                    requires
                        0 <= (y as int) < (self.height as int),
                        (self.height as int) <= 8192,
                        0 <= (c as int) < (stride as int),
                        (stride as int) <= 8193,
                ;
                assert(-0x8000_0000_0000_0000_0000 * (c as int + 1) <= sum as int
                    + self.cells@[(y as int) * (stride as int) + (c as int)] as int
                    <= 0x8000_0000_0000_0000_0000 * (c as int + 1)) by (nonlinear_arith)
                    requires
                        -0x8000_0000_0000_0000_0000 * (c as int) <= sum as int
                            <= 0x8000_0000_0000_0000_0000 * (c as int),
                        -0x8000_0000_0000_0000 <= self.cells@[(y as int) * (stride as int) + (
                        c as int)] as int <= 0x8000_0000_0000_0000,
                ;
            }
            let idx: usize = y * stride + c;
            sum = sum + (self.cells[idx] as i128);
            c = c + 1;
        }
        if sum < 0 {
            0
        } else if sum > SCALE as i128 {
            SCALE
        } else {
            sum as i64
        }
    }
}

} // verus!
