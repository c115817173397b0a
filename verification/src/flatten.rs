//! The curve flattener: approximates one quadratic Bezier curve by a chain
//! of line segments within a flatness tolerance, by recursive bisection at
//! the parametric midpoint (De Casteljau subdivision), with a hard depth
//! bound so that even degenerate curves terminate.

use crate::fixed::{floor_div_i128, COORD_LIMIT};
use crate::geom::{Point, Segment};
use vstd::arithmetic::div_mod::{
    lemma_div_is_ordered, lemma_fundamental_div_mod, lemma_fundamental_div_mod_converse_div,
    lemma_mod_bound,
};
use vstd::prelude::*;

verus! {

/// Hard bound on the subdivision depth; guarantees termination even for
/// degenerate (collinear or zero-length) curves.
pub const MAX_SPLIT_DEPTH: u32 = 16;

/// Conservative default flatness tolerance: a tenth of a pixel, in
/// fixed-point units.
pub const DEFAULT_TOLERANCE: i64 = 6554;

pub open spec fn abs_int(t: int) -> int {
    if t >= 0 {
        t
    } else {
        -t
    }
}

/// The x component of the curve's midpoint deviation `p0 - 2*p1 + p2`,
/// which measures how far the control point pulls the curve off its
/// chord: the curve's maximum deviation from the chord is a quarter of
/// that vector, reached at the parametric midpoint.
pub open spec fn dev_x(p0: Point, p1: Point, p2: Point) -> int {
    p0.x - 2 * p1.x + p2.x
}

/// The y component of the midpoint deviation.
pub open spec fn dev_y(p0: Point, p1: Point, p2: Point) -> int {
    p0.y - 2 * p1.y + p2.y
}

/// The curve counts as flat when the estimated deviation, per axis, is
/// within the tolerance.
pub open spec fn is_flat(p0: Point, p1: Point, p2: Point, tol: int) -> bool {
    &&& abs_int(dev_x(p0, p1, p2)) <= 4 * tol
    &&& abs_int(dev_y(p0, p1, p2)) <= 4 * tol
}

/// Floor midpoint of two coordinates.
pub open spec fn mid_int(a: int, b: int) -> int {
    (a + b) / 2
}

pub open spec fn mid_point(a: Point, b: Point) -> Point {
    Point { x: mid_int(a.x as int, b.x as int) as i64, y: mid_int(a.y as int, b.y as int) as i64 }
}

/// The chain of chords that flattening produces: the chord itself once the
/// curve is flat enough (or the depth bound is hit), else the two De
/// Casteljau halves flattened in curve-traversal order, so the original
/// direction -- and with it the winding sign -- is preserved.
pub open spec fn flatten_spec(p0: Point, p1: Point, p2: Point, tol: int, depth: nat) -> Seq<
    Segment,
>
    decreases depth,
{
    if depth == 0 || is_flat(p0, p1, p2, tol) {
        seq![Segment { a: p0, b: p2 }]
    } else {
        let l1 = mid_point(p0, p1);
        let r1 = mid_point(p1, p2);
        let m = mid_point(l1, r1);
        flatten_spec(p0, l1, m, tol, (depth - 1) as nat) + flatten_spec(
            m,
            r1,
            p2,
            tol,
            (depth - 1) as nat,
        )
    }
}

proof fn lemma_mid_int_bounds(a: int, b: int)
    ensures
        min_of(a, b) <= mid_int(a, b) <= max_of(a, b),
{
    let lo = min_of(a, b);
    let hi = max_of(a, b);
    lemma_div_exact_double(lo);
    lemma_div_exact_double(hi);
    lemma_div_is_ordered(2 * lo, a + b, 2);
    lemma_div_is_ordered(a + b, 2 * hi, 2);
}

spec fn min_of(a: int, b: int) -> int {
    if a <= b {
        a
    } else {
        b
    }
}

spec fn max_of(a: int, b: int) -> int {
    if a >= b {
        a
    } else {
        b
    }
}

proof fn lemma_div_exact_double(k: int)
    ensures
        (2 * k) / 2 == k,
{
    lemma_fundamental_div_mod_converse_div(2 * k, 2, k, 0);
}

pub proof fn lemma_mid_point_wf(a: Point, b: Point)
    requires
        a.wf(),
        b.wf(),
    ensures
        mid_point(a, b).wf(),
{
    lemma_mid_int_bounds(a.x as int, b.x as int);
    lemma_mid_int_bounds(a.y as int, b.y as int);
}

/// Everything flattening emits has well-formed endpoints.
pub proof fn lemma_flatten_wf(p0: Point, p1: Point, p2: Point, tol: int, depth: nat)
    requires
        p0.wf(),
        p1.wf(),
        p2.wf(),
    ensures
        forall|i: int|
            0 <= i < flatten_spec(p0, p1, p2, tol, depth).len() ==> (#[trigger] flatten_spec(
                p0,
                p1,
                p2,
                tol,
                depth,
            )[i]).wf(),
    decreases depth,
{
    if depth == 0 || is_flat(p0, p1, p2, tol) {
    } else {
        let l1 = mid_point(p0, p1);
        let r1 = mid_point(p1, p2);
        let m = mid_point(l1, r1);
        lemma_mid_point_wf(p0, p1);
        lemma_mid_point_wf(p1, p2);
        lemma_mid_point_wf(l1, r1);
        lemma_flatten_wf(p0, l1, m, tol, (depth - 1) as nat);
        lemma_flatten_wf(m, r1, p2, tol, (depth - 1) as nat);
        let s1 = flatten_spec(p0, l1, m, tol, (depth - 1) as nat);
        let s2 = flatten_spec(m, r1, p2, tol, (depth - 1) as nat);
        assert forall|i: int|
            0 <= i < flatten_spec(p0, p1, p2, tol, depth).len() implies (#[trigger] flatten_spec(
            p0,
            p1,
            p2,
            tol,
            depth,
        )[i]).wf() by {
            if i < s1.len() {
                assert(flatten_spec(p0, p1, p2, tol, depth)[i] == s1[i]);
            } else {
                assert(flatten_spec(p0, p1, p2, tol, depth)[i] == s2[i - s1.len()]);
            }
        }
    }
}

/// Law: flattening yields a connected chain of chords that starts at the
/// curve's start, ends at its end, and is emitted in curve-traversal
/// order; a curve that is already flat yields exactly its chord.
pub proof fn lemma_flatten_chain(p0: Point, p1: Point, p2: Point, tol: int, depth: nat)
    ensures
        flatten_spec(p0, p1, p2, tol, depth).len() >= 1,
        flatten_spec(p0, p1, p2, tol, depth)[0].a == p0,
        flatten_spec(p0, p1, p2, tol, depth).last().b == p2,
        forall|i: int|
            0 <= i < flatten_spec(p0, p1, p2, tol, depth).len() - 1 ==> (#[trigger] flatten_spec(
                p0,
                p1,
                p2,
                tol,
                depth,
            )[i]).b == flatten_spec(p0, p1, p2, tol, depth)[i + 1].a,
        is_flat(p0, p1, p2, tol) ==> flatten_spec(p0, p1, p2, tol, depth) == seq![
            Segment { a: p0, b: p2 },
        ],
    decreases depth,
{
    if depth == 0 || is_flat(p0, p1, p2, tol) {
    } else {
        let l1 = mid_point(p0, p1);
        let r1 = mid_point(p1, p2);
        let m = mid_point(l1, r1);
        lemma_flatten_chain(p0, l1, m, tol, (depth - 1) as nat);
        lemma_flatten_chain(m, r1, p2, tol, (depth - 1) as nat);
        let s1 = flatten_spec(p0, l1, m, tol, (depth - 1) as nat);
        let s2 = flatten_spec(m, r1, p2, tol, (depth - 1) as nat);
        let s = flatten_spec(p0, p1, p2, tol, depth);
        assert(s == s1 + s2);
        assert(s.last() == s2.last());
        assert forall|i: int| 0 <= i < s.len() - 1 implies (#[trigger] s[i]).b == s[i + 1].a by {
            if i + 1 < s1.len() {
                assert(s[i] == s1[i]);
                assert(s[i + 1] == s1[i + 1]);
            } else if i + 1 == s1.len() {
                assert(s[i] == s1[i]);
                assert(s[i + 1] == s2[0]);
                assert(s1.last().b == m);
            } else {
                assert(s[i] == s2[i - s1.len()]);
                assert(s[i + 1] == s2[i + 1 - s1.len()]);
            }
        }
    }
}

/// `4 * mid_int(a, b)` differs from `2 * (a + b)` by at most the floor
/// rounding of one halving.
proof fn lemma_mid_int_identity(a: int, b: int)
    ensures
        2 * mid_int(a, b) == a + b - ((a + b) % 2),
        0 <= (a + b) % 2 <= 1,
{
    lemma_fundamental_div_mod(a + b, 2);
    lemma_mod_bound(a + b, 2);
}

/// Law: flattening converges.  One De Casteljau bisection quarters the
/// midpoint deviation of each half, up to the fixed-point rounding of the
/// three midpoints: `4 * dev(half) - dev(curve)` stays within `[-3, 3]`
/// on each axis.  The bounded subdivision depth therefore drives every
/// emitted chord's deviation toward the tolerance.
pub proof fn lemma_bisection_quarters_deviation(p0: Point, p1: Point, p2: Point)
    requires
        p0.wf(),
        p1.wf(),
        p2.wf(),
    ensures
        ({
            let l1 = mid_point(p0, p1);
            let r1 = mid_point(p1, p2);
            let m = mid_point(l1, r1);
            &&& -3 <= 4 * dev_x(p0, l1, m) - dev_x(p0, p1, p2) <= 3
            &&& -3 <= 4 * dev_y(p0, l1, m) - dev_y(p0, p1, p2) <= 3
            &&& -3 <= 4 * dev_x(m, r1, p2) - dev_x(p0, p1, p2) <= 3
            &&& -3 <= 4 * dev_y(m, r1, p2) - dev_y(p0, p1, p2) <= 3
        }),
{
    let l1 = mid_point(p0, p1);
    let r1 = mid_point(p1, p2);
    let m = mid_point(l1, r1);
    lemma_mid_point_wf(p0, p1);
    lemma_mid_point_wf(p1, p2);
    lemma_mid_point_wf(l1, r1);
    lemma_mid_int_identity(p0.x as int, p1.x as int);
    lemma_mid_int_identity(p1.x as int, p2.x as int);
    lemma_mid_int_identity(l1.x as int, r1.x as int);
    lemma_mid_int_identity(p0.y as int, p1.y as int);
    lemma_mid_int_identity(p1.y as int, p2.y as int);
    lemma_mid_int_identity(l1.y as int, r1.y as int);
}

/// What is left of a deviation budget `b` after `d` bisections: each
/// level quarters it and adds one unit of midpoint rounding.
pub open spec fn shrink4(b: int, d: nat) -> int
    decreases d,
{
    if d == 0 {
        b
    } else {
        shrink4(b / 4 + 1, (d - 1) as nat)
    }
}

proof fn lemma_shrink4_mono(b1: int, b2: int, d: nat)
    requires
        b1 <= b2,
    ensures
        shrink4(b1, d) <= shrink4(b2, d),
    decreases d,
{
    if d > 0 {
        lemma_div_is_ordered(b1, b2, 4);
        lemma_shrink4_mono(b1 / 4 + 1, b2 / 4 + 1, (d - 1) as nat);
    }
}

proof fn lemma_shrink4_small()
    ensures
        shrink4(0x2_0000_0000, 16) == 3,
{
    assert(shrink4(3, 0) == 3);
    assert(shrink4(9, 1) == 3);
    assert(shrink4(33, 2) == 3);
    assert(shrink4(129, 3) == 3);
    assert(shrink4(513, 4) == 3);
    assert(shrink4(2049, 5) == 3);
    assert(shrink4(8193, 6) == 3);
    assert(shrink4(32769, 7) == 3);
    assert(shrink4(131073, 8) == 3);
    assert(shrink4(524289, 9) == 3);
    assert(shrink4(2097153, 10) == 3);
    assert(shrink4(8388609, 11) == 3);
    assert(shrink4(33554433, 12) == 3);
    assert(shrink4(134217729, 13) == 3);
    assert(shrink4(536870913, 14) == 3);
    assert(shrink4(2147483649, 15) == 3);
    assert(shrink4(0x2_0000_0000, 16) == 3);
}

/// The deviation budget claim, threaded through the subdivision: every
/// chord that flattening emits admits a control point (in the proof, the
/// one of the sub-curve the chord stands for) under which it is flat
/// within the tolerance, or -- where the depth bound cut the recursion
/// off -- within the shrunken budget of flat.
proof fn lemma_flatten_deviation_rec(
    p0: Point,
    p1: Point,
    p2: Point,
    tol: int,
    depth: nat,
    dbound: int,
)
    requires
        p0.wf(),
        p1.wf(),
        p2.wf(),
        0 <= tol,
        abs_int(dev_x(p0, p1, p2)) <= dbound,
        abs_int(dev_y(p0, p1, p2)) <= dbound,
    ensures
        forall|i: int|
            #![trigger flatten_spec(p0, p1, p2, tol, depth)[i]]
            0 <= i < flatten_spec(p0, p1, p2, tol, depth).len() ==> exists|q: Point|
                {
                    let seg = flatten_spec(p0, p1, p2, tol, depth)[i];
                    &&& #[trigger] q.wf()
                    &&& (is_flat(seg.a, q, seg.b, tol) || (abs_int(dev_x(seg.a, q, seg.b))
                        <= shrink4(dbound, depth) && abs_int(dev_y(seg.a, q, seg.b)) <= shrink4(
                        dbound,
                        depth,
                    )))
                },
    decreases depth,
{
    let s = flatten_spec(p0, p1, p2, tol, depth);
    if depth == 0 || is_flat(p0, p1, p2, tol) {
        assert forall|i: int| #![trigger s[i]] 0 <= i < s.len() implies exists|q: Point|
            {
                let seg = s[i];
                &&& #[trigger] q.wf()
                &&& (is_flat(seg.a, q, seg.b, tol) || (abs_int(dev_x(seg.a, q, seg.b)) <= shrink4(
                    dbound,
                    depth,
                ) && abs_int(dev_y(seg.a, q, seg.b)) <= shrink4(dbound, depth)))
            } by {
            let seg = s[i];
            assert(seg == (Segment { a: p0, b: p2 }));
            assert({
                &&& p1.wf()
                &&& (is_flat(seg.a, p1, seg.b, tol) || (abs_int(dev_x(seg.a, p1, seg.b)) <= shrink4(
                    dbound,
                    depth,
                ) && abs_int(dev_y(seg.a, p1, seg.b)) <= shrink4(dbound, depth)))
            });
        }
    } else {
        let l1 = mid_point(p0, p1);
        let r1 = mid_point(p1, p2);
        let m = mid_point(l1, r1);
        lemma_mid_point_wf(p0, p1);
        lemma_mid_point_wf(p1, p2);
        lemma_mid_point_wf(l1, r1);
        lemma_bisection_quarters_deviation(p0, p1, p2);
        let dh = dbound / 4 + 1;
        assert((dbound + 3) / 4 <= dbound / 4 + 1) by {
            lemma_div_shift_quad(dbound);
        }
        assert(abs_int(dev_x(p0, l1, m)) <= dh && abs_int(dev_y(p0, l1, m)) <= dh && abs_int(
            dev_x(m, r1, p2),
        ) <= dh && abs_int(dev_y(m, r1, p2)) <= dh) by {
            lemma_quarter_bound(dev_x(p0, l1, m), dev_x(p0, p1, p2), dbound);
            lemma_quarter_bound(dev_y(p0, l1, m), dev_y(p0, p1, p2), dbound);
            lemma_quarter_bound(dev_x(m, r1, p2), dev_x(p0, p1, p2), dbound);
            lemma_quarter_bound(dev_y(m, r1, p2), dev_y(p0, p1, p2), dbound);
        }
        lemma_flatten_deviation_rec(p0, l1, m, tol, (depth - 1) as nat, dh);
        lemma_flatten_deviation_rec(m, r1, p2, tol, (depth - 1) as nat, dh);
        let s1 = flatten_spec(p0, l1, m, tol, (depth - 1) as nat);
        let s2 = flatten_spec(m, r1, p2, tol, (depth - 1) as nat);
        assert(shrink4(dh, (depth - 1) as nat) == shrink4(dbound, depth));
        assert forall|i: int| #![trigger s[i]] 0 <= i < s.len() implies exists|q: Point|
            {
                let seg = s[i];
                &&& #[trigger] q.wf()
                &&& (is_flat(seg.a, q, seg.b, tol) || (abs_int(dev_x(seg.a, q, seg.b)) <= shrink4(
                    dbound,
                    depth,
                ) && abs_int(dev_y(seg.a, q, seg.b)) <= shrink4(dbound, depth)))
            } by {
            if i < s1.len() {
                assert(s[i] == s1[i]);
                let q = choose|q: Point|
                    {
                        let seg = s1[i];
                        &&& #[trigger] q.wf()
                        &&& (is_flat(seg.a, q, seg.b, tol) || (abs_int(dev_x(seg.a, q, seg.b))
                            <= shrink4(dh, (depth - 1) as nat) && abs_int(dev_y(seg.a, q, seg.b))
                            <= shrink4(dh, (depth - 1) as nat)))
                    };
                assert({
                    let seg = s[i];
                    &&& #[trigger] q.wf()
                    &&& (is_flat(seg.a, q, seg.b, tol) || (abs_int(dev_x(seg.a, q, seg.b))
                        <= shrink4(dbound, depth) && abs_int(dev_y(seg.a, q, seg.b)) <= shrink4(
                        dbound,
                        depth,
                    )))
                });
            } else {
                assert(s[i] == s2[i - s1.len()]);
                let q = choose|q: Point|
                    {
                        let seg = s2[i - s1.len()];
                        &&& #[trigger] q.wf()
                        &&& (is_flat(seg.a, q, seg.b, tol) || (abs_int(dev_x(seg.a, q, seg.b))
                            <= shrink4(dh, (depth - 1) as nat) && abs_int(dev_y(seg.a, q, seg.b))
                            <= shrink4(dh, (depth - 1) as nat)))
                    };
                assert({
                    let seg = s[i];
                    &&& #[trigger] q.wf()
                    &&& (is_flat(seg.a, q, seg.b, tol) || (abs_int(dev_x(seg.a, q, seg.b))
                        <= shrink4(dbound, depth) && abs_int(dev_y(seg.a, q, seg.b)) <= shrink4(
                        dbound,
                        depth,
                    )))
                });
            }
        }
    }
}

/// `|4d' - d| <= 3` and `|d| <= b` give `|d'| <= b/4 + 1`.
proof fn lemma_quarter_bound(dprime: int, d: int, b: int)
    requires
        -3 <= 4 * dprime - d <= 3,
        abs_int(d) <= b,
    ensures
        abs_int(dprime) <= b / 4 + 1,
{
    lemma_div_shift_quad(b);
    lemma_div_exact4(dprime);
    lemma_div_exact4(-dprime);
    lemma_div_is_ordered(4 * dprime, b + 3, 4);
    lemma_div_is_ordered(4 * (-dprime), b + 3, 4);
}

proof fn lemma_div_exact4(k: int)
    ensures
        (4 * k) / 4 == k,
{
    lemma_fundamental_div_mod_converse_div(4 * k, 4, k, 0);
}

/// `(b + 3) / 4 <= b / 4 + 1`.
proof fn lemma_div_shift_quad(b: int)
    ensures
        (b + 3) / 4 <= b / 4 + 1,
{
    lemma_fundamental_div_mod(b, 4);
    lemma_mod_bound(b, 4);
    lemma_fundamental_div_mod_converse_div(b + 4, 4, b / 4 + 1, b % 4);
    lemma_div_is_ordered(b + 3, b + 4, 4);
}

/// Law: flattening convergence, concretely.  For any well-formed curve,
/// every chord the engine's flattening emits admits a control point under
/// which it is flat within the requested tolerance, or within 3
/// fixed-point units (about one twenty-thousandth of a pixel) of exactly
/// flat where the depth bound ended the recursion.
pub proof fn lemma_flatten_deviation(p0: Point, p1: Point, p2: Point, tol: int)
    requires
        p0.wf(),
        p1.wf(),
        p2.wf(),
        0 <= tol,
    ensures
        forall|i: int|
            #![trigger flatten_spec(p0, p1, p2, tol, MAX_SPLIT_DEPTH as nat)[i]]
            0 <= i < flatten_spec(p0, p1, p2, tol, MAX_SPLIT_DEPTH as nat).len() ==> exists|
                q: Point,
            |
                {
                    let seg = flatten_spec(p0, p1, p2, tol, MAX_SPLIT_DEPTH as nat)[i];
                    &&& #[trigger] q.wf()
                    &&& (is_flat(seg.a, q, seg.b, tol) || (abs_int(dev_x(seg.a, q, seg.b)) <= 3
                        && abs_int(dev_y(seg.a, q, seg.b)) <= 3))
                },
{
    lemma_flatten_deviation_rec(p0, p1, p2, tol, MAX_SPLIT_DEPTH as nat, 0x2_0000_0000);
    lemma_shrink4_small();
}

fn pmid(a: Point, b: Point) -> (m: Point)
    requires
        a.wf(),
        b.wf(),
    ensures
        m == mid_point(a, b),
        m.wf(),
{
    proof {
        lemma_mid_point_wf(a, b);
        lemma_mid_int_bounds(a.x as int, b.x as int);
        lemma_mid_int_bounds(a.y as int, b.y as int);
    }
    let mx: i128 = floor_div_i128(a.x as i128 + b.x as i128, 2);
    let my: i128 = floor_div_i128(a.y as i128 + b.y as i128, 2);
    Point { x: mx as i64, y: my as i64 }
}

fn flatten_rec(p0: Point, p1: Point, p2: Point, tol: i64, depth: u32, out: &mut Vec<Segment>)
    requires
        p0.wf(),
        p1.wf(),
        p2.wf(),
        0 <= tol <= COORD_LIMIT,
    ensures
        final(out)@ == old(out)@ + flatten_spec(p0, p1, p2, tol as int, depth as nat),
    decreases depth,
{
    let dx: i64 = p0.x - 2 * p1.x + p2.x;
    let dy: i64 = p0.y - 2 * p1.y + p2.y;
    let adx: i64 = if dx >= 0 {
        dx
    } else {
        -dx
    };
    let ady: i64 = if dy >= 0 {
        dy
    } else {
        -dy
    };
    let flat: bool = adx <= 4 * tol && ady <= 4 * tol;
    if depth == 0 || flat {
        out.push(Segment { a: p0, b: p2 });
        assert(out@ =~= old(out)@ + flatten_spec(p0, p1, p2, tol as int, depth as nat));
    } else {
        let l1 = pmid(p0, p1);
        let r1 = pmid(p1, p2);
        let m = pmid(l1, r1);
        flatten_rec(p0, l1, m, tol, depth - 1, out);
        flatten_rec(m, r1, p2, tol, depth - 1, out);
        assert(out@ =~= old(out)@ + flatten_spec(p0, p1, p2, tol as int, depth as nat));
    }
}

/// Approximates the quadratic curve `(p0, p1, p2)` by its flattening chain
/// at the engine's depth bound: a connected run of chords from `p0` to
/// `p2` in traversal order; an already-flat curve (degenerate ones
/// included) yields exactly its single chord.
pub fn flatten_quad(p0: Point, p1: Point, p2: Point, tol: i64) -> (segs: Vec<Segment>)
    requires
        p0.wf(),
        p1.wf(),
        p2.wf(),
        0 <= tol <= COORD_LIMIT,
    ensures
        segs@ == flatten_spec(p0, p1, p2, tol as int, MAX_SPLIT_DEPTH as nat),
        segs@.len() >= 1,
        segs@[0].a == p0,
        segs@.last().b == p2,
        forall|i: int| 0 <= i < segs@.len() - 1 ==> (#[trigger] segs@[i]).b == segs@[i + 1].a,
        forall|i: int| 0 <= i < segs@.len() ==> (#[trigger] segs@[i]).wf(),
        is_flat(p0, p1, p2, tol as int) ==> segs@ == seq![Segment { a: p0, b: p2 }],
{
    let mut segs: Vec<Segment> = Vec::new();
    flatten_rec(p0, p1, p2, tol, MAX_SPLIT_DEPTH, &mut segs);
    proof {
        assert(segs@ =~= flatten_spec(p0, p1, p2, tol as int, MAX_SPLIT_DEPTH as nat));
        lemma_flatten_chain(p0, p1, p2, tol as int, MAX_SPLIT_DEPTH as nat);
        lemma_flatten_wf(p0, p1, p2, tol as int, MAX_SPLIT_DEPTH as nat);
    }
    segs
}

} // verus!
