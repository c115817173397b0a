//! The command interpreter: decodes the textual script grammar into draw
//! operations and sequences them against the engine.
//!
//! One instruction per line, fields separated by `:`, whitespace around
//! arguments ignored:
//!
//! ```text
//! reset: <width>x<height>
//! line: (<x>,<y>) (<x>,<y>)
//! quad: (<x>,<y>) (<x>,<y>) (<x>,<y>)
//! ```
//!
//! Coordinates are decimal literals, parsed directly into 16.16 fixed
//! point.  A line matching no form is a decode failure; a matched
//! instruction with missing fields, or a draw before any reset, is a
//! sequence failure.

use crate::engine::{deposit_chain, Rasterizer};
use crate::accum::line_deposit;
use crate::fixed::{sat_add, MAX_DIM};
use crate::flatten::{flatten_spec, DEFAULT_TOLERANCE, MAX_SPLIT_DEPTH};
use crate::geom::Point;
use vstd::prelude::*;

verus! {

/// One decoded instruction: the engine's only externally visible verbs.
#[derive(Clone, Copy, PartialEq, Eq, Structural, Debug)]
pub enum Command {
    Reset(usize, usize),
    Line(Point, Point),
    Quad(Point, Point, Point),
}

impl Command {
    /// Dimensions within the engine's limits, coordinates within range.
    pub open spec fn wf(self) -> bool {
        match self {
            Command::Reset(w, h) => w <= MAX_DIM && h <= MAX_DIM,
            Command::Line(a, b) => a.wf() && b.wf(),
            Command::Quad(a, b, c) => a.wf() && b.wf() && c.wf(),
        }
    }

    pub open spec fn is_reset(self) -> bool {
        match self {
            Command::Reset(_, _) => true,
            _ => false,
        }
    }
}

/// Decode and sequence failures, each carrying the 1-based number of the
/// offending line.
#[derive(Clone, Copy, PartialEq, Eq, Structural, Debug)]
pub enum ScriptError {
    /// The line matches no instruction form: unknown keyword, or a
    /// numeric field that fails to parse or exceeds the supported range.
    Decode { line: usize },
    /// A matched instruction is missing fields, or a draw instruction is
    /// issued before any reset.
    Sequence { line: usize },
}

/// How one script line parses.
pub enum LineParse {
    Parsed(Command),
    Malformed,
    Incomplete,
}

pub open spec fn is_digit(ch: u8) -> bool {
    48 <= ch <= 57
}

pub open spec fn is_ws(ch: u8) -> bool {
    ch == 32 || ch == 9 || ch == 13
}

/// First index in `[i, end)` holding `ch`, or `end`.
pub open spec fn first_idx_from(s: Seq<u8>, ch: u8, i: int, end: int) -> int
    decreases end - i,
{
    if i >= end {
        end
    } else if s[i] == ch {
        i
    } else {
        first_idx_from(s, ch, i + 1, end)
    }
}

pub proof fn lemma_first_idx_bounds(s: Seq<u8>, ch: u8, i: int, end: int)
    requires
        i <= end,
    ensures
        i <= first_idx_from(s, ch, i, end) <= end,
        first_idx_from(s, ch, i, end) < end ==> s[first_idx_from(s, ch, i, end)] == ch,
        forall|j: int| i <= j < first_idx_from(s, ch, i, end) ==> s[j] != ch,
    decreases end - i,
{
    if i < end && s[i] != ch {
        lemma_first_idx_bounds(s, ch, i + 1, end);
    }
}

/// First index in `[i, end)` holding a non-whitespace byte, or `end`.
pub open spec fn skip_ws(s: Seq<u8>, i: int, end: int) -> int
    decreases end - i,
{
    if i >= end {
        end
    } else if is_ws(s[i]) {
        skip_ws(s, i + 1, end)
    } else {
        i
    }
}

proof fn lemma_skip_ws_bounds(s: Seq<u8>, i: int, end: int)
    requires
        i <= end,
    ensures
        i <= skip_ws(s, i, end) <= end,
    decreases end - i,
{
    if i < end && is_ws(s[i]) {
        lemma_skip_ws_bounds(s, i + 1, end);
    }
}

/// End of the range `[start, end)` with trailing whitespace removed.
pub open spec fn trim_back(s: Seq<u8>, start: int, end: int) -> int
    decreases end - start,
{
    if end <= start {
        end
    } else if is_ws(s[end - 1]) {
        trim_back(s, start, end - 1)
    } else {
        end
    }
}

proof fn lemma_trim_back_bounds(s: Seq<u8>, start: int, end: int)
    requires
        start <= end,
    ensures
        start <= trim_back(s, start, end) <= end,
    decreases end - start,
{
    if start < end && is_ws(s[end - 1]) {
        lemma_trim_back_bounds(s, start, end - 1);
    }
}

pub open spec fn all_digits(s: Seq<u8>, start: int, end: int) -> bool {
    forall|i: int| start <= i < end ==> is_digit(#[trigger] s[i])
}

/// Value of the digit run `s[start..end]` read as a decimal integer.
pub open spec fn digits_val(s: Seq<u8>, start: int, end: int) -> int
    decreases end - start,
{
    if end <= start {
        0
    } else {
        digits_val(s, start, end - 1) * 10 + (s[end - 1] - 48)
    }
}

pub open spec fn pow10(k: nat) -> int
    decreases k,
{
    if k == 0 {
        1
    } else {
        10 * pow10((k - 1) as nat)
    }
}

proof fn lemma_pow10_pos(k: nat)
    ensures
        pow10(k) >= 1,
    decreases k,
{
    if k > 0 {
        lemma_pow10_pos((k - 1) as nat);
    }
}

proof fn lemma_pow10_mono(a: nat, b: nat)
    requires
        a <= b,
    ensures
        pow10(a) <= pow10(b),
    decreases b,
{
    if a < b {
        lemma_pow10_mono(a, (b - 1) as nat);
        lemma_pow10_pos((b - 1) as nat);
    }
}

proof fn lemma_pow10_nine()
    ensures
        pow10(9) == 1000000000,
{
    assert(pow10(0) == 1);
    assert(pow10(1) == 10);
    assert(pow10(2) == 100);
    assert(pow10(3) == 1000);
    assert(pow10(4) == 10000);
    assert(pow10(5) == 100000);
    assert(pow10(6) == 1000000);
    assert(pow10(7) == 10000000);
    assert(pow10(8) == 100000000);
}

/// A non-negative integer field: at least one digit, all digits, value at
/// most `bound`.
pub open spec fn uint_ok(s: Seq<u8>, start: int, end: int, bound: int) -> bool {
    &&& end - start >= 1
    &&& all_digits(s, start, end)
    &&& digits_val(s, start, end) <= bound
}

/// A decimal coordinate literal: optional sign, then digits with at most
/// one point, at least one digit in all, at most 9 fractional digits, and
/// an integer part of at most 32767 (so the fixed-point value is in
/// range).
pub open spec fn dec_ok(s: Seq<u8>, start: int, end: int) -> bool {
    let bs = if start < end && (s[start] == 43 || s[start] == 45) {
        start + 1
    } else {
        start
    };
    let di = first_idx_from(s, 46, bs, end);
    &&& start < end
    &&& bs < end
    &&& all_digits(s, bs, di)
    &&& (di == end || all_digits(s, di + 1, end))
    &&& (di > bs || di < end - 1)
    &&& (di == end || end - (di + 1) <= 9)
    &&& digits_val(s, bs, di) <= 32767
}

/// The 16.16 fixed-point value of a decimal coordinate literal, with the
/// fractional digits rounded half-up to the nearest fixed-point unit.
pub open spec fn dec_val(s: Seq<u8>, start: int, end: int) -> int {
    let neg = start < end && s[start] == 45;
    let bs = if start < end && (s[start] == 43 || s[start] == 45) {
        start + 1
    } else {
        start
    };
    let di = first_idx_from(s, 46, bs, end);
    let ip = digits_val(s, bs, di);
    let k = if di == end {
        0
    } else {
        end - (di + 1)
    };
    let fd = if di == end {
        0
    } else {
        digits_val(s, di + 1, end)
    };
    let mag = ip * 65536 + (fd * 65536 + pow10(k as nat) / 2) / pow10(k as nat);
    if neg {
        -mag
    } else {
        mag
    }
}

/// A point token `(<x>,<y>)`, with no interior whitespace.
pub open spec fn point_ok(s: Seq<u8>, start: int, end: int) -> bool {
    let ci = first_idx_from(s, 44, start + 1, end - 1);
    &&& end - start >= 2
    &&& s[start] == 40
    &&& s[end - 1] == 41
    &&& ci < end - 1
    &&& dec_ok(s, start + 1, ci)
    &&& dec_ok(s, ci + 1, end - 1)
}

pub open spec fn point_val(s: Seq<u8>, start: int, end: int) -> Point {
    let ci = first_idx_from(s, 44, start + 1, end - 1);
    Point { x: dec_val(s, start + 1, ci) as i64, y: dec_val(s, ci + 1, end - 1) as i64 }
}

proof fn lemma_digits_val_nonneg(s: Seq<u8>, start: int, end: int)
    requires
        all_digits(s, start, end),
    ensures
        digits_val(s, start, end) >= 0,
    decreases end - start,
{
    if end > start {
        lemma_digits_val_nonneg(s, start, end - 1);
    }
}

proof fn lemma_digits_val_lt_pow10(s: Seq<u8>, start: int, end: int)
    requires
        start <= end,
        all_digits(s, start, end),
    ensures
        digits_val(s, start, end) < pow10((end - start) as nat),
    decreases end - start,
{
    if end > start {
        lemma_digits_val_lt_pow10(s, start, end - 1);
    }
}

proof fn lemma_frac_fixed_range(fd: int, p: int)
    requires
        1 <= p,
        0 <= fd < p,
    ensures
        0 <= (fd * 65536 + p / 2) / p <= 65536,
{
    let h = p / 2;
    let num = fd * 65536 + h;
    vstd::arithmetic::div_mod::lemma_div_pos_is_pos(p, 2);
    vstd::arithmetic::div_mod::lemma_div_nonincreasing(p, 2);
    vstd::arithmetic::div_mod::lemma_div_pos_is_pos(num, p);
    assert(num <= 65537 * p - 1) by (nonlinear_arith)
        requires
            num == fd * 65536 + h,
            0 <= fd <= p - 1,
            1 <= p,
            0 <= h <= p,
    ;
    assert(65537 * p - 1 == 65536 * p + (p - 1)) by (nonlinear_arith);
    vstd::arithmetic::div_mod::lemma_fundamental_div_mod_converse_div(
        65537 * p - 1,
        p,
        65536,
        p - 1,
    );
    vstd::arithmetic::div_mod::lemma_div_is_ordered(num, 65537 * p - 1, p);
}

/// A well-formed decimal literal's fixed-point value is within the
/// engine's coordinate range.
pub proof fn lemma_dec_val_range(s: Seq<u8>, start: int, end: int)
    requires
        dec_ok(s, start, end),
    ensures
        -0x8000_0000 <= dec_val(s, start, end) <= 0x8000_0000,
{
    let bs = if start < end && (s[start] == 43 || s[start] == 45) {
        start + 1
    } else {
        start
    };
    let di = first_idx_from(s, 46, bs, end);
    lemma_first_idx_bounds(s, 46, bs, end);
    lemma_digits_val_nonneg(s, bs, di);
    let k = if di == end {
        0
    } else {
        end - (di + 1)
    };
    let fd = if di == end {
        0
    } else {
        digits_val(s, di + 1, end)
    };
    lemma_pow10_pos(k as nat);
    if di < end {
        lemma_digits_val_nonneg(s, di + 1, end);
        lemma_digits_val_lt_pow10(s, di + 1, end);
    }
    lemma_frac_fixed_range(fd, pow10(k as nat));
    assert(digits_val(s, bs, di) * 65536 <= 32767 * 65536) by (nonlinear_arith)
        requires
            0 <= digits_val(s, bs, di) <= 32767,
    ;
    assert(digits_val(s, bs, di) * 65536 >= 0) by (nonlinear_arith)
        requires
            0 <= digits_val(s, bs, di),
    ;
}

/// A well-formed point token denotes a well-formed point.
pub proof fn lemma_point_val_wf(s: Seq<u8>, start: int, end: int)
    requires
        point_ok(s, start, end),
    ensures
        point_val(s, start, end).wf(),
{
    let ci = first_idx_from(s, 44, start + 1, end - 1);
    lemma_dec_val_range(s, start + 1, ci);
    lemma_dec_val_range(s, ci + 1, end - 1);
}

#[verifier::loop_isolation(false)]
fn find_from(s: &[u8], ch: u8, from: usize, to: usize) -> (r: usize)
    requires
        from <= to,
        to <= s@.len(),
    ensures
        r as int == first_idx_from(s@, ch, from as int, to as int),
        from <= r <= to,
        r < to ==> s@[r as int] == ch,
        forall|j: int| from as int <= j < r as int ==> s@[j] != ch,
{
    proof {
        lemma_first_idx_bounds(s@, ch, from as int, to as int);
    }
    let mut i: usize = from;
    while i < to
        invariant
            from <= i <= to,
            first_idx_from(s@, ch, from as int, to as int) == first_idx_from(
                s@,
                ch,
                i as int,
                to as int,
            ),
            forall|j: int| from as int <= j < i as int ==> s@[j] != ch,
        decreases to - i,
    {
        if s[i] == ch {
            return i;
        }
        i = i + 1;
    }
    to
}

#[verifier::loop_isolation(false)]
fn skip_ws_exec(s: &[u8], from: usize, to: usize) -> (r: usize)
    requires
        from <= to,
        to <= s@.len(),
    ensures
        r as int == skip_ws(s@, from as int, to as int),
        from <= r <= to,
{
    proof {
        lemma_skip_ws_bounds(s@, from as int, to as int);
    }
    let mut i: usize = from;
    while i < to
        invariant
            from <= i <= to,
            skip_ws(s@, from as int, to as int) == skip_ws(s@, i as int, to as int),
        decreases to - i,
    {
        let ch = s[i];
        if !(ch == 32 || ch == 9 || ch == 13) {
            return i;
        }
        i = i + 1;
    }
    to
}

#[verifier::loop_isolation(false)]
fn trim_back_exec(s: &[u8], start: usize, to: usize) -> (r: usize)
    requires
        start <= to,
        to <= s@.len(),
    ensures
        r as int == trim_back(s@, start as int, to as int),
        start <= r <= to,
{
    proof {
        lemma_trim_back_bounds(s@, start as int, to as int);
    }
    let mut e: usize = to;
    while e > start
        invariant
            start <= e <= to,
            trim_back(s@, start as int, to as int) == trim_back(s@, start as int, e as int),
        decreases e,
    {
        let ch = s[e - 1];
        if !(ch == 32 || ch == 9 || ch == 13) {
            return e;
        }
        e = e - 1;
    }
    start
}

/// Parses a run of digits as a bounded non-negative integer.
#[verifier::loop_isolation(false)]
fn parse_uint(s: &[u8], from: usize, to: usize, bound: usize) -> (r: Option<usize>)
    requires
        from <= to,
        to <= s@.len(),
        bound <= 100000,
    ensures
        r == if uint_ok(s@, from as int, to as int, bound as int) {
            Option::Some(digits_val(s@, from as int, to as int) as usize)
        } else {
            Option::<usize>::None
        },
{
    if to == from {
        return None;
    }
    let mut i: usize = from;
    let mut val: usize = 0;
    let mut over: bool = false;
    while i < to
        invariant
            from <= i <= to,
            all_digits(s@, from as int, i as int),
            !over ==> val as int == digits_val(s@, from as int, i as int) && val <= bound,
            over ==> digits_val(s@, from as int, i as int) > bound,
        decreases to - i,
    {
        let ch = s[i];
        if !(48 <= ch && ch <= 57) {
            assert(!all_digits(s@, from as int, to as int));
            return None;
        }
        proof {
            lemma_digits_val_nonneg(s@, from as int, i as int);
        }
        if over {
        } else {
            let nv: usize = val * 10 + ((ch - 48) as usize);
            if nv > bound {
                over = true;
            } else {
                val = nv;
            }
        }
        i = i + 1;
    }
    if over {
        return None;
    }
    Some(val)
}

/// Parses a decimal coordinate literal into 16.16 fixed point, rounding
/// the fraction half-up.
#[verifier::loop_isolation(false)]
fn parse_dec(s: &[u8], from: usize, to: usize) -> (r: Option<i64>)
    requires
        from <= to,
        to <= s@.len(),
    ensures
        r == if dec_ok(s@, from as int, to as int) {
            Option::Some(dec_val(s@, from as int, to as int) as i64)
        } else {
            Option::<i64>::None
        },
        r is Some ==> -0x8000_0000 <= r.unwrap() <= 0x8000_0000,
{
    proof {
        if dec_ok(s@, from as int, to as int) {
            lemma_dec_val_range(s@, from as int, to as int);
        }
    }
    if from == to {
        return None;
    }
    let c0 = s[from];
    let neg: bool = c0 == 45;
    let bs: usize = if c0 == 43 || c0 == 45 {
        from + 1
    } else {
        from
    };
    if bs == to {
        return None;
    }
    let di: usize = find_from(s, 46, bs, to);
    // integer part
    let mut i: usize = bs;
    let mut ip: i64 = 0;
    let mut over: bool = false;
    while i < di
        invariant
            bs <= i <= di,
            di <= to,
            all_digits(s@, bs as int, i as int),
            !over ==> ip as int == digits_val(s@, bs as int, i as int) && ip <= 32767,
            over ==> digits_val(s@, bs as int, i as int) > 32767,
        decreases di - i,
    {
        let ch = s[i];
        if !(48 <= ch && ch <= 57) {
            assert(!all_digits(s@, bs as int, di as int));
            return None;
        }
        proof {
            lemma_digits_val_nonneg(s@, bs as int, i as int);
        }
        if over {
        } else {
            let nv: i64 = ip * 10 + ((ch - 48) as i64);
            if nv > 32767 {
                over = true;
            } else {
                ip = nv;
            }
        }
        i = i + 1;
    }
    if over {
        return None;
    }
    if di == to {
        if di == bs {
            return None;
        }
        let mag: i64 = ip * 65536;
        proof {
            lemma_digits_val_nonneg(s@, bs as int, di as int);
            assert(0 <= ip as int * 65536 <= 32767 * 65536) by (nonlinear_arith)
                requires
                    0 <= ip as int <= 32767,
            ;
            assert(pow10(0) == 1);
        }
        if neg {
            return Some(-mag);
        }
        return Some(mag);
    }
    // fractional part
    let k: usize = to - (di + 1);
    if k > 9 {
        return None;
    }
    if di == bs && k == 0 {
        return None;
    }
    let mut j: usize = di + 1;
    let mut fd: i64 = 0;
    let mut p10: i64 = 1;
    while j < to
        invariant
            di as int + 1 <= j as int <= to as int,
            all_digits(s@, di as int + 1, j as int),
            fd as int == digits_val(s@, di as int + 1, j as int),
            p10 as int == pow10((j - (di + 1)) as nat),
            0 <= fd as int,
            (fd as int) < (p10 as int),
            p10 as int <= 1000000000,
        decreases to - j,
    {
        let ch = s[j];
        if !(48 <= ch && ch <= 57) {
            assert(!all_digits(s@, di as int + 1, to as int));
            return None;
        }
        proof {
            lemma_digits_val_nonneg(s@, di as int + 1, j as int);
            lemma_digits_val_lt_pow10(s@, di as int + 1, j as int + 1);
            assert(pow10(((j + 1) - (di + 1)) as nat) == 10 * pow10((j - (di + 1)) as nat));
            lemma_pow10_mono(((j + 1) - (di + 1)) as nat, 9);
            lemma_pow10_nine();
            assert(p10 as int * 10 <= 10000000000int) by (nonlinear_arith)
                requires
                    p10 as int <= 1000000000,
            ;
        }
        fd = fd * 10 + ((ch - 48) as i64);
        p10 = p10 * 10;
        j = j + 1;
    }
    proof {
        lemma_digits_val_nonneg(s@, bs as int, di as int);
        lemma_frac_fixed_range(fd as int, p10 as int);
        assert(0 <= ip as int * 65536 <= 32767 * 65536) by (nonlinear_arith)
            requires
                0 <= ip as int <= 32767,
        ;
        assert(0 <= fd as int * 65536 <= 999999999 * 65536int) by (nonlinear_arith)
            requires
                0 <= fd as int <= 999999999,
        ;
    }
    let frac: i64 = (fd * 65536 + p10 / 2) / p10;
    let mag: i64 = ip * 65536 + frac;
    if neg {
        Some(-mag)
    } else {
        Some(mag)
    }
}

/// Parses one `(<x>,<y>)` token.
fn parse_point_range(s: &[u8], from: usize, to: usize) -> (r: Option<Point>)
    requires
        from <= to,
        to <= s@.len(),
    ensures
        r == if point_ok(s@, from as int, to as int) {
            Option::Some(point_val(s@, from as int, to as int))
        } else {
            Option::<Point>::None
        },
        r is Some ==> r.unwrap().wf(),
{
    proof {
        if point_ok(s@, from as int, to as int) {
            lemma_point_val_wf(s@, from as int, to as int);
        }
    }
    if to - from < 2 {
        return None;
    }
    if s[from] != 40 || s[to - 1] != 41 {
        return None;
    }
    let ci: usize = find_from(s, 44, from + 1, to - 1);
    if ci == to - 1 {
        return None;
    }
    let x = match parse_dec(s, from + 1, ci) {
        Some(v) => v,
        None => {
            return None;
        },
    };
    let y = match parse_dec(s, ci + 1, to - 1) {
        Some(v) => v,
        None => {
            return None;
        },
    };
    Some(Point { x, y })
}

/// Parses a whole point token, e.g. `(1.5,-2)`.
pub fn parse_point(outer: &[u8]) -> (r: Option<Point>)
    ensures
        r == if point_ok(outer@, 0, outer@.len() as int) {
            Option::Some(point_val(outer@, 0, outer@.len() as int))
        } else {
            Option::<Point>::None
        },
        r is Some ==> r.unwrap().wf(),
{
    parse_point_range(outer, 0, outer.len())
}

pub open spec fn kw_reset(s: Seq<u8>, end: int) -> bool {
    end == 5 && s[0] == 114 && s[1] == 101 && s[2] == 115 && s[3] == 101 && s[4] == 116
}

pub open spec fn kw_line(s: Seq<u8>, end: int) -> bool {
    end == 4 && s[0] == 108 && s[1] == 105 && s[2] == 110 && s[3] == 101
}

pub open spec fn kw_quad(s: Seq<u8>, end: int) -> bool {
    end == 4 && s[0] == 113 && s[1] == 117 && s[2] == 97 && s[3] == 100
}

/// How one line of the script decodes: a command, a malformed line
/// (decode failure), or a matched instruction with missing fields
/// (sequence failure).
#[verifier::opaque]
pub open spec fn parse_line_spec(s: Seq<u8>) -> LineParse {
    let n = s.len() as int;
    let ci = first_idx_from(s, 58, 0, n);
    if ci == n {
        if kw_reset(s, n) || kw_line(s, n) || kw_quad(s, n) {
            LineParse::Incomplete
        } else {
            LineParse::Malformed
        }
    } else if kw_reset(s, ci) {
        let t0 = skip_ws(s, ci + 1, n);
        let e0 = trim_back(s, t0, n);
        let xi = first_idx_from(s, 120, t0, e0);
        if xi == e0 {
            LineParse::Incomplete
        } else if uint_ok(s, t0, xi, 8192) && uint_ok(s, xi + 1, e0, 8192) {
            LineParse::Parsed(
                Command::Reset(
                    digits_val(s, t0, xi) as usize,
                    digits_val(s, xi + 1, e0) as usize,
                ),
            )
        } else {
            LineParse::Malformed
        }
    } else if kw_line(s, ci) {
        let t0 = skip_ws(s, ci + 1, n);
        let e0 = trim_back(s, t0, n);
        let sp1 = first_idx_from(s, 32, t0, e0);
        if sp1 == e0 {
            LineParse::Incomplete
        } else if first_idx_from(s, 32, sp1 + 1, e0) != e0 {
            LineParse::Malformed
        } else if point_ok(s, t0, sp1) && point_ok(s, sp1 + 1, e0) {
            LineParse::Parsed(Command::Line(point_val(s, t0, sp1), point_val(s, sp1 + 1, e0)))
        } else {
            LineParse::Malformed
        }
    } else if kw_quad(s, ci) {
        let t0 = skip_ws(s, ci + 1, n);
        let e0 = trim_back(s, t0, n);
        let sp1 = first_idx_from(s, 32, t0, e0);
        let sp2 = first_idx_from(s, 32, sp1 + 1, e0);
        if sp1 == e0 || sp2 == e0 {
            LineParse::Incomplete
        } else if first_idx_from(s, 32, sp2 + 1, e0) != e0 {
            LineParse::Malformed
        } else if point_ok(s, t0, sp1) && point_ok(s, sp1 + 1, sp2) && point_ok(
            s,
            sp2 + 1,
            e0,
        ) {
            LineParse::Parsed(
                Command::Quad(
                    point_val(s, t0, sp1),
                    point_val(s, sp1 + 1, sp2),
                    point_val(s, sp2 + 1, e0),
                ),
            )
        } else {
            LineParse::Malformed
        }
    } else {
        LineParse::Malformed
    }
}

impl Command {
    /// Decodes one script line into a command; a line matching no form is
    /// a decode error, a matched instruction with missing fields a
    /// sequence error, each carrying the given line number.
    #[verifier::rlimit(80)]
    pub fn parse(line: &[u8], line_no: usize) -> (res: Result<Command, ScriptError>)
        ensures
            (match parse_line_spec(line@) {
                LineParse::Parsed(c) => res == Result::<Command, ScriptError>::Ok(c) && c.wf(),
                LineParse::Malformed => res == Result::<Command, ScriptError>::Err(
                    ScriptError::Decode { line: line_no },
                ),
                LineParse::Incomplete => res == Result::<Command, ScriptError>::Err(
                    ScriptError::Sequence { line: line_no },
                ),
            }),
    {
        proof {
            reveal(parse_line_spec);
        }
        let n = line.len();
        let ci = find_from(line, 58, 0, n);
        if ci == n {
            let is_reset = n == 5 && line[0] == 114 && line[1] == 101 && line[2] == 115
                && line[3] == 101 && line[4] == 116;
            let is_line = n == 4 && line[0] == 108 && line[1] == 105 && line[2] == 110
                && line[3] == 101;
            let is_quad = n == 4 && line[0] == 113 && line[1] == 117 && line[2] == 97
                && line[3] == 100;
            if is_reset || is_line || is_quad {
                return Err(ScriptError::Sequence { line: line_no });
            }
            return Err(ScriptError::Decode { line: line_no });
        }
        if ci == 5 && line[0] == 114 && line[1] == 101 && line[2] == 115 && line[3] == 101
            && line[4] == 116 {
            let t0 = skip_ws_exec(line, ci + 1, n);
            let e0 = trim_back_exec(line, t0, n);
            let xi = find_from(line, 120, t0, e0);
            if xi == e0 {
                return Err(ScriptError::Sequence { line: line_no });
            }
            let w = match parse_uint(line, t0, xi, 8192) {
                Some(v) => v,
                None => {
                    return Err(ScriptError::Decode { line: line_no });
                },
            };
            let h = match parse_uint(line, xi + 1, e0, 8192) {
                Some(v) => v,
                None => {
                    return Err(ScriptError::Decode { line: line_no });
                },
            };
            proof {
                lemma_digits_val_nonneg(line@, t0 as int, xi as int);
                lemma_digits_val_nonneg(line@, xi as int + 1, e0 as int);
            }
            return Ok(Command::Reset(w, h));
        }
        if ci == 4 && line[0] == 108 && line[1] == 105 && line[2] == 110 && line[3] == 101 {
            let t0 = skip_ws_exec(line, ci + 1, n);
            let e0 = trim_back_exec(line, t0, n);
            let sp1 = find_from(line, 32, t0, e0);
            if sp1 == e0 {
                return Err(ScriptError::Sequence { line: line_no });
            }
            if find_from(line, 32, sp1 + 1, e0) != e0 {
                return Err(ScriptError::Decode { line: line_no });
            }
            let a = match parse_point_range(line, t0, sp1) {
                Some(p) => p,
                None => {
                    return Err(ScriptError::Decode { line: line_no });
                },
            };
            let b = match parse_point_range(line, sp1 + 1, e0) {
                Some(p) => p,
                None => {
                    return Err(ScriptError::Decode { line: line_no });
                },
            };
            return Ok(Command::Line(a, b));
        }
        if ci == 4 && line[0] == 113 && line[1] == 117 && line[2] == 97 && line[3] == 100 {
            let t0 = skip_ws_exec(line, ci + 1, n);
            let e0 = trim_back_exec(line, t0, n);
            let sp1 = find_from(line, 32, t0, e0);
            if sp1 == e0 {
                return Err(ScriptError::Sequence { line: line_no });
            }
            let sp2 = find_from(line, 32, sp1 + 1, e0);
            if sp2 == e0 {
                return Err(ScriptError::Sequence { line: line_no });
            }
            if find_from(line, 32, sp2 + 1, e0) != e0 {
                return Err(ScriptError::Decode { line: line_no });
            }
            let a = match parse_point_range(line, t0, sp1) {
                Some(p) => p,
                None => {
                    return Err(ScriptError::Decode { line: line_no });
                },
            };
            let b = match parse_point_range(line, sp1 + 1, sp2) {
                Some(p) => p,
                None => {
                    return Err(ScriptError::Decode { line: line_no });
                },
            };
            let c = match parse_point_range(line, sp2 + 1, e0) {
                Some(p) => p,
                None => {
                    return Err(ScriptError::Decode { line: line_no });
                },
            };
            return Ok(Command::Quad(a, b, c));
        }
        Err(ScriptError::Decode { line: line_no })
    }
}

/// A line with one trailing carriage return removed, as a `\r\n` ending
/// leaves one.
pub open spec fn strip_cr(l: Seq<u8>) -> Seq<u8> {
    if l.len() > 0 && l.last() == 13 {
        l.drop_last()
    } else {
        l
    }
}

/// The script's lines: split at newlines, each stripped of one trailing
/// carriage return; a trailing newline ends the last line rather than
/// opening an empty one.
pub open spec fn split_lines(s: Seq<u8>) -> Seq<Seq<u8>>
    decreases s.len(),
    via split_lines_decreases
{
    if s.len() == 0 {
        Seq::empty()
    } else {
        let i = first_idx_from(s, 10, 0, s.len() as int);
        if i == s.len() as int {
            seq![strip_cr(s)]
        } else {
            seq![strip_cr(s.subrange(0, i))] + split_lines(s.subrange(i + 1, s.len() as int))
        }
    }
}

#[via_fn]
proof fn split_lines_decreases(s: Seq<u8>) {
    lemma_first_idx_bounds(s, 10, 0, s.len() as int);
}

/// Index of the first line that does not decode to a command, or the line
/// count if all do.
pub open spec fn first_bad_from(lines: Seq<Seq<u8>>, j: int) -> int
    decreases lines.len() - j,
{
    if j >= lines.len() {
        lines.len() as int
    } else if !(parse_line_spec(lines[j]) is Parsed) {
        j
    } else {
        first_bad_from(lines, j + 1)
    }
}

proof fn lemma_first_idx_unique(s: Seq<u8>, ch: u8, i: int, end: int, j: int)
    requires
        i <= j <= end,
        forall|l: int| i <= l < j ==> s[l] != ch,
        j < end ==> s[j] == ch,
    ensures
        first_idx_from(s, ch, i, end) == j,
    decreases j - i,
{
    if i < j {
        lemma_first_idx_unique(s, ch, i + 1, end, j);
    }
}

proof fn lemma_first_bad_skip(lines: Seq<Seq<u8>>, j: int, m: int)
    requires
        0 <= j <= m <= lines.len(),
        forall|l: int| j <= l < m ==> parse_line_spec(#[trigger] lines[l]) is Parsed,
    ensures
        first_bad_from(lines, j) == first_bad_from(lines, m),
    decreases m - j,
{
    if j < m {
        lemma_first_bad_skip(lines, j + 1, m);
    }
}

proof fn lemma_line_extract(text: Seq<u8>, lines: Seq<Seq<u8>>, k: int, pos: int, nl: int, le: int, n: int)
    requires
        text.len() == n,
        0 <= k,
        0 <= pos <= nl <= n,
        pos < n,
        forall|j: int| pos <= j < nl ==> text[j] != 10,
        nl < n ==> text[nl] == 10,
        le == if nl > pos && text[nl - 1] == 13 {
            nl - 1
        } else {
            nl
        },
        k <= lines.len(),
        lines.subrange(k, lines.len() as int) == split_lines(text.subrange(pos, n)),
    ensures
        k < lines.len(),
        lines[k] == text.subrange(pos, le),
        lines.subrange(k + 1, lines.len() as int) == split_lines(
            text.subrange(
                if nl == n {
                    n
                } else {
                    nl + 1
                },
                n,
            ),
        ),
{
    let rem = text.subrange(pos, n);
    assert(rem.len() > 0);
    lemma_first_idx_unique(rem, 10, 0, rem.len() as int, nl - pos);
    if nl == n {
        assert(strip_cr(rem) =~= text.subrange(pos, le));
        assert(lines.subrange(k, lines.len() as int) == seq![strip_cr(rem)]);
        assert(lines.subrange(k, lines.len() as int).len() == 1);
        assert(lines.subrange(k, lines.len() as int)[0] == lines[k]);
        assert(lines[k] == strip_cr(rem));
        assert(text.subrange(n, n) =~= Seq::<u8>::empty());
        assert(lines.subrange(k + 1, lines.len() as int) =~= split_lines(text.subrange(n, n)));
    } else {
        assert(rem.subrange(0, nl - pos) =~= text.subrange(pos, nl));
        assert(strip_cr(text.subrange(pos, nl)) =~= text.subrange(pos, le));
        assert(rem.subrange(nl - pos + 1, rem.len() as int) =~= text.subrange(nl + 1, n));
        let head = strip_cr(text.subrange(pos, nl));
        let tail = split_lines(text.subrange(nl + 1, n));
        let sub = lines.subrange(k, lines.len() as int);
        assert(sub == seq![head] + tail);
        assert(seq![head].len() == 1);
        assert(sub.len() == 1 + tail.len());
        assert((seq![head] + tail)[0] == seq![head][0]);
        assert(seq![head][0] == head);
        assert(sub[0] == lines[k + 0]);
        assert(lines[k] == head);
        assert forall|i: int| 0 <= i < lines.len() - (k + 1) implies lines.subrange(
            k + 1,
            lines.len() as int,
        )[i] == tail[i] by {
            assert(sub[i + 1] == lines[k + (i + 1)]);
            assert(lines.subrange(k + 1, lines.len() as int)[i] == lines[k + 1 + i]);
            assert((seq![head] + tail)[i + 1] == tail[i + 1 - 1]);
        }
        assert(lines.subrange(k + 1, lines.len() as int) =~= tail);
    }
}

/// Decodes a whole script, one command per line, stopping at the first
/// line that fails: the result is the full command list exactly when
/// every line parses, else the error of the first offending line with its
/// 1-based number.
#[verifier::loop_isolation(false)]
#[verifier::rlimit(100)]
pub fn parse_script(text: &[u8]) -> (res: Result<Vec<Command>, ScriptError>)
    ensures
        res is Ok <==> first_bad_from(split_lines(text@), 0) == split_lines(text@).len(),
        (res matches Ok(cmds) ==> cmds@.len() == split_lines(text@).len() && forall|j: int|
            0 <= j < cmds@.len() ==> parse_line_spec(split_lines(text@)[j])
                == LineParse::Parsed(#[trigger] cmds@[j]) && cmds@[j].wf()),
        (res matches Err(e) ==> {
            let k = first_bad_from(split_lines(text@), 0);
            &&& k < split_lines(text@).len()
            &&& e == (match parse_line_spec(split_lines(text@)[k]) {
                LineParse::Incomplete => ScriptError::Sequence { line: (k + 1) as usize },
                _ => ScriptError::Decode { line: (k + 1) as usize },
            })
        }),
{
    let ghost lines = split_lines(text@);
    let n = text.len();
    let mut cmds: Vec<Command> = Vec::new();
    let mut pos: usize = 0;
    let mut k: usize = 0;
    proof {
        assert(text@.subrange(0, n as int) =~= text@);
        assert(lines.subrange(0, lines.len() as int) =~= lines);
    }
    while pos < n
        invariant
            pos <= n,
            k as int <= pos as int,
            k as int <= lines.len(),
            lines.subrange(k as int, lines.len() as int) == split_lines(
                text@.subrange(pos as int, n as int),
            ),
            cmds@.len() == k as int,
            forall|j: int|
                0 <= j < k as int ==> parse_line_spec(lines[j]) == LineParse::Parsed(
                    #[trigger] cmds@[j],
                ) && cmds@[j].wf(),
        decreases n - pos,
    {
        let nl = find_from(text, 10, pos, n);
        let mut le = nl;
        if le > pos && text[le - 1] == 13 {
            le = le - 1;
        }
        let mut buf: Vec<u8> = Vec::new();
        let mut t = pos;
        while t < le
            invariant
                pos <= t <= le,
                le <= n,
                buf@ == text@.subrange(pos as int, t as int),
            decreases le - t,
        {
            buf.push(text[t]);
            proof {
                assert(buf@ =~= text@.subrange(pos as int, t as int + 1));
            }
            t = t + 1;
        }
        let ghost nxt: int = if nl == n {
            n as int
        } else {
            nl as int + 1
        };
        proof {
            lemma_line_extract(text@, lines, k as int, pos as int, nl as int, le as int, n as int);
        }
        match Command::parse(buf.as_slice(), k + 1) {
            Ok(c) => {
                cmds.push(c);
            },
            Err(e) => {
                proof {
                    assert forall|l: int| 0 <= l < k as int implies parse_line_spec(
                        #[trigger] lines[l],
                    ) is Parsed by {
                        assert(parse_line_spec(lines[l]) == LineParse::Parsed(cmds@[l]));
                    }
                    lemma_first_bad_skip(lines, 0, k as int);
                }
                return Err(e);
            },
        }
        k = k + 1;
        pos = if nl == n {
            n
        } else {
            nl + 1
        };
    }
    proof {
        assert(text@.subrange(n as int, n as int) =~= Seq::<u8>::empty());
        assert(lines.subrange(k as int, lines.len() as int).len() == 0);
        assert(k as int == lines.len());
        assert forall|l: int| 0 <= l < k as int implies parse_line_spec(
            #[trigger] lines[l],
        ) is Parsed by {
            assert(parse_line_spec(lines[l]) == LineParse::Parsed(cmds@[l]));
        }
        lemma_first_bad_skip(lines, 0, k as int);
    }
    Ok(cmds)
}

/// Runtime check that every command is within the engine's limits, for
/// callers outside the verified world.
pub fn commands_wf(commands: &[Command]) -> (r: bool)
    ensures
        r == (forall|i: int| 0 <= i < commands@.len() ==> (#[trigger] commands@[i]).wf()),
{
    let mut i: usize = 0;
    while i < commands.len()
        invariant
            i <= commands@.len(),
            forall|j: int| 0 <= j < i as int ==> (#[trigger] commands@[j]).wf(),
        decreases commands@.len() - i,
    {
        let ok: bool = match commands[i] {
            Command::Reset(w, h) => w <= MAX_DIM && h <= MAX_DIM,
            Command::Line(a, b) => a.is_wf() && b.is_wf(),
            Command::Quad(a, b, c) => a.is_wf() && b.is_wf() && c.is_wf(),
        };
        if !ok {
            return false;
        }
        i = i + 1;
    }
    true
}

/// A mathematical model of the engine state: the sized flag, the raster
/// dimensions, and the accumulator cells as a flat row-major sequence
/// (stride `width + 1`).
pub struct RasterModel {
    pub sized: bool,
    pub width: int,
    pub height: int,
    pub cells: Seq<int>,
}

pub open spec fn model_of(r: Rasterizer) -> RasterModel {
    RasterModel {
        sized: r.sized,
        width: r.acc.width as int,
        height: r.acc.height as int,
        cells: Seq::new(r.acc.cells@.len(), |i: int| r.acc.cells@[i] as int),
    }
}

/// What one command does to the engine state: a reset yields a fresh
/// zeroed buffer of the new dimensions; a draw on a sized engine adds its
/// deposits to every cell; a draw on an unsized engine is rejected and
/// changes nothing.
pub open spec fn apply_cmd(m: RasterModel, cmd: Command) -> RasterModel {
    match cmd {
        Command::Reset(w, h) => RasterModel {
            sized: true,
            width: w as int,
            height: h as int,
            cells: Seq::new((((w as int) + 1) * (h as int)) as nat, |i: int| 0),
        },
        Command::Line(a, b) => if m.sized {
            RasterModel {
                sized: m.sized,
                width: m.width,
                height: m.height,
                cells: Seq::new(
                    m.cells.len(),
                    |i: int|
                        sat_add(
                            m.cells[i],
                            line_deposit(m.width, a, b, i / (m.width + 1), i % (m.width + 1)),
                        ),
                ),
            }
        } else {
            m
        },
        Command::Quad(a, b, c) => if m.sized {
            RasterModel {
                sized: m.sized,
                width: m.width,
                height: m.height,
                cells: Seq::new(
                    m.cells.len(),
                    |i: int|
                        deposit_chain(
                            m.width,
                            flatten_spec(a, b, c, DEFAULT_TOLERANCE as int, MAX_SPLIT_DEPTH as nat),
                            i / (m.width + 1),
                            i % (m.width + 1),
                            m.cells[i],
                        ),
                ),
            }
        } else {
            m
        },
    }
}

pub open spec fn apply_cmds(m: RasterModel, cmds: Seq<Command>) -> RasterModel
    decreases cmds.len(),
{
    if cmds.len() == 0 {
        m
    } else {
        apply_cmd(apply_cmds(m, cmds.drop_last()), cmds.last())
    }
}

/// Index of the first draw command that no reset precedes, or the command
/// count if the script is properly sequenced.
pub open spec fn first_unsequenced(cmds: Seq<Command>, i: int, seen_reset: bool) -> int
    decreases cmds.len() - i,
{
    if i >= cmds.len() {
        cmds.len() as int
    } else if cmds[i].is_reset() {
        first_unsequenced(cmds, i + 1, true)
    } else if seen_reset {
        first_unsequenced(cmds, i + 1, seen_reset)
    } else {
        i
    }
}

/// Every draw command is preceded by a reset.
pub open spec fn commands_sequenced(cmds: Seq<Command>) -> bool {
    first_unsequenced(cmds, 0, false) == cmds.len()
}

proof fn lemma_apply_cmds_wf(m: RasterModel, cmds: Seq<Command>, j: int)
    requires
        0 <= j <= cmds.len(),
    ensures
        apply_cmds(m, cmds.subrange(0, j)) == if j == 0 {
            m
        } else {
            apply_cmd(apply_cmds(m, cmds.subrange(0, j - 1)), cmds[j - 1])
        },
{
    if j == 0 {
        assert(cmds.subrange(0, 0) =~= Seq::<Command>::empty());
    } else {
        assert(cmds.subrange(0, j).drop_last() =~= cmds.subrange(0, j - 1));
        assert(cmds.subrange(0, j).last() == cmds[j - 1]);
    }
}

/// Applies the decoded commands to the engine in order.  A draw issued
/// before any reset in the list is rejected (with the 1-based position of
/// the offending command) before anything is applied; otherwise every
/// command is applied and the engine ends in exactly the folded state.
#[verifier::loop_isolation(false)]
#[verifier::rlimit(100)]
pub fn rasterize_glyph(rast: &mut Rasterizer, commands: &[Command]) -> (res: Result<
    (),
    ScriptError,
>)
    requires
        old(rast).wf(),
        forall|i: int| 0 <= i < commands@.len() ==> (#[trigger] commands@[i]).wf(),
    ensures
        final(rast).wf(),
        commands_sequenced(commands@) ==> res == Result::<(), ScriptError>::Ok(()) && model_of(
            *final(rast),
        ) == apply_cmds(model_of(*old(rast)), commands@),
        !commands_sequenced(commands@) ==> res == Result::<(), ScriptError>::Err(
            ScriptError::Sequence { line: (first_unsequenced(commands@, 0, false) + 1) as usize },
        ) && *final(rast) == *old(rast),
{
    // sequencing check first, so that a bad script leaves the engine
    // untouched
    let mut i: usize = 0;
    let mut seen_reset: bool = false;
    while i < commands.len()
        invariant
            i <= commands@.len(),
            first_unsequenced(commands@, 0, false) == first_unsequenced(
                commands@,
                i as int,
                seen_reset,
            ),
        decreases commands@.len() - i,
    {
        match commands[i] {
            Command::Reset(_, _) => {
                seen_reset = true;
            },
            _ => {
                if !seen_reset {
                    return Err(ScriptError::Sequence { line: i + 1 });
                }
            },
        }
        i = i + 1;
    }
    // apply
    let ghost m0 = model_of(*rast);
    let mut j: usize = 0;
    while j < commands.len()
        invariant
            j <= commands@.len(),
            rast.wf(),
            commands_sequenced(commands@),
            model_of(*rast) == apply_cmds(m0, commands@.subrange(0, j as int)),
        decreases commands@.len() - j,
    {
        proof {
            lemma_apply_cmds_wf(m0, commands@, j as int + 1);
        }
        let ghost before = *rast;
        match commands[j] {
            Command::Reset(w, h) => {
                rast.resize(w, h);
                proof {
                    assert(model_of(*rast).cells =~= apply_cmd(
                        model_of(before),
                        commands@[j as int],
                    ).cells);
                    assert(model_of(*rast) == apply_cmd(model_of(before), commands@[j as int]));
                }
            },
            Command::Line(a, b) => {
                proof {
                    lemma_sequenced_draw_sized(commands@, j as int, m0, model_of(*rast));
                }
                let _ = rast.draw_line(a, b);
                proof {
                    lemma_model_line_step(before, *rast, a, b);
                }
            },
            Command::Quad(a, b, c) => {
                proof {
                    lemma_sequenced_draw_sized(commands@, j as int, m0, model_of(*rast));
                }
                let _ = rast.draw_quad(a, b, c);
                proof {
                    lemma_model_quad_step(before, *rast, a, b, c);
                }
            },
        }
        j = j + 1;
    }
    proof {
        assert(commands@.subrange(0, commands@.len() as int) =~= commands@);
    }
    Ok(())
}

/// In a sequenced script, some reset precedes every draw, so the engine
/// is sized when a draw is applied.
proof fn lemma_sequenced_draw_sized(cmds: Seq<Command>, j: int, m0: RasterModel, m: RasterModel)
    requires
        0 <= j < cmds.len(),
        commands_sequenced(cmds),
        !cmds[j].is_reset(),
        m == apply_cmds(m0, cmds.subrange(0, j)),
    ensures
        m.sized,
{
    let k = lemma_unseq_reset_before(cmds, 0, false, j);
    lemma_apply_keeps_sized(m0, cmds, k + 1, j);
}

/// A non-reset command at `j` that `first_unsequenced` passes over has a
/// reset strictly before it.
proof fn lemma_unseq_reset_before(cmds: Seq<Command>, i: int, seen_reset: bool, j: int) -> (k: int)
    requires
        0 <= i <= j < cmds.len(),
        !cmds[j].is_reset(),
        first_unsequenced(cmds, i, seen_reset) > j,
        !seen_reset,
    ensures
        i <= k < j,
        cmds[k].is_reset(),
    decreases j - i,
{
    if cmds[i].is_reset() {
        i
    } else {
        lemma_unseq_reset_before(cmds, i + 1, seen_reset, j)
    }
}

/// Once a reset has been applied, the model stays sized.
proof fn lemma_apply_keeps_sized(m0: RasterModel, cmds: Seq<Command>, e: int, j: int)
    requires
        0 < e <= j < cmds.len(),
        cmds[e - 1].is_reset(),
    ensures
        apply_cmds(m0, cmds.subrange(0, e)).sized,
        forall|l: int|
            e <= l <= j && apply_cmds(m0, cmds.subrange(0, l)).sized ==> apply_cmds(
                m0,
                #[trigger] cmds.subrange(0, l + 1),
            ).sized,
        apply_cmds(m0, cmds.subrange(0, j)).sized,
    decreases j,
{
    lemma_apply_cmds_wf(m0, cmds, e);
    assert forall|l: int|
        e <= l <= j && apply_cmds(m0, cmds.subrange(0, l)).sized implies apply_cmds(
        m0,
        #[trigger] cmds.subrange(0, l + 1),
    ).sized by {
        lemma_apply_cmds_wf(m0, cmds, l + 1);
    }
    if j > e {
        lemma_apply_keeps_sized(m0, cmds, e, j - 1);
        lemma_apply_cmds_wf(m0, cmds, j);
    }
}

/// The engine's per-cell guarantee for a line, restated over the flat
/// model sequence.
proof fn lemma_model_line_step(before: Rasterizer, after: Rasterizer, a: Point, b: Point)
    requires
        before.wf(),
        before.sized,
        after.wf(),
        after.sized == before.sized,
        after.width_spec() == before.width_spec(),
        after.height_spec() == before.height_spec(),
        after.acc.cells@.len() == before.acc.cells@.len(),
        forall|r: int, c: int|
            0 <= r < before.height_spec() && 0 <= c <= before.width_spec()
                ==> #[trigger] after.acc.cell(r, c) == sat_add(
                before.acc.cell(r, c),
                line_deposit(before.width_spec(), a, b, r, c),
            ),
    ensures
        model_of(after) == apply_cmd(model_of(before), Command::Line(a, b)),
{
    let m = model_of(before);
    let stride = m.width + 1;
    assert forall|i: int| 0 <= i < m.cells.len() implies model_of(after).cells[i] == sat_add(
        m.cells[i],
        line_deposit(m.width, a, b, i / stride, i % stride),
    ) by {
        vstd::arithmetic::div_mod::lemma_mod_bound(i, stride);
        vstd::arithmetic::div_mod::lemma_div_pos_is_pos(i, stride);
        vstd::arithmetic::div_mod::lemma_multiply_divide_lt(i, stride, m.height);
        vstd::arithmetic::div_mod::lemma_fundamental_div_mod(i, stride);
        let r = i / stride;
        let c = i % stride;
        assert(i == r * stride + c) by (nonlinear_arith)
            requires
                i == stride * (i / stride) + i % stride,
                r == i / stride,
                c == i % stride,
        ;
        assert(after.acc.cell(r, c) == sat_add(
            before.acc.cell(r, c),
            line_deposit(m.width, a, b, r, c),
        ));
    }
    assert(model_of(after).cells =~= apply_cmd(m, Command::Line(a, b)).cells);
}

/// The engine's per-cell guarantee for a quad, restated over the flat
/// model sequence.
proof fn lemma_model_quad_step(before: Rasterizer, after: Rasterizer, a: Point, b: Point, c: Point)
    requires
        before.wf(),
        before.sized,
        after.wf(),
        after.sized == before.sized,
        after.width_spec() == before.width_spec(),
        after.height_spec() == before.height_spec(),
        after.acc.cells@.len() == before.acc.cells@.len(),
        forall|r: int, cc: int|
            0 <= r < before.height_spec() && 0 <= cc <= before.width_spec()
                ==> #[trigger] after.acc.cell(r, cc) == deposit_chain(
                before.width_spec(),
                flatten_spec(a, b, c, DEFAULT_TOLERANCE as int, MAX_SPLIT_DEPTH as nat),
                r,
                cc,
                before.acc.cell(r, cc),
            ),
    ensures
        model_of(after) == apply_cmd(model_of(before), Command::Quad(a, b, c)),
{
    let m = model_of(before);
    let stride = m.width + 1;
    let segs = flatten_spec(a, b, c, DEFAULT_TOLERANCE as int, MAX_SPLIT_DEPTH as nat);
    assert forall|i: int| 0 <= i < m.cells.len() implies model_of(after).cells[i] == deposit_chain(
        m.width,
        segs,
        i / stride,
        i % stride,
        m.cells[i],
    ) by {
        vstd::arithmetic::div_mod::lemma_mod_bound(i, stride);
        vstd::arithmetic::div_mod::lemma_div_pos_is_pos(i, stride);
        vstd::arithmetic::div_mod::lemma_multiply_divide_lt(i, stride, m.height);
        vstd::arithmetic::div_mod::lemma_fundamental_div_mod(i, stride);
        let r = i / stride;
        let cc = i % stride;
        assert(i == r * stride + cc) by (nonlinear_arith)
            requires
                i == stride * (i / stride) + i % stride,
                r == i / stride,
                cc == i % stride,
        ;
        assert(after.acc.cell(r, cc) == deposit_chain(
            m.width,
            segs,
            r,
            cc,
            before.acc.cell(r, cc),
        ));
    }
    assert(model_of(after).cells =~= apply_cmd(m, Command::Quad(a, b, c)).cells);
}

} // verus!
