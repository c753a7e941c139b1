//! Fixed-point trigonometry on angles in radians scaled by `ONE`.
//!
//! Every quantity here is a non-negative integer `v` standing for the real
//! number `v / ONE`. The sine is a truncated Taylor series evaluated by
//! Horner's rule; the inverse needed by the haversine formula is found by
//! bisection against that same sine, so the two are consistent with each other.
use vstd::prelude::*;
use vstd::arithmetic::div_mod::{
    lemma_div_is_ordered,
    lemma_div_by_multiple,
    lemma_div_is_ordered_by_denominator,
    lemma_div_pos_is_pos,
};
use vstd::arithmetic::mul::{lemma_mul_inequality, lemma_mul_upper_bound};

verus! {

/// The fixed-point scale: `ONE` stands for `1.0`.
pub const ONE: u128 = 1_000_000_000_000_000_000;

/// `pi / 2` at scale `ONE`.
pub const HALF_PI: u128 = 1_570_796_326_794_896_619;

/// `pi` at scale `ONE` (exactly twice `HALF_PI`).
pub const PI: u128 = 3_141_592_653_589_793_238;

/// One Horner step of the sine series: `1 - x2 * t / d`, all at scale `ONE`.
pub open spec fn series_step(x2: int, t: int, d: int) -> int {
    ONE - x2 * t / d
}

/// The sine of `x` (radians at scale `ONE`), by the Taylor series up to the
/// term in `x^11`:
/// `x (1 - x²/6 (1 - x²/20 (1 - x²/42 (1 - x²/72 (1 - x²/110)))))`.
pub open spec fn sin_fx(x: int) -> int {
    let x2 = x * x / (ONE as int);
    let t5 = series_step(x2, ONE as int, 110 * ONE);
    let t4 = series_step(x2, t5, 72 * ONE);
    let t3 = series_step(x2, t4, 42 * ONE);
    let t2 = series_step(x2, t3, 20 * ONE);
    let t1 = series_step(x2, t2, 6 * ONE);
    x * t1 / (ONE as int)
}

/// The square of the sine of `x`, at scale `ONE`.
pub open spec fn sin_sq_fx(x: int) -> int {
    sin_fx(x) * sin_fx(x) / (ONE as int)
}

/// Bisection over `[lo, hi]` for the angle whose squared sine reaches `a`:
/// the interval is halved, keeping the half where `sin_sq_fx` crosses `a`,
/// until it is at most one unit wide; its lower end is the result.
pub open spec fn arc_search(a: int, lo: int, hi: int) -> int
    decreases hi - lo,
{
    if hi - lo <= 1 {
        lo
    } else {
        let mid = lo + (hi - lo) / 2;
        if sin_sq_fx(mid) < a {
            arc_search(a, mid, hi)
        } else {
            arc_search(a, lo, mid)
        }
    }
}

/// The angle in `[0, pi/2]` whose squared sine is `a` (`asin(sqrt(a))`).
pub open spec fn arc_fx(a: int) -> int {
    arc_search(a, 0, HALF_PI as int)
}

proof fn lemma_step_bound(x2: int, t: int, d: int)
    requires
        0 <= x2 <= 3 * ONE,
        0 <= t <= ONE,
        d >= 6 * ONE,
    ensures
        0 <= x2 * t <= 3 * ONE * ONE,
        0 <= x2 * t / d <= ONE / 2,
{
    lemma_mul_upper_bound(x2, 3 * ONE, t, ONE as int);
    assert(0 <= x2 * t) by (nonlinear_arith)
        requires
            0 <= x2,
            0 <= t,
    ;
    lemma_div_pos_is_pos(x2 * t, d);
    lemma_div_is_ordered(x2 * t, 3 * ONE * ONE, d);
    lemma_div_is_ordered_by_denominator(3 * ONE * ONE, 6 * ONE, d);
    assert((ONE / 2) * (6 * ONE) == 3 * ONE * ONE) by (nonlinear_arith)
        requires
            ONE == 1_000_000_000_000_000_000u128,
    ;
    lemma_div_by_multiple((ONE / 2) as int, 6 * ONE);
}

fn series_step_exec(x2: u128, t: u128, d: u128) -> (r: u128)
    requires
        x2 <= 3 * ONE,
        t <= ONE,
        d >= 6 * ONE,
    ensures
        r == series_step(x2 as int, t as int, d as int),
        ONE / 2 <= r <= ONE,
{
    proof {
        lemma_step_bound(x2 as int, t as int, d as int);
    }
    ONE - x2 * t / d
}

/// Bounds shared by `sin_fx` and its square on `[0, pi/2]`.
pub proof fn lemma_sin_bounds(x: int)
    requires
        0 <= x <= HALF_PI,
    ensures
        0 <= sin_fx(x) <= x,
        0 <= sin_sq_fx(x) <= 3 * ONE,
        x * x <= HALF_PI * HALF_PI,
{
    lemma_mul_upper_bound(x, HALF_PI as int, x, HALF_PI as int);
    assert(0 <= x * x) by (nonlinear_arith)
        requires
            0 <= x,
    ;
    let x2 = x * x / (ONE as int);
    lemma_div_pos_is_pos(x * x, ONE as int);
    lemma_div_is_ordered(x * x, HALF_PI * HALF_PI, ONE as int);
    assert(HALF_PI * HALF_PI / (ONE as int) <= 3 * ONE);
    let t5 = series_step(x2, ONE as int, 110 * ONE);
    lemma_step_bound(x2, ONE as int, 110 * ONE);
    let t4 = series_step(x2, t5, 72 * ONE);
    lemma_step_bound(x2, t5, 72 * ONE);
    let t3 = series_step(x2, t4, 42 * ONE);
    lemma_step_bound(x2, t4, 42 * ONE);
    let t2 = series_step(x2, t3, 20 * ONE);
    lemma_step_bound(x2, t3, 20 * ONE);
    let t1 = series_step(x2, t2, 6 * ONE);
    lemma_step_bound(x2, t2, 6 * ONE);
    lemma_mul_inequality(t1, ONE as int, x);
    assert(0 <= x * t1) by (nonlinear_arith)
        requires
            0 <= x,
            0 <= t1,
    ;
    assert(t1 * x == x * t1 && (ONE as int) * x == x * (ONE as int)) by (nonlinear_arith);
    lemma_div_pos_is_pos(x * t1, ONE as int);
    lemma_div_is_ordered(x * t1, x * (ONE as int), ONE as int);
    assert(x * (ONE as int) / (ONE as int) == x) by (nonlinear_arith);
    let s = sin_fx(x);
    lemma_mul_upper_bound(s, HALF_PI as int, s, HALF_PI as int);
    assert(0 <= s * s) by (nonlinear_arith)
        requires
            0 <= s,
    ;
    lemma_div_pos_is_pos(s * s, ONE as int);
    lemma_div_is_ordered(s * s, HALF_PI * HALF_PI, ONE as int);
}

/// The fixed-point sine of `x`, for `x` in `[0, pi/2]`.
pub fn sin_exec(x: u128) -> (r: u128)
    requires
        x <= HALF_PI,
    ensures
        r == sin_fx(x as int),
        r <= x,
{
    proof {
        lemma_sin_bounds(x as int);
    }
    let x2 = x * x / ONE;
    let t5 = series_step_exec(x2, ONE, 110 * ONE);
    let t4 = series_step_exec(x2, t5, 72 * ONE);
    let t3 = series_step_exec(x2, t4, 42 * ONE);
    let t2 = series_step_exec(x2, t3, 20 * ONE);
    let t1 = series_step_exec(x2, t2, 6 * ONE);
    x * t1 / ONE
}

/// The fixed-point squared sine of `x`, for `x` in `[0, pi/2]`.
pub fn sin_sq_exec(x: u128) -> (r: u128)
    requires
        x <= HALF_PI,
    ensures
        r == sin_sq_fx(x as int),
        r <= 3 * ONE,
{
    proof {
        lemma_sin_bounds(x as int);
    }
    let s = sin_exec(x);
    proof {
        lemma_mul_upper_bound(s as int, HALF_PI as int, s as int, HALF_PI as int);
    }
    s * s / ONE
}

/// The angle whose squared sine is `a`, found by bisection over `[0, pi/2]`.
///
/// The result brackets the crossing: its own squared sine is below `a`
/// (or it is zero), and one unit further the squared sine reaches `a`
/// (or that is the end of the interval).
pub fn arc_exec(a: u128) -> (r: u128)
    ensures
        r == arc_fx(a as int),
        r < HALF_PI,
        r == 0 || sin_sq_fx(r as int) < a,
        r + 1 == HALF_PI || sin_sq_fx(r + 1) >= a,
{
    let mut lo: u128 = 0;
    let mut hi: u128 = HALF_PI;
    while hi - lo > 1
        invariant
            lo < hi <= HALF_PI,
            arc_search(a as int, lo as int, hi as int) == arc_fx(a as int),
            lo == 0 || sin_sq_fx(lo as int) < a,
            hi == HALF_PI || sin_sq_fx(hi as int) >= a,
        decreases hi - lo,
    {
        let mid = lo + (hi - lo) / 2;
        if sin_sq_exec(mid) < a {
            lo = mid;
        } else {
            hi = mid;
        }
    }
    lo
}

/// A squared sine of zero is reached at angle zero.
pub proof fn lemma_arc_of_zero(lo: int, hi: int)
    requires
        0 <= lo <= hi,
    ensures
        arc_search(0, lo, hi) == lo,
    decreases hi - lo,
{
    if hi - lo > 1 {
        let mid = lo + (hi - lo) / 2;
        lemma_sin_nonneg_sq(mid);
        lemma_arc_of_zero(lo, mid);
    }
}

proof fn lemma_sin_nonneg_sq(x: int)
    ensures
        sin_sq_fx(x) >= 0,
{
    let s = sin_fx(x);
    assert(s * s >= 0) by (nonlinear_arith);
    lemma_div_pos_is_pos(s * s, ONE as int);
}

/// The bisection stays within its interval.
pub proof fn lemma_arc_search_range(a: int, lo: int, hi: int)
    requires
        lo <= hi,
    ensures
        lo <= arc_search(a, lo, hi) <= hi,
    decreases hi - lo,
{
    if hi - lo > 1 {
        let mid = lo + (hi - lo) / 2;
        lemma_arc_search_range(a, mid, hi);
        lemma_arc_search_range(a, lo, mid);
    }
}

} // verus!
