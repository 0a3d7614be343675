use vstd::arithmetic::div_mod::*;
use vstd::prelude::*;

verus! {

/// The fixed-point value that stands for 1.0.
pub const FULL_SCALE: i64 = 1_000_000;

/// Coefficients are written in units of one ten-millionth.
pub const COEF_SCALE: i64 = 10_000_000;

/// `x * c / COEF_SCALE`, rounded toward zero.
pub open spec fn coef(x: int, c: int) -> int {
    if x * c >= 0 {
        (x * c) / (COEF_SCALE as int)
    } else {
        -((-(x * c)) / (COEF_SCALE as int))
    }
}

pub open spec fn abs(x: int) -> int {
    if x >= 0 { x } else { -x }
}

/// A product bounded by `b * COEF_SCALE` gives a scaled value bounded by `b`.
pub proof fn lemma_coef_bound(x: int, c: int, b: int)
    requires
        b >= 0,
        abs(x * c) <= b * COEF_SCALE,
    ensures
        abs(coef(x, c)) <= b,
{
    let d = COEF_SCALE as int;
    let p = abs(x * c);
    lemma_div_is_ordered(p, b * d, d);
    lemma_div_by_multiple(b, d);
    lemma_div_pos_is_pos(p, d);
}

/// Multiplies `x` by the coefficient `c` (in units of `1 / COEF_SCALE`),
/// rounding toward zero.
pub fn mul_coef(x: i64, c: i64) -> (r: i64)
    requires
        -1_000_000_000 <= x <= 1_000_000_000,
        -100_000_000 <= c <= 100_000_000,
    ensures
        r == coef(x as int, c as int),
{
    assert(-100_000_000_000_000_000 <= x * c <= 100_000_000_000_000_000) by (nonlinear_arith)
        requires
            -1_000_000_000 <= x <= 1_000_000_000,
            -100_000_000 <= c <= 100_000_000,
    ;
    let p: i64 = x * c;
    if p >= 0 {
        p / COEF_SCALE
    } else {
        -((-p) / COEF_SCALE)
    }
}

/// The same scaling on wide integers, for accumulators kept at fine resolution.
pub fn mul_coef_wide(x: i128, c: i128) -> (r: i128)
    requires
        -10_000_000_000_000_000 <= x <= 10_000_000_000_000_000,
        -100_000_000 <= c <= 100_000_000,
    ensures
        r == coef(x as int, c as int),
{
    assert(-1_000_000_000_000_000_000_000_000 <= x * c <= 1_000_000_000_000_000_000_000_000) by (nonlinear_arith)
        requires
            -10_000_000_000_000_000 <= x <= 10_000_000_000_000_000,
            -100_000_000 <= c <= 100_000_000,
    ;
    let p: i128 = x * c;
    if p >= 0 {
        p / (COEF_SCALE as i128)
    } else {
        -((-p) / (COEF_SCALE as i128))
    }
}

/// `x / d` rounded to the nearest integer, halves away from zero.
pub open spec fn round_div(x: int, d: int) -> int {
    if x >= 0 {
        (x + d / 2) / d
    } else {
        -((-x + d / 2) / d)
    }
}

/// A value bounded by `k * d` divides to one bounded by `k + 1`.
pub proof fn lemma_round_div_bound(x: int, d: int, k: int)
    requires
        d > 0,
        k >= 0,
        abs(x) <= k * d,
    ensures
        abs(round_div(x, d)) <= k + 1,
{
    assert((k + 1) * d == k * d + d) by (nonlinear_arith);
    assert(abs(x) + d / 2 <= (k + 1) * d);
    lemma_div_is_ordered(abs(x) + d / 2, (k + 1) * d, d);
    lemma_div_by_multiple(k + 1, d);
    lemma_div_pos_is_pos(abs(x) + d / 2, d);
}

/// Divides by `d`, rounding to nearest.
pub fn div_round(x: i128, d: i128) -> (r: i128)
    requires
        d > 0,
        -1_000_000_000_000_000_000_000_000 <= x <= 1_000_000_000_000_000_000_000_000,
        d <= 1_000_000_000_000_000_000_000_000,
    ensures
        r == round_div(x as int, d as int),
{
    if x >= 0 {
        (x + d / 2) / d
    } else {
        -((-x + d / 2) / d)
    }
}

} // verus!
