//! Fixed-point log-space score arithmetic.
//!
//! A score is an `i64` counting units of `2^-20`: `FIXED_ONE` units stand for
//! a real score of `1.0`. All additive operations clamp at `SCORE_CAP`, a
//! bound far beyond what any decode can accumulate, so every operation is
//! total and exactly specified. Log-sum-exp merging of two scores goes through
//! `libm`; its transcendental kernel is named rather than restated.

use vstd::prelude::*;

verus! {

/// Number of fixed-point units in a real score of 1.0.
pub const FIXED_ONE: i64 = 0x100000;

/// Magnitude at which score additions clamp (2^62 units).
pub const SCORE_CAP: i64 = 0x4000_0000_0000_0000;

/// Upper bound, in units, of `ln 2` rounded to the nearest unit.
pub const LN2_UNITS_BOUND: i64 = 726818;

/// Gap, in units, beyond which the log-sum-exp correction rounds to zero.
pub const LSE_GAP_LIMIT: i64 = 16 * 0x100000;

/// Clamps a mathematical score into `[-SCORE_CAP, SCORE_CAP]`.
pub open spec fn clamp_score(x: int) -> int {
    if x > SCORE_CAP as int {
        SCORE_CAP as int
    } else if x < -(SCORE_CAP as int) {
        -(SCORE_CAP as int)
    } else {
        x
    }
}

/// Clamped addition of two scores.
pub open spec fn spec_cap_add(a: int, b: int) -> int {
    clamp_score(a + b)
}

/// Adds two scores, clamping at `SCORE_CAP`; exact on all realistic inputs.
pub fn cap_add(a: i64, b: i64) -> (r: i64)
    ensures
        r as int == spec_cap_add(a as int, b as int),
{
    let s: i128 = a as i128 + b as i128;
    if s > SCORE_CAP as i128 {
        SCORE_CAP
    } else if s < -(SCORE_CAP as i128) {
        -SCORE_CAP
    } else {
        s as i64
    }
}

pub open spec fn abs_int(x: int) -> int {
    if x < 0 {
        -x
    } else {
        x
    }
}

/// Product of a fixed-point weight and a fixed-point score, scaled back to
/// units: magnitudes are multiplied, divided by `FIXED_ONE` (truncated), then
/// the sign is restored and the result clamped.
pub open spec fn spec_mul_weight(w: int, l: int) -> int {
    let m = (abs_int(w) * abs_int(l)) / (FIXED_ONE as int);
    clamp_score(if (w < 0) != (l < 0) {
        -m
    } else {
        m
    })
}

/// Applies a fixed-point weight to a fixed-point score.
pub fn mul_weight(w: i64, l: i64) -> (r: i64)
    ensures
        r as int == spec_mul_weight(w as int, l as int),
{
    let wi: i128 = w as i128;
    let li: i128 = l as i128;
    let wa: u128 = (if wi < 0 {
        -wi
    } else {
        wi
    }) as u128;
    let la: u128 = (if li < 0 {
        -li
    } else {
        li
    }) as u128;
    assert(wa * la <= 0x8000_0000_0000_0000u128 * 0x8000_0000_0000_0000u128) by (nonlinear_arith)
        requires
            wa <= 0x8000_0000_0000_0000u128,
            la <= 0x8000_0000_0000_0000u128,
    ;
    let m: u128 = (wa * la) / (FIXED_ONE as u128);
    let mc: u128 = if m > SCORE_CAP as u128 {
        SCORE_CAP as u128
    } else {
        m
    };
    assert(mc as int == clamp_score(((wa * la) as int) / (FIXED_ONE as int)));
    if (w < 0) != (l < 0) {
        -(mc as i64)
    } else {
        mc as i64
    }
}

/// A weight of zero cancels any score: the combined score of a candidate is
/// then independent of what the language model returned.
pub proof fn lemma_zero_weight_cancels(l: int)
    ensures
        spec_mul_weight(0, l) == 0,
{
    let al = abs_int(l);
    assert(abs_int(0) == 0);
    assert(0int * al == 0) by (nonlinear_arith);
    vstd::arithmetic::div_mod::lemma_div_of0(FIXED_ONE as int);
    assert((abs_int(0) * abs_int(l)) / (FIXED_ONE as int) == 0);
}

/// Clamped addition is exact whenever the true sum stays within the bound.
pub proof fn lemma_cap_add_exact(a: int, b: int)
    requires
        abs_int(a + b) <= SCORE_CAP as int,
    ensures
        spec_cap_add(a, b) == a + b,
{
}

/// Clamped addition is monotone in both arguments.
pub proof fn lemma_cap_add_monotone(a: int, b: int, c: int, d: int)
    requires
        a <= c,
        b <= d,
    ensures
        spec_cap_add(a, b) <= spec_cap_add(c, d),
{
}

/// With a zero language-model weight, the combined score of a candidate does
/// not depend on what the language model returned: both weighted
/// contributions vanish.
pub proof fn lemma_zero_weight_score(base: int, l1: int, l2: int)
    ensures
        spec_cap_add(base, spec_mul_weight(0, l1)) == spec_cap_add(base, spec_mul_weight(0, l2)),
{
    lemma_zero_weight_cancels(l1);
    lemma_zero_weight_cancels(l2);
}

/// Names the fixed-point value of `e^(x / FIXED_ONE)` in units, as computed by
/// the `libm`-backed kernel below; it depends on `x` alone.
pub uninterp spec fn exp_units(x: int) -> int;

/// Names the fixed-point value of `ln(1 + y / FIXED_ONE)` in units, as
/// computed by the `libm`-backed kernel below; it depends on `y` alone.
pub uninterp spec fn log1p_units(y: int) -> int;

/// Relies on `libm::exp` (with `libm::ldexp` and `libm::round` for the
/// fixed-point scaling): for `x <= 0`, `e^(x / 2^20)` lies in `(0, 1]`, so the
/// rounded result lies in `[0, FIXED_ONE]`.
#[verifier::external_body]
fn exp_unit(x: i32) -> (r: i64)
    requires
        x <= 0,
    ensures
        r as int == exp_units(x as int),
        0 <= r <= FIXED_ONE,
{
    let y = libm::exp(libm::ldexp(x.into(), -20));
    libm::round(libm::ldexp(y, 20)) as i64
}

/// Relies on `libm::log1p` (with `libm::ldexp` and `libm::round` for the
/// fixed-point scaling): for `y` in `[0, 1]`, `ln(1 + y)` lies in `[0, ln 2]`,
/// so the rounded result lies in `[0, LN2_UNITS_BOUND]`.
#[verifier::external_body]
fn log1p_unit(y: i64) -> (r: i64)
    requires
        0 <= y <= FIXED_ONE,
    ensures
        r as int == log1p_units(y as int),
        0 <= r <= LN2_UNITS_BOUND,
{
    let v = libm::log1p(libm::ldexp((y as i32).into(), -20));
    libm::round(libm::ldexp(v, 20)) as i64
}

/// Log-sum-exp of two scores: `max + ln(1 + e^(min - max))` in fixed point.
/// When the gap exceeds `LSE_GAP_LIMIT` the correction rounds to zero and the
/// maximum is returned unchanged.
pub open spec fn spec_lse(a: int, b: int) -> int {
    let hi = if a >= b {
        a
    } else {
        b
    };
    let lo = if a >= b {
        b
    } else {
        a
    };
    if hi - lo > LSE_GAP_LIMIT as int {
        hi
    } else {
        spec_cap_add(hi, log1p_units(exp_units(lo - hi)))
    }
}

/// Merges two scores of the same prefix by log-sum-exp. The merged score is
/// never below either input: probabilities only add.
pub fn lse_merge(a: i64, b: i64) -> (r: i64)
    requires
        -SCORE_CAP <= a <= SCORE_CAP,
        -SCORE_CAP <= b <= SCORE_CAP,
    ensures
        r as int == spec_lse(a as int, b as int),
        a <= r,
        b <= r,
        -SCORE_CAP <= r <= SCORE_CAP,
{
    let hi: i64 = if a >= b {
        a
    } else {
        b
    };
    let lo: i64 = if a >= b {
        b
    } else {
        a
    };
    let gap: i128 = hi as i128 - lo as i128;
    if gap > LSE_GAP_LIMIT as i128 {
        hi
    } else {
        let d: i32 = (lo as i128 - hi as i128) as i32;
        let e = exp_unit(d);
        let t = log1p_unit(e);
        cap_add(hi, t)
    }
}

/// Merging two scores does not depend on their order.
pub proof fn lemma_lse_commutes(a: int, b: int)
    ensures
        spec_lse(a, b) == spec_lse(b, a),
{
}

/// Log-sum-exp merging is shift-invariant: moving both scores by a common
/// constant moves the merged score by the same constant, as long as no value
/// reaches the clamping bound. The named correction term carries no global
/// facts, so its documented range — which the kernel guarantees for every
/// call — is taken as a hypothesis here.
pub proof fn lemma_lse_shift(a: int, b: int, c: int)
    requires
        abs_int(a + c) <= SCORE_CAP as int,
        abs_int(b + c) <= SCORE_CAP as int,
        abs_int(a) + LN2_UNITS_BOUND <= SCORE_CAP as int,
        abs_int(b) + LN2_UNITS_BOUND <= SCORE_CAP as int,
        abs_int(a + c) + LN2_UNITS_BOUND <= SCORE_CAP as int,
        abs_int(b + c) + LN2_UNITS_BOUND <= SCORE_CAP as int,
        0 <= log1p_units(exp_units(if a >= b {
            b - a
        } else {
            a - b
        })) <= LN2_UNITS_BOUND,
    ensures
        spec_lse(a + c, b + c) == spec_lse(a, b) + c,
{
}

} // verus!
