//! Sine, cosine and the hyperbolic pair on fixed-point scalars.
//!
//! The circular functions reduce their argument by real multiples of 2*pi
//! first, which is sound because they are periodic.  The hyperbolic
//! functions are evaluated directly: they are not periodic, so no reduction
//! is applied to them, and arguments far outside the physically meaningful
//! range surface as an out-of-range result rather than a wrong one.
//!
//! All four are truncated Taylor series evaluated in exact rounded
//! fixed-point steps; each contract pins the result to the recurrence it
//! computes, down to the raw unit.

use vstd::prelude::*;
use vstd::arithmetic::div_mod::lemma_basic_div;
use vstd::arithmetic::div_mod::lemma_mod_division_less_than_divisor;
use crate::fixed::Fx;
use crate::fixed::fx_wf;
use crate::fixed::in_bound;
use crate::fixed::iabs;
use crate::fixed::mul_round;
use crate::fixed::mul_round_opt;
use crate::fixed::SCALE;
use crate::fixed::RAW_BOUND;

verus! {

/// pi in raw units, rounded to nearest.
pub const PI_RAW: i128 = 884279719003555;

/// 2*pi in raw units; exactly twice `PI_RAW`.
pub const TWO_PI_RAW: i128 = 1768559438007110;

/// Number of Taylor terms each series sums.
pub const TAYLOR_N: usize = 40;

/// The argument folded into [-pi, pi] by multiples of 2*pi.
pub open spec fn reduce_spec(x: int) -> int {
    let m = iabs(x) % (TWO_PI_RAW as int);
    let s = if x >= 0 {
        m
    } else {
        -m
    };
    if s > PI_RAW as int {
        s - TWO_PI_RAW as int
    } else if s < -(PI_RAW as int) {
        s + TWO_PI_RAW as int
    } else {
        s
    }
}

/// Factorial-quotient divisor of the step to term `k` (`k >= 1`):
/// `(2k-1)(2k)` for the even series, `(2k)(2k+1)` for the odd one.
pub open spec fn taylor_div(even: bool, k: nat) -> int {
    if even {
        (2 * k - 1) * (2 * k)
    } else {
        ((2 * k) * (2 * k + 1)) as int
    }
}

/// Term `k` of the series: term 0 is `t0`, and each step multiplies by
/// `x2`, divides by `SCALE * taylor_div` with rounding, and flips the sign
/// when `neg` holds.
pub open spec fn taylor_term(t0: int, x2: int, neg: bool, even: bool, k: nat) -> int
    decreases k,
{
    if k == 0 {
        t0
    } else {
        let prev = taylor_term(t0, x2, neg, even, (k - 1) as nat);
        let step = mul_round(prev, x2, (SCALE as int) * taylor_div(even, k));
        if neg {
            -step
        } else {
            step
        }
    }
}

/// Sum of terms `0 .. n` of the series.
pub open spec fn taylor_sum(t0: int, x2: int, neg: bool, even: bool, n: nat) -> int
    decreases n,
{
    if n == 0 {
        0
    } else {
        taylor_sum(t0, x2, neg, even, (n - 1) as nat) + taylor_term(
            t0,
            x2,
            neg,
            even,
            (n - 1) as nat,
        )
    }
}

/// Whether every term and every partial sum of the first `n` stays
/// representable.
pub open spec fn taylor_ok(t0: int, x2: int, neg: bool, even: bool, n: nat) -> bool
    decreases n,
{
    if n == 0 {
        true
    } else {
        taylor_ok(t0, x2, neg, even, (n - 1) as nat) && in_bound(
            taylor_term(t0, x2, neg, even, (n - 1) as nat),
        ) && in_bound(taylor_sum(t0, x2, neg, even, n))
    }
}

/// Once a prefix of the series leaves the representable range, every longer
/// prefix does too.
pub proof fn lemma_taylor_ok_mono(t0: int, x2: int, neg: bool, even: bool, m: nat, n: nat)
    requires
        m <= n,
        !taylor_ok(t0, x2, neg, even, m),
    ensures
        !taylor_ok(t0, x2, neg, even, n),
    decreases n,
{
    if m < n {
        lemma_taylor_ok_mono(t0, x2, neg, even, m, (n - 1) as nat);
    }
}

/// All terms vanish when the leading term is zero.
pub proof fn lemma_taylor_zero_t0(x2: int, neg: bool, even: bool, k: nat)
    ensures
        taylor_term(0, x2, neg, even, k) == 0,
    decreases k,
{
    if k > 0 {
        lemma_taylor_zero_t0(x2, neg, even, (k - 1) as nat);
        let d = (SCALE as int) * taylor_div(even, k);
        assert(d >= 2 * SCALE as int) by (nonlinear_arith)
            requires
                k >= 1,
                d == (SCALE as int) * taylor_div(even, k),
                taylor_div(even, k) == (if even {
                    (2 * k - 1) * (2 * k)
                } else {
                    ((2 * k) * (2 * k + 1)) as int
                }),
        ;
        assert(0 * x2 == 0) by (nonlinear_arith);
        lemma_basic_div(d / 2, d);
        assert(mul_round(0, x2, d) == 0);
    }
}

/// The whole series vanishes when the leading term is zero.
pub proof fn lemma_taylor_sum_zero_t0(x2: int, neg: bool, even: bool, n: nat)
    ensures
        taylor_sum(0, x2, neg, even, n) == 0,
        taylor_ok(0, x2, neg, even, n),
    decreases n,
{
    if n > 0 {
        lemma_taylor_sum_zero_t0(x2, neg, even, (n - 1) as nat);
        lemma_taylor_zero_t0(x2, neg, even, (n - 1) as nat);
    }
}

/// With `x2 == 0` every term after the first vanishes.
pub proof fn lemma_taylor_zero_x2(t0: int, neg: bool, even: bool, k: nat)
    requires
        k >= 1,
    ensures
        taylor_term(t0, 0, neg, even, k) == 0,
    decreases k,
{
    let prev = taylor_term(t0, 0, neg, even, (k - 1) as nat);
    let d = (SCALE as int) * taylor_div(even, k);
    assert(d >= 2 * SCALE as int) by (nonlinear_arith)
        requires
            k >= 1,
            d == (SCALE as int) * taylor_div(even, k),
            taylor_div(even, k) == (if even {
                (2 * k - 1) * (2 * k)
            } else {
                ((2 * k) * (2 * k + 1)) as int
            }),
    ;
    assert(prev * 0 == 0) by (nonlinear_arith);
    lemma_basic_div(d / 2, d);
    assert(mul_round(prev, 0, d) == 0);
}

/// With `x2 == 0` the series sums to its leading term.
pub proof fn lemma_taylor_sum_zero_x2(t0: int, neg: bool, even: bool, n: nat)
    requires
        n >= 1,
        in_bound(t0),
    ensures
        taylor_sum(t0, 0, neg, even, n) == t0,
        taylor_ok(t0, 0, neg, even, n),
    decreases n,
{
    if n == 1 {
        reveal_with_fuel(taylor_sum, 2);
        reveal_with_fuel(taylor_ok, 2);
    } else {
        lemma_taylor_sum_zero_x2(t0, neg, even, (n - 1) as nat);
        lemma_taylor_zero_x2(t0, neg, even, (n - 1) as nat);
    }
}

/// The reduction fixes zero.
pub proof fn lemma_reduce_zero()
    ensures
        reduce_spec(0) == 0,
{
    vstd::arithmetic::div_mod::lemma_small_mod(0nat, TWO_PI_RAW as nat);
}

/// The sine of zero is exactly zero.
pub proof fn lemma_sin_spec_zero()
    ensures
        sin_spec(0) == Some(0int),
{
    reveal(sin_spec);
    lemma_reduce_zero();
    crate::fixed::lemma_mul_round_zero(0, SCALE as int);
    lemma_taylor_sum_zero_t0(0, true, false, TAYLOR_N as nat);
}

/// The cosine of zero is exactly one.
pub proof fn lemma_cos_spec_zero()
    ensures
        cos_spec(0) == Some(SCALE as int),
{
    reveal(cos_spec);
    lemma_reduce_zero();
    crate::fixed::lemma_mul_round_zero(0, SCALE as int);
    lemma_taylor_sum_zero_x2(SCALE as int, true, true, TAYLOR_N as nat);
}

/// The hyperbolic sine of zero is exactly zero.
pub proof fn lemma_sinh_spec_zero()
    ensures
        sinh_spec(0) == Some(0int),
{
    reveal(sinh_spec);
    crate::fixed::lemma_mul_round_zero(0, SCALE as int);
    lemma_taylor_sum_zero_t0(0, false, false, TAYLOR_N as nat);
}

/// The hyperbolic cosine of zero is exactly one.
pub proof fn lemma_cosh_spec_zero()
    ensures
        cosh_spec(0) == Some(SCALE as int),
{
    reveal(cosh_spec);
    crate::fixed::lemma_mul_round_zero(0, SCALE as int);
    lemma_taylor_sum_zero_x2(SCALE as int, false, true, TAYLOR_N as nat);
}

/// The reduction lands in [-pi, pi] whatever the argument.
pub proof fn lemma_reduce_bounded(x: int)
    ensures
        iabs(reduce_spec(x)) <= PI_RAW as int,
{
    lemma_mod_division_less_than_divisor(iabs(x), TWO_PI_RAW as int);
}

/// The rounded square of a reduced argument lies in [0, 10].
pub proof fn lemma_trig_x2_bounds(r: int)
    requires
        iabs(r) <= PI_RAW as int,
    ensures
        0 <= mul_round(r, r, SCALE as int),
        mul_round(r, r, SCALE as int) <= 10 * (SCALE as int),
{
    let s = SCALE as int;
    assert(r * r >= 0) by (nonlinear_arith);
    vstd::arithmetic::div_mod::lemma_div_pos_is_pos(r * r + s / 2, s);
    assert(iabs(r) * iabs(r) <= (PI_RAW as int) * (PI_RAW as int)) by (nonlinear_arith)
        requires
            0 <= iabs(r) <= PI_RAW as int,
    ;
    crate::fixed::lemma_mul_round_bound(r, r, s, 10 * s);
}

/// Every term and every partial sum of the series stays representable
/// when the leading term is bounded by the series' own first value
/// (1 for the even series, 3.5 for the odd one) and `x2` lies in [0, 10]:
/// the factorial divisors shrink the terms faster than `x2` grows them.
pub proof fn lemma_taylor_total(t0: int, x2: int, neg: bool, even: bool, n: nat)
    requires
        n <= TAYLOR_N as nat,
        0 <= x2 <= 10 * (SCALE as int),
        iabs(t0) <= (if even {
            SCALE as int
        } else {
            7 * (SCALE as int) / 2
        }),
    ensures
        taylor_ok(t0, x2, neg, even, n),
        n >= 1 ==> iabs(taylor_term(t0, x2, neg, even, (n - 1) as nat)) <= 6 * (SCALE as int),
        iabs(taylor_sum(t0, x2, neg, even, n)) <= 6 * (SCALE as int) * n,
    decreases n,
{
    let s = SCALE as int;
    if n == 0 {
    } else {
        lemma_taylor_total(t0, x2, neg, even, (n - 1) as nat);
        if n == 1 {
        } else {
            let k = (n - 1) as nat;
            let prev = taylor_term(t0, x2, neg, even, (k - 1) as nat);
            let df = taylor_div(even, k);
            let d = s * df;
            if k == 1 {
                if even {
                    assert((2 * k - 1) * (2 * k) == 2) by (nonlinear_arith)
                        requires
                            k == 1nat,
                    ;
                    assert(df == 2);
                    assert(iabs(prev) * iabs(x2) + d / 2 <= 6 * s * d) by (nonlinear_arith)
                        requires
                            s == SCALE as int,
                            d == 2 * s,
                            0 <= iabs(x2) <= 10 * s,
                            0 <= iabs(prev) <= s,
                    ;
                } else {
                    assert((2 * k) * (2 * k + 1) == 6) by (nonlinear_arith)
                        requires
                            k == 1nat,
                    ;
                    assert(df == 6);
                    assert(iabs(prev) * iabs(x2) + d / 2 <= 6 * s * d) by (nonlinear_arith)
                        requires
                            s == SCALE as int,
                            d == 6 * s,
                            0 <= iabs(x2) <= 10 * s,
                            0 <= iabs(prev) <= 7 * s / 2,
                    ;
                }
            } else {
                assert(df >= 12) by (nonlinear_arith)
                    requires
                        k >= 2,
                        df == (if even {
                            (2 * k - 1) * (2 * k)
                        } else {
                            ((2 * k) * (2 * k + 1)) as int
                        }),
                ;
                assert(iabs(prev) * iabs(x2) + d / 2 <= 6 * s * d) by (nonlinear_arith)
                    requires
                        s == SCALE as int,
                        d == s * df,
                        df >= 12,
                        0 <= iabs(x2) <= 10 * s,
                        0 <= iabs(prev) <= 6 * s,
                ;
            }
            assert(d >= 1) by (nonlinear_arith)
                requires
                    d == s * df,
                    s >= 1,
                    df >= 2,
            ;
            assert(iabs(x2) == x2);
            crate::fixed::lemma_mul_round_bound(prev, x2, d, 6 * s);
        }
    }
}

/// The sine of every representable scalar evaluates: the argument is
/// reduced into [-pi, pi] first, where the series stays in range.
pub proof fn lemma_sin_spec_total(x: int)
    ensures
        sin_spec(x) is Some,
{
    reveal(sin_spec);
    lemma_reduce_bounded(x);
    let r = reduce_spec(x);
    lemma_trig_x2_bounds(r);
    let x2 = mul_round(r, r, SCALE as int);
    assert(iabs(r) <= 7 * (SCALE as int) / 2);
    lemma_taylor_total(r, x2, true, false, TAYLOR_N as nat);
}

/// The cosine of every representable scalar evaluates.
pub proof fn lemma_cos_spec_total(x: int)
    ensures
        cos_spec(x) is Some,
{
    reveal(cos_spec);
    lemma_reduce_bounded(x);
    let r = reduce_spec(x);
    lemma_trig_x2_bounds(r);
    let x2 = mul_round(r, r, SCALE as int);
    lemma_taylor_total(SCALE as int, x2, true, true, TAYLOR_N as nat);
}

/// Folds a scalar into [-pi, pi] by subtracting real multiples of 2*pi.
pub fn fx_reduce_two_pi(x: Fx) -> (r: Fx)
    requires
        fx_wf(x),
    ensures
        fx_wf(r),
        r.v as int == reduce_spec(x.v as int),
        -(PI_RAW as int) <= r.v as int <= PI_RAW as int,
{
    let mx: u128 = if x.v < 0 {
        (-x.v) as u128
    } else {
        x.v as u128
    };
    let m: u128 = mx % (TWO_PI_RAW as u128);
    proof {
        assert(mx as int == iabs(x.v as int));
        lemma_mod_division_less_than_divisor(mx as int, TWO_PI_RAW as int);
    }
    let sm: i128 = m as i128;
    let s: i128 = if x.v >= 0 {
        sm
    } else {
        -sm
    };
    if s > PI_RAW {
        Fx { v: s - TWO_PI_RAW }
    } else if s < -PI_RAW {
        Fx { v: s + TWO_PI_RAW }
    } else {
        Fx { v: s }
    }
}

/// Sums `TAYLOR_N` terms of the series in exact rounded steps, `None` as
/// soon as a term or a partial sum leaves the representable range.
pub fn taylor_eval(t0: i128, x2: i128, neg: bool, even: bool) -> (r: Option<i128>)
    requires
        in_bound(t0 as int),
        in_bound(x2 as int),
    ensures
        (match r {
            Some(v) => taylor_ok(t0 as int, x2 as int, neg, even, TAYLOR_N as nat) && v as int
                == taylor_sum(t0 as int, x2 as int, neg, even, TAYLOR_N as nat),
            None => !taylor_ok(t0 as int, x2 as int, neg, even, TAYLOR_N as nat),
        }),
{
    let mut acc: i128 = t0;
    let mut t: i128 = t0;
    let mut k: usize = 1;
    proof {
        reveal_with_fuel(taylor_sum, 2);
        reveal_with_fuel(taylor_ok, 2);
        assert(taylor_sum(t0 as int, x2 as int, neg, even, 1nat) == t0 as int);
        assert(taylor_ok(t0 as int, x2 as int, neg, even, 1nat));
    }
    while k < TAYLOR_N
        invariant
            1 <= k <= TAYLOR_N,
            in_bound(t0 as int),
            in_bound(x2 as int),
            in_bound(t as int),
            in_bound(acc as int),
            t as int == taylor_term(t0 as int, x2 as int, neg, even, (k - 1) as nat),
            acc as int == taylor_sum(t0 as int, x2 as int, neg, even, k as nat),
            taylor_ok(t0 as int, x2 as int, neg, even, k as nat),
        decreases TAYLOR_N - k,
    {
        let kk: u128 = k as u128;
        proof {
            assert((2 * kk - 1) * (2 * kk) <= 6480 && 2 <= (2 * kk - 1) * (2 * kk))
                by (nonlinear_arith)
                requires
                    1 <= kk <= 40,
            ;
            assert((2 * kk) * (2 * kk + 1) <= 6642 && 2 <= (2 * kk) * (2 * kk + 1))
                by (nonlinear_arith)
                requires
                    1 <= kk <= 40,
            ;
        }
        let df: u128 = if even {
            (2 * kk - 1) * (2 * kk)
        } else {
            (2 * kk) * (2 * kk + 1)
        };
        proof {
            assert(df as int == taylor_div(even, k as nat));
            assert((SCALE as int) * 2 <= (SCALE as int) * (df as int) <= (SCALE as int) * 6642)
                by (nonlinear_arith)
                requires
                    2 <= df as int <= 6642,
            ;
        }
        let d: u128 = (SCALE as u128) * df;
        let step = match mul_round_opt(t, x2, d) {
            Some(s) => s,
            None => {
                proof {
                    assert(!taylor_ok(t0 as int, x2 as int, neg, even, (k + 1) as nat));
                    lemma_taylor_ok_mono(
                        t0 as int,
                        x2 as int,
                        neg,
                        even,
                        (k + 1) as nat,
                        TAYLOR_N as nat,
                    );
                }
                return None;
            },
        };
        let ts: i128 = if neg {
            -step
        } else {
            step
        };
        proof {
            assert(ts as int == taylor_term(t0 as int, x2 as int, neg, even, k as nat));
        }
        let s2: i128 = acc + ts;
        if s2 > RAW_BOUND || s2 < -RAW_BOUND {
            proof {
                assert(s2 as int == taylor_sum(t0 as int, x2 as int, neg, even, (k + 1) as nat));
                assert(!taylor_ok(t0 as int, x2 as int, neg, even, (k + 1) as nat));
                lemma_taylor_ok_mono(
                    t0 as int,
                    x2 as int,
                    neg,
                    even,
                    (k + 1) as nat,
                    TAYLOR_N as nat,
                );
            }
            return None;
        }
        acc = s2;
        t = ts;
        k = k + 1;
    }
    Some(acc)
}

/// The circular sine of a reduced argument, as the odd alternating series.
#[verifier::opaque]
pub open spec fn sin_spec(x: int) -> Option<int> {
    let r = reduce_spec(x);
    let x2 = mul_round(r, r, SCALE as int);
    if !in_bound(x2) {
        None
    } else if !taylor_ok(r, x2, true, false, TAYLOR_N as nat) {
        None
    } else {
        Some(taylor_sum(r, x2, true, false, TAYLOR_N as nat))
    }
}

/// The circular cosine of a reduced argument, as the even alternating
/// series.
#[verifier::opaque]
pub open spec fn cos_spec(x: int) -> Option<int> {
    let r = reduce_spec(x);
    let x2 = mul_round(r, r, SCALE as int);
    if !in_bound(x2) {
        None
    } else if !taylor_ok(SCALE as int, x2, true, true, TAYLOR_N as nat) {
        None
    } else {
        Some(taylor_sum(SCALE as int, x2, true, true, TAYLOR_N as nat))
    }
}

/// The hyperbolic sine of the unreduced argument, as the odd series.
#[verifier::opaque]
pub open spec fn sinh_spec(x: int) -> Option<int> {
    let x2 = mul_round(x, x, SCALE as int);
    if !in_bound(x2) {
        None
    } else if !taylor_ok(x, x2, false, false, TAYLOR_N as nat) {
        None
    } else {
        Some(taylor_sum(x, x2, false, false, TAYLOR_N as nat))
    }
}

/// The hyperbolic cosine of the unreduced argument, as the even series.
#[verifier::opaque]
pub open spec fn cosh_spec(x: int) -> Option<int> {
    let x2 = mul_round(x, x, SCALE as int);
    if !in_bound(x2) {
        None
    } else if !taylor_ok(SCALE as int, x2, false, true, TAYLOR_N as nat) {
        None
    } else {
        Some(taylor_sum(SCALE as int, x2, false, true, TAYLOR_N as nat))
    }
}

/// Sine of a scalar, reduced by 2*pi first.
pub fn fx_sin(x: Fx) -> (r: Option<Fx>)
    requires
        fx_wf(x),
    ensures
        r is Some,
        (match r {
            Some(c) => fx_wf(c) && sin_spec(x.v as int) == Some(c.v as int),
            None => sin_spec(x.v as int) is None,
        }),
{
    proof {
        reveal(sin_spec);
        lemma_trig_x2_bounds(reduce_spec(x.v as int));
    }
    let rd = fx_reduce_two_pi(x);
    let x2 = match mul_round_opt(rd.v, rd.v, SCALE as u128) {
        Some(v) => v,
        None => {
            // the reduced square always fits
            proof {
                assert(false);
            }
            return None;
        },
    };
    proof {
        lemma_taylor_total(rd.v as int, x2 as int, true, false, TAYLOR_N as nat);
    }
    match taylor_eval(rd.v, x2, true, false) {
        Some(v) => Some(Fx { v }),
        None => None,
    }
}

/// Cosine of a scalar, reduced by 2*pi first.
pub fn fx_cos(x: Fx) -> (r: Option<Fx>)
    requires
        fx_wf(x),
    ensures
        r is Some,
        (match r {
            Some(c) => fx_wf(c) && cos_spec(x.v as int) == Some(c.v as int),
            None => cos_spec(x.v as int) is None,
        }),
{
    proof {
        reveal(cos_spec);
        lemma_trig_x2_bounds(reduce_spec(x.v as int));
    }
    let rd = fx_reduce_two_pi(x);
    let x2 = match mul_round_opt(rd.v, rd.v, SCALE as u128) {
        Some(v) => v,
        None => {
            // the reduced square always fits
            proof {
                assert(false);
            }
            return None;
        },
    };
    proof {
        lemma_taylor_total(SCALE as int, x2 as int, true, true, TAYLOR_N as nat);
    }
    match taylor_eval(SCALE, x2, true, true) {
        Some(v) => Some(Fx { v }),
        None => None,
    }
}

/// Hyperbolic sine, evaluated directly with no reduction.
pub fn fx_sinh(x: Fx) -> (r: Option<Fx>)
    requires
        fx_wf(x),
    ensures
        (match r {
            Some(c) => fx_wf(c) && sinh_spec(x.v as int) == Some(c.v as int),
            None => sinh_spec(x.v as int) is None,
        }),
{
    proof {
        reveal(sinh_spec);
    }
    let x2 = match mul_round_opt(x.v, x.v, SCALE as u128) {
        Some(v) => v,
        None => {
            return None;
        },
    };
    match taylor_eval(x.v, x2, false, false) {
        Some(v) => Some(Fx { v }),
        None => None,
    }
}

/// Hyperbolic cosine, evaluated directly with no reduction.
pub fn fx_cosh(x: Fx) -> (r: Option<Fx>)
    requires
        fx_wf(x),
    ensures
        (match r {
            Some(c) => fx_wf(c) && cosh_spec(x.v as int) == Some(c.v as int),
            None => cosh_spec(x.v as int) is None,
        }),
{
    proof {
        reveal(cosh_spec);
    }
    let x2 = match mul_round_opt(x.v, x.v, SCALE as u128) {
        Some(v) => v,
        None => {
            return None;
        },
    };
    match taylor_eval(SCALE, x2, false, true) {
        Some(v) => Some(Fx { v }),
        None => None,
    }
}

} // verus!
