//! Fixed-point scalars: exact arithmetic on integer multiples of 2^-48.
//!
//! A `Fx` holds a real number as a raw `i128` count of units of 2^-48.
//! A well-formed scalar keeps its raw value within `RAW_BOUND`, so that
//! products of two raw values always fit in 128 bits.  Every operation
//! either returns the exactly rounded result or reports that the result
//! would leave the representable range; nothing wraps or saturates.

use vstd::prelude::*;
use vstd::arithmetic::div_mod::lemma_basic_div;
use vstd::arithmetic::div_mod::lemma_div_is_ordered;
use vstd::arithmetic::div_mod::lemma_div_pos_is_pos;
use vstd::arithmetic::div_mod::lemma_fundamental_div_mod_converse;
use vstd::arithmetic::div_mod::lemma_div_multiples_vanish;

verus! {

/// Raw units in 1.0: the fixed-point scale, 2^48.
pub const SCALE: i128 = 281474976710656;

/// Half of `SCALE`: the round-to-nearest offset for products.
pub const HALF_SCALE: i128 = 140737488355328;

/// Largest raw magnitude of a well-formed scalar, 2^63.
pub const RAW_BOUND: i128 = 9223372036854775808;

/// Magnitude of an integer.
pub open spec fn iabs(a: int) -> int {
    if a < 0 {
        -a
    } else {
        a
    }
}

/// A raw value that a well-formed scalar may hold.
pub open spec fn in_bound(a: int) -> bool {
    -(RAW_BOUND as int) <= a && a <= RAW_BOUND as int
}

/// The exactly rounded quotient `a * b / d`, half away from zero.
pub open spec fn mul_round(a: int, b: int, d: int) -> int {
    if a * b >= 0 {
        (a * b + d / 2) / d
    } else {
        -((-(a * b) + d / 2) / d)
    }
}

/// The exactly rounded quotient `a * SCALE / b`, half away from zero.
/// Meaningful only for `b != 0`.
pub open spec fn div_round(a: int, b: int) -> int {
    let q = (iabs(a) * (SCALE as int) + iabs(b) / 2) / iabs(b);
    if (a >= 0) == (b >= 0) {
        q
    } else {
        -q
    }
}

/// A rounded product with a zero factor is zero.
pub proof fn lemma_mul_round_zero(a: int, d: int)
    requires
        d >= 1,
    ensures
        mul_round(0, a, d) == 0,
        mul_round(a, 0, d) == 0,
{
    assert(0 * a == 0) by (nonlinear_arith);
    assert(a * 0 == 0) by (nonlinear_arith);
    assert(0 <= d / 2 < d);
    lemma_basic_div(d / 2, d);
}

/// Multiplying by the scalar 1 is exact in either order.
pub proof fn lemma_mul_round_one(t: int)
    ensures
        mul_round(t, SCALE as int, SCALE as int) == t,
        mul_round(SCALE as int, t, SCALE as int) == t,
{
    let s = SCALE as int;
    assert(t * s == s * t) by (nonlinear_arith);
    if t >= 0 {
        assert(t * s >= 0) by (nonlinear_arith)
            requires
                t >= 0,
                s > 0,
        ;
        lemma_fundamental_div_mod_converse(t * s + s / 2, s, t, s / 2);
    } else {
        assert(t * s < 0) by (nonlinear_arith)
            requires
                t < 0,
                s > 0,
        ;
        assert(-(t * s) == (-t) * s) by (nonlinear_arith);
        lemma_fundamental_div_mod_converse((-t) * s + s / 2, s, -t, s / 2);
    }
}

/// A magnitude bound for the rounded product: whenever
/// `|a| * |b| + d/2 <= c * d`, the rounded product stays within `c`.
pub proof fn lemma_mul_round_bound(a: int, b: int, d: int, c: int)
    requires
        d >= 1,
        iabs(a) * iabs(b) + d / 2 <= c * d,
    ensures
        iabs(mul_round(a, b, d)) <= c,
{
    let p = a * b;
    assert(iabs(p) == iabs(a) * iabs(b)) by (nonlinear_arith)
        requires
            p == a * b,
    ;
    lemma_div_pos_is_pos(iabs(p) + d / 2, d);
    lemma_div_is_ordered(iabs(p) + d / 2, c * d, d);
    assert(c * d == d * c) by (nonlinear_arith);
    lemma_div_multiples_vanish(c, d);
}

/// The rounded square of a scalar no larger than one in magnitude stays
/// within [0, 1].
pub proof fn lemma_mul_round_sq_le_one(sl: int)
    requires
        iabs(sl) <= SCALE as int,
    ensures
        0 <= mul_round(sl, sl, SCALE as int) <= SCALE as int,
{
    let s = SCALE as int;
    assert(sl * sl >= 0) by (nonlinear_arith);
    assert(sl * sl <= s * s) by (nonlinear_arith)
        requires
            -s <= sl <= s,
            s > 0,
    ;
    lemma_div_pos_is_pos(sl * sl + s / 2, s);
    lemma_div_is_ordered(sl * sl + s / 2, s * s + s / 2, s);
    lemma_fundamental_div_mod_converse(s * s + s / 2, s, s, s / 2);
}

/// A fixed-point scalar: the real number `v / 2^48`.
#[derive(Clone, Copy, PartialEq, Eq, Structural, Debug)]
pub struct Fx {
    pub v: i128,
}

/// A well-formed scalar: its raw value is within `RAW_BOUND`.
pub open spec fn fx_wf(x: Fx) -> bool {
    in_bound(x.v as int)
}

/// Rounded scaled product of two raw values, `None` when the result
/// leaves the representable range.
pub fn mul_round_opt(a: i128, b: i128, d: u128) -> (r: Option<i128>)
    requires
        in_bound(a as int),
        in_bound(b as int),
        SCALE as int <= d as int <= RAW_BOUND as int,
    ensures
        (match r {
            Some(v) => in_bound(mul_round(a as int, b as int, d as int)) && v as int
                == mul_round(a as int, b as int, d as int),
            None => !in_bound(mul_round(a as int, b as int, d as int)),
        }),
{
    let neg: bool = (a < 0) != (b < 0);
    let ma: u128 = if a < 0 {
        (-a) as u128
    } else {
        a as u128
    };
    let mb: u128 = if b < 0 {
        (-b) as u128
    } else {
        b as u128
    };
    proof {
        assert(ma as int == iabs(a as int));
        assert(mb as int == iabs(b as int));
        assert(ma as int * mb as int == iabs((a as int) * (b as int))) by (nonlinear_arith)
            requires
                ma as int == iabs(a as int),
                mb as int == iabs(b as int),
        ;
        assert(ma as int * mb as int <= (RAW_BOUND as int) * (RAW_BOUND as int))
            by (nonlinear_arith)
            requires
                0 <= ma as int <= RAW_BOUND as int,
                0 <= mb as int <= RAW_BOUND as int,
        ;
    }
    let p: u128 = ma * mb;
    let dh: u128 = d / 2;
    let num: u128 = p + dh;
    let q: u128 = num / d;
    proof {
        lemma_div_pos_is_pos(num as int, d as int);
        if neg {
            assert((a as int) * (b as int) <= 0) by (nonlinear_arith)
                requires
                    (a < 0) != (b < 0),
            ;
        } else {
            assert((a as int) * (b as int) >= 0) by (nonlinear_arith)
                requires
                    (a < 0) == (b < 0),
            ;
        }
        if (a as int) * (b as int) == 0 {
            lemma_basic_div(dh as int, d as int);
        }
    }
    if q > RAW_BOUND as u128 {
        proof {
            assert(iabs(mul_round(a as int, b as int, d as int)) == q as int);
        }
        None
    } else {
        let vq: i128 = q as i128;
        if neg {
            Some(-vq)
        } else {
            Some(vq)
        }
    }
}

/// Rounded scaled quotient of two raw values, `None` when the result
/// leaves the representable range.
pub fn div_round_opt(a: i128, b: i128) -> (r: Option<i128>)
    requires
        in_bound(a as int),
        in_bound(b as int),
        b != 0,
    ensures
        (match r {
            Some(v) => in_bound(div_round(a as int, b as int)) && v as int == div_round(
                a as int,
                b as int,
            ),
            None => !in_bound(div_round(a as int, b as int)),
        }),
{
    let neg: bool = (a < 0) != (b < 0);
    let ma: u128 = if a < 0 {
        (-a) as u128
    } else {
        a as u128
    };
    let mb: u128 = if b < 0 {
        (-b) as u128
    } else {
        b as u128
    };
    proof {
        assert(ma as int == iabs(a as int));
        assert(mb as int == iabs(b as int));
        assert(ma as int * (SCALE as int) <= (RAW_BOUND as int) * (SCALE as int))
            by (nonlinear_arith)
            requires
                0 <= ma as int <= RAW_BOUND as int,
        ;
    }
    let scaled: u128 = ma * (SCALE as u128);
    let num: u128 = scaled + mb / 2;
    let q: u128 = num / mb;
    proof {
        lemma_div_pos_is_pos(num as int, mb as int);
    }
    if q > RAW_BOUND as u128 {
        None
    } else {
        let vq: i128 = q as i128;
        if neg {
            Some(-vq)
        } else {
            Some(vq)
        }
    }
}

/// A scalar from a raw count of 2^-48 units, `None` when out of range.
pub fn fx_from_raw(v: i128) -> (r: Option<Fx>)
    ensures
        (match r {
            Some(c) => in_bound(v as int) && c.v == v && fx_wf(c),
            None => !in_bound(v as int),
        }),
{
    if v > RAW_BOUND || v < -RAW_BOUND {
        None
    } else {
        Some(Fx { v })
    }
}

/// Exact sum, `None` when the result leaves the representable range.
pub fn fx_add(a: Fx, b: Fx) -> (r: Option<Fx>)
    requires
        fx_wf(a),
        fx_wf(b),
    ensures
        (match r {
            Some(c) => fx_wf(c) && c.v as int == a.v as int + b.v as int,
            None => !in_bound(a.v as int + b.v as int),
        }),
{
    let s: i128 = a.v + b.v;
    if s > RAW_BOUND || s < -RAW_BOUND {
        None
    } else {
        Some(Fx { v: s })
    }
}

/// Exact difference, `None` when the result leaves the representable range.
pub fn fx_sub(a: Fx, b: Fx) -> (r: Option<Fx>)
    requires
        fx_wf(a),
        fx_wf(b),
    ensures
        (match r {
            Some(c) => fx_wf(c) && c.v as int == a.v as int - b.v as int,
            None => !in_bound(a.v as int - b.v as int),
        }),
{
    let s: i128 = a.v - b.v;
    if s > RAW_BOUND || s < -RAW_BOUND {
        None
    } else {
        Some(Fx { v: s })
    }
}

/// Exact negation.
pub fn fx_neg(a: Fx) -> (r: Fx)
    requires
        fx_wf(a),
    ensures
        fx_wf(r),
        r.v as int == -(a.v as int),
{
    Fx { v: -a.v }
}

/// Rounded product, `None` when the result leaves the representable range.
pub fn fx_mul(a: Fx, b: Fx) -> (r: Option<Fx>)
    requires
        fx_wf(a),
        fx_wf(b),
    ensures
        (match r {
            Some(c) => fx_wf(c) && c.v as int == mul_round(a.v as int, b.v as int, SCALE as int),
            None => !in_bound(mul_round(a.v as int, b.v as int, SCALE as int)),
        }),
{
    match mul_round_opt(a.v, b.v, SCALE as u128) {
        Some(v) => Some(Fx { v }),
        None => None,
    }
}

/// Rounded quotient, `None` when the result leaves the representable range.
pub fn fx_div(a: Fx, b: Fx) -> (r: Option<Fx>)
    requires
        fx_wf(a),
        fx_wf(b),
        b.v != 0,
    ensures
        (match r {
            Some(c) => fx_wf(c) && c.v as int == div_round(a.v as int, b.v as int),
            None => !in_bound(div_round(a.v as int, b.v as int)),
        }),
{
    match div_round_opt(a.v, b.v) {
        Some(v) => Some(Fx { v }),
        None => None,
    }
}

/// Largest argument `isqrt_u128` accepts, 2^112.
pub const ISQRT_ARG_BOUND: u128 = 0x10000000000000000000000000000;

/// Ceiling of the square roots of the accepted arguments, 2^56.
pub const ISQRT_VAL_BOUND: u128 = 0x100000000000000;

/// The integer square root: the largest `r` with `r * r <= n`.
pub open spec fn isqrt_spec(n: nat) -> nat
    decreases n,
{
    if n == 0 {
        0
    } else {
        let r = isqrt_spec((n - 1) as nat);
        if (r + 1) * (r + 1) <= n {
            (r + 1) as nat
        } else {
            r
        }
    }
}

/// `isqrt_spec(n)` squares to at most `n`, and is the largest such integer.
pub proof fn lemma_isqrt_bounds(n: nat)
    ensures
        isqrt_spec(n) * isqrt_spec(n) <= n,
        n < (isqrt_spec(n) + 1) * (isqrt_spec(n) + 1),
    decreases n,
{
    if n == 0 {
        assert(isqrt_spec(n) == 0);
        assert(isqrt_spec(n) * isqrt_spec(n) <= n);
        assert(n < (isqrt_spec(n) + 1) * (isqrt_spec(n) + 1)) by (nonlinear_arith)
            requires
                n == 0,
                isqrt_spec(n) == 0,
        ;
    } else {
        lemma_isqrt_bounds((n - 1) as nat);
        let r = isqrt_spec((n - 1) as nat);
        if (r + 1) * (r + 1) <= n {
            assert(isqrt_spec(n) == r + 1);
            assert(n == (r + 1) * (r + 1));
            assert((r + 1) * (r + 1) < (r + 2) * (r + 2)) by (nonlinear_arith)
                requires
                    r >= 0,
            ;
        } else {
            assert(isqrt_spec(n) == r);
        }
    }
}

/// Any integer whose square brackets `n` is the integer square root of `n`.
pub proof fn lemma_isqrt_unique(n: nat, r: nat)
    requires
        r * r <= n,
        n < (r + 1) * (r + 1),
    ensures
        r == isqrt_spec(n),
{
    lemma_isqrt_bounds(n);
    let s = isqrt_spec(n);
    if r < s {
        assert(false) by (nonlinear_arith)
            requires
                r < s,
                s * s <= n,
                n < (r + 1) * (r + 1),
                r >= 0,
                s >= 0,
        ;
    }
    if s < r {
        assert(false) by (nonlinear_arith)
            requires
                s < r,
                r * r <= n,
                n < (s + 1) * (s + 1),
                r >= 0,
                s >= 0,
        ;
    }
}

/// The integer square root of a raw value, by binary search.
pub fn isqrt_u128(n: u128) -> (r: u128)
    requires
        n as int <= ISQRT_ARG_BOUND as int,
    ensures
        r as int == isqrt_spec(n as nat),
        r * r <= n,
        (n as int) < (r as int + 1) * (r as int + 1),
        r as int <= ISQRT_VAL_BOUND as int,
{
    let mut lo: u128 = 0;
    let mut hi: u128 = ISQRT_VAL_BOUND;
    proof {
        assert((n as int) < (ISQRT_VAL_BOUND as int + 1) * (ISQRT_VAL_BOUND as int + 1))
            by (nonlinear_arith)
            requires
                n as int <= ISQRT_ARG_BOUND as int,
        ;
    }
    while lo < hi
        invariant
            lo <= hi,
            hi as int <= ISQRT_VAL_BOUND as int,
            (lo as int) * (lo as int) <= n as int,
            (n as int) < (hi as int + 1) * (hi as int + 1),
        decreases hi - lo,
    {
        let mid: u128 = lo + (hi - lo + 1) / 2;
        proof {
            assert((mid as int) * (mid as int) <= (ISQRT_VAL_BOUND as int) * (
            ISQRT_VAL_BOUND as int)) by (nonlinear_arith)
                requires
                    0 <= mid as int <= ISQRT_VAL_BOUND as int,
            ;
        }
        if mid * mid <= n {
            lo = mid;
        } else {
            hi = mid - 1;
        }
    }
    proof {
        lemma_isqrt_unique(n as nat, lo as nat);
    }
    lo
}

/// Rounded-down square root of a non-negative scalar.
pub fn fx_sqrt(x: Fx) -> (r: Fx)
    requires
        fx_wf(x),
        x.v >= 0,
    ensures
        fx_wf(r),
        r.v >= 0,
        r.v as int == isqrt_spec((x.v as int * SCALE as int) as nat),
        (r.v as int) * (r.v as int) <= (x.v as int) * (SCALE as int),
        (x.v as int) * (SCALE as int) < (r.v as int + 1) * (r.v as int + 1),
{
    proof {
        assert((x.v as int) * (SCALE as int) <= ISQRT_ARG_BOUND as int) by (nonlinear_arith)
            requires
                0 <= x.v as int <= RAW_BOUND as int,
        ;
        assert((x.v as int) * (SCALE as int) == (x.v as u128 as int) * (SCALE as u128 as int));
    }
    let n: u128 = (x.v as u128) * (SCALE as u128);
    let r: u128 = isqrt_u128(n);
    Fx { v: r as i128 }
}

} // verus!
