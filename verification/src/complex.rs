//! Complex fixed-point scalars and their exact rounded arithmetic.
//!
//! A `Cx` pairs two well-formed scalars.  Each operation's contract pins
//! the result to a spec-level value on raw integer pairs, so a caller can
//! trace every raw unit of the answer; `None` reports that some
//! intermediate left the representable range.
//!
//! `sin_complex` and `cos_complex` evaluate the circular functions of a
//! complex argument through the identities
//! `sin(a + bi) = sin(a)cosh(b) + i cos(a)sinh(b)` and
//! `cos(a + bi) = cos(a)cosh(b) - i sin(a)sinh(b)`.

use vstd::prelude::*;
use crate::fixed::Fx;
use crate::fixed::fx_wf;
use crate::fixed::in_bound;
use crate::fixed::mul_round;
use crate::fixed::div_round;
use crate::fixed::mul_round_opt;
use crate::fixed::div_round_opt;
use crate::fixed::lemma_mul_round_zero;
use crate::fixed::lemma_mul_round_one;
use crate::fixed::SCALE;
use crate::fixed::RAW_BOUND;
use crate::trig::sin_spec;
use crate::trig::cos_spec;
use crate::trig::sinh_spec;
use crate::trig::cosh_spec;
use crate::trig::fx_sin;
use crate::trig::fx_cos;
use crate::trig::fx_sinh;
use crate::trig::fx_cosh;

verus! {

/// A complex number with fixed-point real and imaginary parts.
#[derive(Clone, Copy, PartialEq, Eq, Structural, Debug)]
pub struct Cx {
    pub re: Fx,
    pub im: Fx,
}

/// The raw integer pair a complex scalar holds.
pub open spec fn cxv(c: Cx) -> (int, int) {
    (c.re.v as int, c.im.v as int)
}

/// Both parts well formed.
pub open spec fn cx_wf(c: Cx) -> bool {
    fx_wf(c.re) && fx_wf(c.im)
}

/// Both raw components representable.
pub open spec fn cv_in_bound(a: (int, int)) -> bool {
    in_bound(a.0) && in_bound(a.1)
}

/// Raw value of the exact complex sum.
pub open spec fn cadd_val(a: (int, int), b: (int, int)) -> (int, int) {
    (a.0 + b.0, a.1 + b.1)
}

/// Raw value of the exact complex difference.
pub open spec fn csub_val(a: (int, int), b: (int, int)) -> (int, int) {
    (a.0 - b.0, a.1 - b.1)
}

/// Raw value of the rounded complex product.
#[verifier::opaque]
pub open spec fn cmul_val(a: (int, int), b: (int, int)) -> (int, int) {
    let m1 = mul_round(a.0, b.0, SCALE as int);
    let m2 = mul_round(a.1, b.1, SCALE as int);
    let m3 = mul_round(a.1, b.0, SCALE as int);
    let m4 = mul_round(a.0, b.1, SCALE as int);
    (m1 - m2, m3 + m4)
}

/// Every intermediate of the rounded complex product representable.
#[verifier::opaque]
pub open spec fn cmul_ok(a: (int, int), b: (int, int)) -> bool {
    let m1 = mul_round(a.0, b.0, SCALE as int);
    let m2 = mul_round(a.1, b.1, SCALE as int);
    let m3 = mul_round(a.1, b.0, SCALE as int);
    let m4 = mul_round(a.0, b.1, SCALE as int);
    in_bound(m1) && in_bound(m2) && in_bound(m3) && in_bound(m4) && in_bound(m1 - m2) && in_bound(
        m3 + m4,
    )
}

/// Raw value of a complex number scaled by a real scalar.
pub open spec fn cscale_val(a: (int, int), c: int) -> (int, int) {
    (mul_round(a.0, c, SCALE as int), mul_round(a.1, c, SCALE as int))
}

/// Both parts of the scaled complex number representable.
pub open spec fn cscale_ok(a: (int, int), c: int) -> bool {
    cv_in_bound(cscale_val(a, c))
}

/// Raw value of the rounded squared magnitude.
#[verifier::opaque]
pub open spec fn cnorm_sqr_val(a: (int, int)) -> int {
    mul_round(a.0, a.0, SCALE as int) + mul_round(a.1, a.1, SCALE as int)
}

/// Every intermediate of the squared magnitude representable.
#[verifier::opaque]
pub open spec fn cnorm_sqr_ok(a: (int, int)) -> bool {
    in_bound(mul_round(a.0, a.0, SCALE as int)) && in_bound(mul_round(a.1, a.1, SCALE as int))
        && in_bound(cnorm_sqr_val(a))
}

/// Raw value of the rounded complex quotient `a * conj(b) / |b|^2`.
#[verifier::opaque]
pub open spec fn cdiv_val(a: (int, int), b: (int, int)) -> (int, int) {
    let ns = cnorm_sqr_val(b);
    let pr = mul_round(a.0, b.0, SCALE as int) + mul_round(a.1, b.1, SCALE as int);
    let pi = mul_round(a.1, b.0, SCALE as int) - mul_round(a.0, b.1, SCALE as int);
    (div_round(pr, ns), div_round(pi, ns))
}

/// Every intermediate of the rounded complex quotient representable, and
/// the rounded squared magnitude of the divisor not zero.
#[verifier::opaque]
pub open spec fn cdiv_ok(a: (int, int), b: (int, int)) -> bool {
    let ns = cnorm_sqr_val(b);
    let pr = mul_round(a.0, b.0, SCALE as int) + mul_round(a.1, b.1, SCALE as int);
    let pi = mul_round(a.1, b.0, SCALE as int) - mul_round(a.0, b.1, SCALE as int);
    cnorm_sqr_ok(b) && ns != 0 && in_bound(mul_round(a.0, b.0, SCALE as int)) && in_bound(
        mul_round(a.1, b.1, SCALE as int),
    ) && in_bound(pr) && in_bound(mul_round(a.1, b.0, SCALE as int)) && in_bound(
        mul_round(a.0, b.1, SCALE as int),
    ) && in_bound(pi) && cv_in_bound(cdiv_val(a, b))
}

/// Exact complex sum.
pub fn cadd(a: Cx, b: Cx) -> (r: Option<Cx>)
    requires
        cx_wf(a),
        cx_wf(b),
    ensures
        (match r {
            Some(c) => cx_wf(c) && cv_in_bound(cadd_val(cxv(a), cxv(b))) && cxv(c) == cadd_val(
                cxv(a),
                cxv(b),
            ),
            None => !cv_in_bound(cadd_val(cxv(a), cxv(b))),
        }),
{
    let re: i128 = a.re.v + b.re.v;
    let im: i128 = a.im.v + b.im.v;
    if re > RAW_BOUND || re < -RAW_BOUND || im > RAW_BOUND || im < -RAW_BOUND {
        None
    } else {
        Some(Cx { re: Fx { v: re }, im: Fx { v: im } })
    }
}

/// Exact complex difference.
pub fn csub(a: Cx, b: Cx) -> (r: Option<Cx>)
    requires
        cx_wf(a),
        cx_wf(b),
    ensures
        (match r {
            Some(c) => cx_wf(c) && cv_in_bound(csub_val(cxv(a), cxv(b))) && cxv(c) == csub_val(
                cxv(a),
                cxv(b),
            ),
            None => !cv_in_bound(csub_val(cxv(a), cxv(b))),
        }),
{
    let re: i128 = a.re.v - b.re.v;
    let im: i128 = a.im.v - b.im.v;
    if re > RAW_BOUND || re < -RAW_BOUND || im > RAW_BOUND || im < -RAW_BOUND {
        None
    } else {
        Some(Cx { re: Fx { v: re }, im: Fx { v: im } })
    }
}

/// Exact complex negation.
pub fn cneg(a: Cx) -> (r: Cx)
    requires
        cx_wf(a),
    ensures
        cx_wf(r),
        cxv(r) == (-cxv(a).0, -cxv(a).1),
{
    Cx { re: Fx { v: -a.re.v }, im: Fx { v: -a.im.v } }
}

/// Rounded complex product.
pub fn cmul(a: Cx, b: Cx) -> (r: Option<Cx>)
    requires
        cx_wf(a),
        cx_wf(b),
    ensures
        (match r {
            Some(c) => cx_wf(c) && cmul_ok(cxv(a), cxv(b)) && cxv(c) == cmul_val(cxv(a), cxv(b)),
            None => !cmul_ok(cxv(a), cxv(b)),
        }),
{
    proof {
        reveal(cmul_ok);
        reveal(cmul_val);
    }
    let m1 = match mul_round_opt(a.re.v, b.re.v, SCALE as u128) {
        Some(v) => v,
        None => {
            return None;
        },
    };
    let m2 = match mul_round_opt(a.im.v, b.im.v, SCALE as u128) {
        Some(v) => v,
        None => {
            return None;
        },
    };
    let m3 = match mul_round_opt(a.im.v, b.re.v, SCALE as u128) {
        Some(v) => v,
        None => {
            return None;
        },
    };
    let m4 = match mul_round_opt(a.re.v, b.im.v, SCALE as u128) {
        Some(v) => v,
        None => {
            return None;
        },
    };
    let re: i128 = m1 - m2;
    let im: i128 = m3 + m4;
    if re > RAW_BOUND || re < -RAW_BOUND || im > RAW_BOUND || im < -RAW_BOUND {
        None
    } else {
        Some(Cx { re: Fx { v: re }, im: Fx { v: im } })
    }
}

/// Rounded product of a complex number and a real scalar.
pub fn cscale(a: Cx, c: Fx) -> (r: Option<Cx>)
    requires
        cx_wf(a),
        fx_wf(c),
    ensures
        (match r {
            Some(d) => cx_wf(d) && cscale_ok(cxv(a), c.v as int) && cxv(d) == cscale_val(
                cxv(a),
                c.v as int,
            ),
            None => !cscale_ok(cxv(a), c.v as int),
        }),
{
    let re = match mul_round_opt(a.re.v, c.v, SCALE as u128) {
        Some(v) => v,
        None => {
            return None;
        },
    };
    let im = match mul_round_opt(a.im.v, c.v, SCALE as u128) {
        Some(v) => v,
        None => {
            return None;
        },
    };
    Some(Cx { re: Fx { v: re }, im: Fx { v: im } })
}

/// Rounded squared magnitude; never negative.
pub fn cnorm_sqr(a: Cx) -> (r: Option<Fx>)
    requires
        cx_wf(a),
    ensures
        (match r {
            Some(c) => fx_wf(c) && cnorm_sqr_ok(cxv(a)) && c.v as int == cnorm_sqr_val(cxv(a))
                && c.v >= 0,
            None => !cnorm_sqr_ok(cxv(a)),
        }),
{
    proof {
        reveal(cnorm_sqr_ok);
        reveal(cnorm_sqr_val);
    }
    let n1 = match mul_round_opt(a.re.v, a.re.v, SCALE as u128) {
        Some(v) => v,
        None => {
            return None;
        },
    };
    let n2 = match mul_round_opt(a.im.v, a.im.v, SCALE as u128) {
        Some(v) => v,
        None => {
            return None;
        },
    };
    proof {
        assert((a.re.v as int) * (a.re.v as int) >= 0) by (nonlinear_arith);
        assert((a.im.v as int) * (a.im.v as int) >= 0) by (nonlinear_arith);
        vstd::arithmetic::div_mod::lemma_div_pos_is_pos(
            (a.re.v as int) * (a.re.v as int) + (SCALE as int) / 2,
            SCALE as int,
        );
        vstd::arithmetic::div_mod::lemma_div_pos_is_pos(
            (a.im.v as int) * (a.im.v as int) + (SCALE as int) / 2,
            SCALE as int,
        );
    }
    let s: i128 = n1 + n2;
    if s > RAW_BOUND {
        None
    } else {
        Some(Fx { v: s })
    }
}

/// Rounded complex quotient `a / b`, via the conjugate of `b` over the
/// squared magnitude of `b`.
pub fn cdiv(a: Cx, b: Cx) -> (r: Option<Cx>)
    requires
        cx_wf(a),
        cx_wf(b),
    ensures
        (match r {
            Some(c) => cx_wf(c) && cdiv_ok(cxv(a), cxv(b)) && cxv(c) == cdiv_val(cxv(a), cxv(b)),
            None => !cdiv_ok(cxv(a), cxv(b)),
        }),
{
    proof {
        reveal(cdiv_ok);
        reveal(cdiv_val);
    }
    let ns = match cnorm_sqr(b) {
        Some(v) => v,
        None => {
            return None;
        },
    };
    if ns.v == 0 {
        return None;
    }
    let p1 = match mul_round_opt(a.re.v, b.re.v, SCALE as u128) {
        Some(v) => v,
        None => {
            return None;
        },
    };
    let p2 = match mul_round_opt(a.im.v, b.im.v, SCALE as u128) {
        Some(v) => v,
        None => {
            return None;
        },
    };
    let pr: i128 = p1 + p2;
    if pr > RAW_BOUND || pr < -RAW_BOUND {
        return None;
    }
    let p3 = match mul_round_opt(a.im.v, b.re.v, SCALE as u128) {
        Some(v) => v,
        None => {
            return None;
        },
    };
    let p4 = match mul_round_opt(a.re.v, b.im.v, SCALE as u128) {
        Some(v) => v,
        None => {
            return None;
        },
    };
    let pi: i128 = p3 - p4;
    if pi > RAW_BOUND || pi < -RAW_BOUND {
        return None;
    }
    let re = match div_round_opt(pr, ns.v) {
        Some(v) => v,
        None => {
            return None;
        },
    };
    let im = match div_round_opt(pi, ns.v) {
        Some(v) => v,
        None => {
            return None;
        },
    };
    Some(Cx { re: Fx { v: re }, im: Fx { v: im } })
}

/// Value of the complex sine through
/// `sin(a + bi) = sin(a)cosh(b) + i cos(a)sinh(b)`.
#[verifier::opaque]
pub open spec fn sin_complex_spec(v: (int, int)) -> Option<(int, int)> {
    match (sin_spec(v.0), cos_spec(v.0), sinh_spec(v.1), cosh_spec(v.1)) {
        (Some(sa), Some(ca), Some(shb), Some(chb)) => {
            let re = mul_round(sa, chb, SCALE as int);
            let im = mul_round(ca, shb, SCALE as int);
            if in_bound(re) && in_bound(im) {
                Some((re, im))
            } else {
                None
            }
        },
        _ => None,
    }
}

/// Value of the complex cosine through
/// `cos(a + bi) = cos(a)cosh(b) - i sin(a)sinh(b)`.
#[verifier::opaque]
pub open spec fn cos_complex_spec(v: (int, int)) -> Option<(int, int)> {
    match (sin_spec(v.0), cos_spec(v.0), sinh_spec(v.1), cosh_spec(v.1)) {
        (Some(sa), Some(ca), Some(shb), Some(chb)) => {
            let re = mul_round(ca, chb, SCALE as int);
            let im = mul_round(sa, shb, SCALE as int);
            if in_bound(re) && in_bound(im) {
                Some((re, -im))
            } else {
                None
            }
        },
        _ => None,
    }
}

/// Complex sine: the trigonometric factors of the real part are reduced by
/// 2*pi, the hyperbolic factors of the imaginary part are evaluated
/// directly.
pub fn sin_complex(v: Cx) -> (r: Option<Cx>)
    requires
        cx_wf(v),
    ensures
        (match r {
            Some(c) => cx_wf(c) && sin_complex_spec(cxv(v)) == Some(cxv(c)),
            None => sin_complex_spec(cxv(v)) is None,
        }),
{
    proof {
        reveal(sin_complex_spec);
    }
    let sa = match fx_sin(v.re) {
        Some(x) => x,
        None => {
            return None;
        },
    };
    let ca = match fx_cos(v.re) {
        Some(x) => x,
        None => {
            return None;
        },
    };
    let shb = match fx_sinh(v.im) {
        Some(x) => x,
        None => {
            return None;
        },
    };
    let chb = match fx_cosh(v.im) {
        Some(x) => x,
        None => {
            return None;
        },
    };
    let re = match mul_round_opt(sa.v, chb.v, SCALE as u128) {
        Some(x) => x,
        None => {
            return None;
        },
    };
    let im = match mul_round_opt(ca.v, shb.v, SCALE as u128) {
        Some(x) => x,
        None => {
            return None;
        },
    };
    Some(Cx { re: Fx { v: re }, im: Fx { v: im } })
}

/// Complex cosine, with the same reduction convention as `sin_complex`.
pub fn cos_complex(v: Cx) -> (r: Option<Cx>)
    requires
        cx_wf(v),
    ensures
        (match r {
            Some(c) => cx_wf(c) && cos_complex_spec(cxv(v)) == Some(cxv(c)),
            None => cos_complex_spec(cxv(v)) is None,
        }),
{
    proof {
        reveal(cos_complex_spec);
    }
    let sa = match fx_sin(v.re) {
        Some(x) => x,
        None => {
            return None;
        },
    };
    let ca = match fx_cos(v.re) {
        Some(x) => x,
        None => {
            return None;
        },
    };
    let shb = match fx_sinh(v.im) {
        Some(x) => x,
        None => {
            return None;
        },
    };
    let chb = match fx_cosh(v.im) {
        Some(x) => x,
        None => {
            return None;
        },
    };
    let re = match mul_round_opt(ca.v, chb.v, SCALE as u128) {
        Some(x) => x,
        None => {
            return None;
        },
    };
    let im = match mul_round_opt(sa.v, shb.v, SCALE as u128) {
        Some(x) => x,
        None => {
            return None;
        },
    };
    Some(Cx { re: Fx { v: re }, im: Fx { v: -im } })
}

/// For a purely real argument `a + 0i` the complex sine and cosine agree
/// exactly with the real sine and cosine: the real parts are `sin(a)` and
/// `cos(a)` and the imaginary parts are zero, because `sinh(0) == 0` and
/// `cosh(0) == 1` exactly.
pub proof fn lemma_complex_trig_real_arg(a: int)
    ensures
        sin_complex_spec((a, 0)) == Some((sin_spec(a).unwrap(), 0int)),
        cos_complex_spec((a, 0)) == Some((cos_spec(a).unwrap(), 0int)),
{
    reveal(sin_complex_spec);
    reveal(cos_complex_spec);
    reveal(sin_spec);
    reveal(cos_spec);
    crate::trig::lemma_sin_spec_total(a);
    crate::trig::lemma_cos_spec_total(a);
    crate::trig::lemma_sinh_spec_zero();
    crate::trig::lemma_cosh_spec_zero();
    let sa = sin_spec(a).unwrap();
    let ca = cos_spec(a).unwrap();
    lemma_mul_round_one(sa);
    lemma_mul_round_one(ca);
    lemma_mul_round_zero(sa, SCALE as int);
    lemma_mul_round_zero(ca, SCALE as int);
}

/// For a purely imaginary argument `0 + bi` the complex sine is
/// `i sinh(b)` and the complex cosine is `cosh(b)`, exactly, because
/// `sin(0) == 0` and `cos(0) == 1` exactly.
pub proof fn lemma_complex_trig_imag_arg(b: int)
    ensures
        (match (sinh_spec(b), cosh_spec(b)) {
            (Some(sh), Some(ch)) => sin_complex_spec((0, b)) == Some((0int, sh))
                && cos_complex_spec((0, b)) == Some((ch, 0int)),
            _ => sin_complex_spec((0, b)) is None && cos_complex_spec((0, b)) is None,
        }),
{
    reveal(sin_complex_spec);
    reveal(cos_complex_spec);
    reveal(sinh_spec);
    reveal(cosh_spec);
    crate::trig::lemma_sin_spec_zero();
    crate::trig::lemma_cos_spec_zero();
    match (sinh_spec(b), cosh_spec(b)) {
        (Some(sh), Some(ch)) => {
            lemma_mul_round_one(sh);
            lemma_mul_round_one(ch);
            lemma_mul_round_zero(sh, SCALE as int);
            lemma_mul_round_zero(ch, SCALE as int);
        },
        _ => {},
    }
}

} // verus!
