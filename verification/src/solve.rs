//! The transfer-matrix solver: from a stack of layers, a wavelength and an
//! incidence angle to reflectance and transmittance.
//!
//! The pipeline follows the physics of stratified media: Snell's law gives
//! each layer a local propagation angle (represented by its cosine, since
//! only the cosine enters the matrices); each interior layer contributes a
//! characteristic matrix; the matrices are composed in physical order; the
//! boundary media contribute field-matching matrices; and the reflection
//! and transmission coefficients fall out of the composed system matrix.
//!
//! Every failure is a typed error: an undersized stack or non-positive
//! wavelength, a Snell argument outside [-1, 1], a numerically zero
//! incidence admittance, a numerically zero system pivot, or a value
//! outside the representable fixed-point range.  Nothing is silently
//! folded into a wrong number.

use vstd::prelude::*;
use crate::fixed::Fx;
use crate::fixed::fx_wf;
use crate::fixed::in_bound;
use crate::fixed::iabs;
use crate::fixed::mul_round;
use crate::fixed::div_round;
use crate::fixed::mul_round_opt;
use crate::fixed::div_round_opt;
use crate::fixed::isqrt_spec;
use crate::fixed::isqrt_u128;
use crate::fixed::lemma_mul_round_sq_le_one;
use crate::fixed::SCALE;
use crate::fixed::RAW_BOUND;
use crate::complex::Cx;
use crate::complex::cx_wf;
use crate::complex::cxv;
use crate::complex::cv_in_bound;
use crate::complex::cscale_ok;
use crate::complex::cscale_val;
use crate::complex::cscale;
use crate::complex::cmul_ok;
use crate::complex::cmul_val;
use crate::complex::cmul;
use crate::complex::csub_val;
use crate::complex::csub;
use crate::complex::cneg;
use crate::complex::cdiv_ok;
use crate::complex::cdiv_val;
use crate::complex::cdiv;
use crate::complex::cnorm_sqr_ok;
use crate::complex::cnorm_sqr_val;
use crate::complex::cnorm_sqr;
use crate::complex::sin_complex_spec;
use crate::complex::cos_complex_spec;
use crate::complex::sin_complex;
use crate::complex::cos_complex;
use crate::trig::sin_spec;
use crate::trig::cos_spec;
use crate::trig::fx_sin;
use crate::trig::fx_cos;
use crate::trig::TWO_PI_RAW;
use crate::matrix::Mat;
use crate::matrix::MatV;
use crate::matrix::mat_wf;
use crate::matrix::mxv;
use crate::matrix::mat_identity;
use crate::matrix::mat_identity_val;
use crate::matrix::mat_mul;
use crate::matrix::mat_mul_ok;
use crate::matrix::mat_mul_val;

verus! {

/// One slab of the stack: a complex refractive index and a thickness in
/// the units of the wavelength.  The first and last layers of a stack are
/// the semi-infinite ambient and substrate media; their thickness is
/// carried but never read.
#[derive(Clone, Copy, PartialEq, Eq, Structural, Debug)]
pub struct Layer {
    pub index: Cx,
    pub thickness: Fx,
}

/// Why a solve gave no answer.
#[derive(Clone, Copy, PartialEq, Eq, Structural, Debug)]
pub enum SolveError {
    /// Fewer than two layers, or a non-positive wavelength.
    InvalidStack,
    /// Snell's law asked for the arcsine of a value outside [-1, 1]:
    /// the real-angle model does not cover total internal reflection.
    SnellDomainError,
    /// The incidence-side admittance is numerically zero (grazing
    /// incidence), so the incidence matrix cannot be inverted.
    SingularBoundaryMatrix,
    /// The pivot of the composed system matrix is numerically zero.
    SingularSystemMatrix,
    /// An intermediate value left the representable fixed-point range.
    Overflow,
}

/// Reflectance and transmittance of the stack.
#[derive(Clone, Copy, PartialEq, Eq, Structural, Debug)]
pub struct SolveResult {
    pub reflectance: Fx,
    pub transmittance: Fx,
}

/// Raw magnitude below which an admittance or pivot counts as
/// numerically zero: 2^-24 in scalar value.
pub const EPS_SING: i128 = 16777216;

/// A well-formed layer: both parts of the index and the thickness are
/// representable.
pub open spec fn layer_wf(l: Layer) -> bool {
    cx_wf(l.index) && fx_wf(l.thickness)
}

/// A well-formed stack: every layer is well formed, every index has a
/// positive real part (it serves as a divisor in Snell's law), and no
/// thickness is negative.
pub open spec fn stack_wf(s: Seq<Layer>) -> bool {
    forall|i: int|
        0 <= i < s.len() ==> #[trigger] layer_wf(s[i]) && s[i].index.re.v > 0 && s[i].thickness.v
            >= 0
}

/// Reads one layer's well-formedness facts out of a well-formed stack.
pub proof fn lemma_stack_layer(s: Seq<Layer>, i: int)
    requires
        stack_wf(s),
        0 <= i < s.len(),
    ensures
        layer_wf(s[i]),
        s[i].index.re.v > 0,
        s[i].thickness.v >= 0,
{
}

/// The incidence admittance counts as numerically zero: both components
/// below the threshold, or a real part of exactly zero (it divides the
/// transmittance).
pub open spec fn boundary_singular(q: (int, int)) -> bool {
    (iabs(q.0) < EPS_SING as int && iabs(q.1) < EPS_SING as int) || q.0 == 0
}

/// The system pivot counts as numerically zero.
pub open spec fn system_singular(m00: (int, int)) -> bool {
    iabs(m00.0) < EPS_SING as int && iabs(m00.1) < EPS_SING as int
}

/// Snell's law for one medium, on real parts: the local sine
/// `n0re * s0 / nre` and the cosine of the local angle,
/// `sqrt(1 - sine^2)`, both in raw units.
#[verifier::opaque]
pub open spec fn snell_cos_spec(n0re: int, s0: int, nre: int) -> Result<(int, int), SolveError> {
    let p = mul_round(n0re, s0, SCALE as int);
    if !in_bound(p) {
        Err(SolveError::Overflow)
    } else {
        let sl = div_round(p, nre);
        if !in_bound(sl) {
            Err(SolveError::Overflow)
        } else if iabs(sl) > SCALE as int {
            Err(SolveError::SnellDomainError)
        } else {
            let c2 = SCALE as int - mul_round(sl, sl, SCALE as int);
            Ok((sl, isqrt_spec((c2 * (SCALE as int)) as nat) as int))
        }
    }
}

/// The characteristic matrix of one interior layer, from the vacuum
/// wavenumber `k0`, the layer index `n`, the thickness `d` and the cosine
/// `ct` of the local angle:
/// rows `[cos(kz d), i sin(kz d) / neff]`, `[neff i sin(kz d), cos(kz d)]`
/// with `kz d = k0 n ct d` and the effective admittance `neff = n ct`.
#[verifier::opaque]
pub open spec fn transfer_matrix_spec(k0: int, n: (int, int), d: int, ct: int) -> Result<
    MatV,
    SolveError,
> {
    let w = mul_round(k0, d, SCALE as int);
    if !in_bound(w) {
        Err(SolveError::Overflow)
    } else {
        let wc = mul_round(w, ct, SCALE as int);
        if !in_bound(wc) {
            Err(SolveError::Overflow)
        } else {
            let kz = (mul_round(n.0, wc, SCALE as int), mul_round(n.1, wc, SCALE as int));
            if !cv_in_bound(kz) {
                Err(SolveError::Overflow)
            } else {
                let neff = (mul_round(n.0, ct, SCALE as int), mul_round(n.1, ct, SCALE as int));
                if !cv_in_bound(neff) {
                    Err(SolveError::Overflow)
                } else {
                    match (sin_complex_spec(kz), cos_complex_spec(kz)) {
                        (Some(sc), Some(cc)) => {
                            let q2 = (-sc.1, sc.0);
                            if !cdiv_ok(q2, neff) {
                                Err(SolveError::Overflow)
                            } else if !cmul_ok(neff, q2) {
                                Err(SolveError::Overflow)
                            } else {
                                Ok((cc, cdiv_val(q2, neff), cmul_val(neff, q2), cc))
                            }
                        },
                        _ => Err(SolveError::Overflow),
                    }
                }
            }
        }
    }
}

/// Snell's law and the local cosine for one medium, in exact rounded
/// arithmetic.
fn snell_cos(n0re: i128, s0: i128, nre: i128) -> (r: Result<(i128, i128), SolveError>)
    requires
        in_bound(n0re as int),
        in_bound(s0 as int),
        in_bound(nre as int),
        nre > 0,
    ensures
        (match r {
            Ok((sl, ct)) => snell_cos_spec(n0re as int, s0 as int, nre as int) == Ok::<
                (int, int),
                SolveError,
            >((sl as int, ct as int)) && in_bound(sl as int) && 0 <= ct <= SCALE,
            Err(e) => snell_cos_spec(n0re as int, s0 as int, nre as int) == Err::<
                (int, int),
                SolveError,
            >(e) && (e == SolveError::Overflow || e == SolveError::SnellDomainError),
        }),
{
    proof {
        reveal(snell_cos_spec);
    }
    let p = match mul_round_opt(n0re, s0, SCALE as u128) {
        Some(v) => v,
        None => {
            return Err(SolveError::Overflow);
        },
    };
    let sl = match div_round_opt(p, nre) {
        Some(v) => v,
        None => {
            return Err(SolveError::Overflow);
        },
    };
    let asl: i128 = if sl < 0 {
        -sl
    } else {
        sl
    };
    if asl > SCALE {
        return Err(SolveError::SnellDomainError);
    }
    proof {
        lemma_mul_round_sq_le_one(sl as int);
    }
    let q2 = match mul_round_opt(sl, sl, SCALE as u128) {
        Some(v) => v,
        None => {
            // the square of a sine bounded by one never leaves the range
            proof {
                assert(false);
            }
            return Err(SolveError::Overflow);
        },
    };
    let c2: i128 = SCALE - q2;
    proof {
        assert((c2 as int) * (SCALE as int) <= (SCALE as int) * (SCALE as int))
            by (nonlinear_arith)
            requires
                0 <= c2 as int <= SCALE as int,
        ;
        assert((c2 as u128 as int) * (SCALE as u128 as int) == (c2 as int) * (SCALE as int));
    }
    let nn: u128 = (c2 as u128) * (SCALE as u128);
    let ct128: u128 = isqrt_u128(nn);
    let ct: i128 = ct128 as i128;
    proof {
        assert((ct as int) * (ct as int) <= (c2 as int) * (SCALE as int));
        assert(ct as int <= SCALE as int) by (nonlinear_arith)
            requires
                0 <= ct as int,
                (ct as int) * (ct as int) <= (c2 as int) * (SCALE as int),
                0 <= c2 as int <= SCALE as int,
        ;
    }
    Ok((sl, ct))
}

/// The characteristic matrix of one interior layer, in exact rounded
/// arithmetic.  The local angle enters only through its cosine `ct`.
pub fn transfer_matrix(k0: Fx, n: Cx, d: Fx, ct: Fx) -> (r: Result<Mat, SolveError>)
    requires
        fx_wf(k0),
        cx_wf(n),
        fx_wf(d),
        fx_wf(ct),
    ensures
        (match r {
            Ok(m) => mat_wf(m) && transfer_matrix_spec(k0.v as int, cxv(n), d.v as int, ct.v as int)
                == Ok::<MatV, SolveError>(mxv(m)),
            Err(e) => transfer_matrix_spec(k0.v as int, cxv(n), d.v as int, ct.v as int) == Err::<
                MatV,
                SolveError,
            >(e) && e == SolveError::Overflow,
        }),
{
    proof {
        reveal(transfer_matrix_spec);
    }
    let w = match mul_round_opt(k0.v, d.v, SCALE as u128) {
        Some(v) => v,
        None => {
            return Err(SolveError::Overflow);
        },
    };
    let wc = match mul_round_opt(w, ct.v, SCALE as u128) {
        Some(v) => v,
        None => {
            return Err(SolveError::Overflow);
        },
    };
    let kzre = match mul_round_opt(n.re.v, wc, SCALE as u128) {
        Some(v) => v,
        None => {
            return Err(SolveError::Overflow);
        },
    };
    let kzim = match mul_round_opt(n.im.v, wc, SCALE as u128) {
        Some(v) => v,
        None => {
            return Err(SolveError::Overflow);
        },
    };
    let kz = Cx { re: Fx { v: kzre }, im: Fx { v: kzim } };
    let nere = match mul_round_opt(n.re.v, ct.v, SCALE as u128) {
        Some(v) => v,
        None => {
            return Err(SolveError::Overflow);
        },
    };
    let neim = match mul_round_opt(n.im.v, ct.v, SCALE as u128) {
        Some(v) => v,
        None => {
            return Err(SolveError::Overflow);
        },
    };
    let neff = Cx { re: Fx { v: nere }, im: Fx { v: neim } };
    let sc = match sin_complex(kz) {
        Some(v) => v,
        None => {
            return Err(SolveError::Overflow);
        },
    };
    let cc = match cos_complex(kz) {
        Some(v) => v,
        None => {
            return Err(SolveError::Overflow);
        },
    };
    let q2 = Cx { re: Fx { v: -sc.im.v }, im: sc.re };
    let m01 = match cdiv(q2, neff) {
        Some(v) => v,
        None => {
            return Err(SolveError::Overflow);
        },
    };
    let m10 = match cmul(neff, q2) {
        Some(v) => v,
        None => {
            return Err(SolveError::Overflow);
        },
    };
    Ok(Mat { m00: cc, m01, m10, m11: cc })
}

/// The matrix one interior layer contributes: its local angle by Snell's
/// law, then the characteristic matrix.
#[verifier::opaque]
pub open spec fn layer_matrix_spec(k0: int, n0re: int, s0: int, l: Layer) -> Result<
    MatV,
    SolveError,
> {
    match snell_cos_spec(n0re, s0, l.index.re.v as int) {
        Ok(sc) => transfer_matrix_spec(k0, cxv(l.index), l.thickness.v as int, sc.1),
        Err(e) => Err(e),
    }
}

/// The ordered product of the matrices of interior layers `1 .. upto`,
/// starting from the identity: layer `i`'s matrix is right-multiplied onto
/// the product over the layers before it.  With no interior layers the
/// product is the identity.
#[verifier::opaque]
pub open spec fn interior_fold_spec(
    stack: Seq<Layer>,
    k0: int,
    n0re: int,
    s0: int,
    upto: nat,
) -> Result<MatV, SolveError>
    decreases upto,
{
    if upto <= 1 {
        Ok(mat_identity_val())
    } else {
        match interior_fold_spec(stack, k0, n0re, s0, (upto - 1) as nat) {
            Ok(m) => match layer_matrix_spec(k0, n0re, s0, stack[upto - 1]) {
                Ok(t) => if mat_mul_ok(m, t) {
                    Ok(mat_mul_val(m, t))
                } else {
                    Err(SolveError::Overflow)
                },
                Err(e) => Err(e),
            },
            Err(e) => Err(e),
        }
    }
}

/// A failing prefix of the fold decides every longer fold.
pub proof fn lemma_fold_err(stack: Seq<Layer>, k0: int, n0re: int, s0: int, m: nat, n: nat)
    requires
        m <= n,
        interior_fold_spec(stack, k0, n0re, s0, m) is Err,
    ensures
        interior_fold_spec(stack, k0, n0re, s0, n) == interior_fold_spec(stack, k0, n0re, s0, m),
    decreases n,
{
    reveal(interior_fold_spec);
    if m < n {
        lemma_fold_err(stack, k0, n0re, s0, m, (n - 1) as nat);
    }
}

/// The exit-side admittance `n_L * cos(theta_L)`, with `theta_L` from
/// Snell's law in the exit medium.
#[verifier::opaque]
pub open spec fn exit_admittance_spec(n0re: int, s0: int, nl: (int, int)) -> Result<
    (int, int),
    SolveError,
> {
    match snell_cos_spec(n0re, s0, nl.0) {
        Ok(sc) => {
            let q = (mul_round(nl.0, sc.1, SCALE as int), mul_round(nl.1, sc.1, SCALE as int));
            if cv_in_bound(q) {
                Ok(q)
            } else {
                Err(SolveError::Overflow)
            }
        },
        Err(e) => Err(e),
    }
}

/// The closed-form inverse of the incidence matrix
/// `[[1, 1], [q_in, -q_in]]`: each entry of
/// `[[m11, -m01], [-m10, m00]]` divided by the determinant
/// `m00 m11 - m01 m10`.
#[verifier::opaque]
pub open spec fn inverse_in_spec(qin: (int, int)) -> Result<MatV, SolveError> {
    let one = (SCALE as int, 0int);
    let nq = (-qin.0, -qin.1);
    if !cmul_ok(one, nq) {
        Err(SolveError::Overflow)
    } else {
        let d1 = cmul_val(one, nq);
        if !cmul_ok(one, qin) {
            Err(SolveError::Overflow)
        } else {
            let d2 = cmul_val(one, qin);
            if !cv_in_bound(csub_val(d1, d2)) {
                Err(SolveError::Overflow)
            } else {
                let det = csub_val(d1, d2);
                if !cdiv_ok(nq, det) {
                    Err(SolveError::Overflow)
                } else if !cdiv_ok((-(SCALE as int), 0int), det) {
                    Err(SolveError::Overflow)
                } else if !cdiv_ok(one, det) {
                    Err(SolveError::Overflow)
                } else {
                    Ok(
                        (
                            cdiv_val(nq, det),
                            cdiv_val((-(SCALE as int), 0int), det),
                            cdiv_val(nq, det),
                            cdiv_val(one, det),
                        ),
                    )
                }
            }
        }
    }
}

/// The inverse of the incidence matrix in exact rounded arithmetic.
fn inverse_in(qin: Cx) -> (r: Result<Mat, SolveError>)
    requires
        cx_wf(qin),
    ensures
        (match r {
            Ok(m) => mat_wf(m) && inverse_in_spec(cxv(qin)) == Ok::<MatV, SolveError>(mxv(m)),
            Err(e) => inverse_in_spec(cxv(qin)) == Err::<MatV, SolveError>(e) && e
                == SolveError::Overflow,
        }),
{
    proof {
        reveal(inverse_in_spec);
    }
    let one = Cx { re: Fx { v: SCALE }, im: Fx { v: 0 } };
    let nq = cneg(qin);
    let d1 = match cmul(one, nq) {
        Some(v) => v,
        None => {
            return Err(SolveError::Overflow);
        },
    };
    let d2 = match cmul(one, qin) {
        Some(v) => v,
        None => {
            return Err(SolveError::Overflow);
        },
    };
    let det = match csub(d1, d2) {
        Some(v) => v,
        None => {
            return Err(SolveError::Overflow);
        },
    };
    let i00 = match cdiv(nq, det) {
        Some(v) => v,
        None => {
            return Err(SolveError::Overflow);
        },
    };
    let i01 = match cdiv(cneg(one), det) {
        Some(v) => v,
        None => {
            return Err(SolveError::Overflow);
        },
    };
    let i11 = match cdiv(one, det) {
        Some(v) => v,
        None => {
            return Err(SolveError::Overflow);
        },
    };
    Ok(Mat { m00: i00, m01: i01, m10: i00, m11: i11 })
}

/// Reflectance and transmittance from the composed system matrix:
/// `r = m10 / m00`, `t = 1 / m00`, `R = |r|^2`,
/// `T = |t|^2 * Re(q_out) / Re(q_in)`.
#[verifier::opaque]
pub open spec fn extract_spec(mt: MatV, qinre: int, qout: (int, int)) -> Result<
    (int, int),
    SolveError,
> {
    if system_singular(mt.0) {
        Err(SolveError::SingularSystemMatrix)
    } else if !cdiv_ok(mt.2, mt.0) {
        Err(SolveError::Overflow)
    } else {
        let rc = cdiv_val(mt.2, mt.0);
        if !cdiv_ok((SCALE as int, 0int), mt.0) {
            Err(SolveError::Overflow)
        } else {
            let tc = cdiv_val((SCALE as int, 0int), mt.0);
            if !cnorm_sqr_ok(rc) {
                Err(SolveError::Overflow)
            } else {
                let rr = cnorm_sqr_val(rc);
                if !cnorm_sqr_ok(tc) {
                    Err(SolveError::Overflow)
                } else {
                    let tn = cnorm_sqr_val(tc);
                    let tt = mul_round(tn, qout.0, SCALE as int);
                    if !in_bound(tt) {
                        Err(SolveError::Overflow)
                    } else {
                        let tv = div_round(tt, qinre);
                        if !in_bound(tv) {
                            Err(SolveError::Overflow)
                        } else {
                            Ok((rr, tv))
                        }
                    }
                }
            }
        }
    }
}

/// The boundary-coupling and extraction stage: from the composed interior
/// matrix `m`, the incidence admittance `qin` and the exit medium, to the
/// raw reflectance and transmittance pair.
#[verifier::opaque]
pub open spec fn tail_spec(m: MatV, qin: (int, int), n0re: int, s0: int, nl: (int, int)) -> Result<
    (int, int),
    SolveError,
> {
    match exit_admittance_spec(n0re, s0, nl) {
        Ok(qout) => {
            let mo = ((SCALE as int, 0int), (SCALE as int, 0int), qout, (-qout.0, -qout.1));
            match inverse_in_spec(qin) {
                Ok(minv) => if !mat_mul_ok(m, mo) {
                    Err(SolveError::Overflow)
                } else {
                    let mtemp = mat_mul_val(m, mo);
                    if !mat_mul_ok(minv, mtemp) {
                        Err(SolveError::Overflow)
                    } else {
                        extract_spec(mat_mul_val(minv, mtemp), qin.0, qout)
                    }
                },
                Err(e) => Err(e),
            }
        },
        Err(e) => Err(e),
    }
}

/// What the solver returns, as a function of the raw inputs: the typed
/// error of the first stage that fails, else the raw reflectance and
/// transmittance pair.  The unwrapped sine and cosine of the incidence
/// angle are always defined: see `lemma_sin_spec_total` and
/// `lemma_cos_spec_total`.
#[verifier::opaque]
pub open spec fn solve_spec(stack: Seq<Layer>, wavelength: int, theta: int) -> Result<
    (int, int),
    SolveError,
> {
    if stack.len() < 2 || wavelength <= 0 {
        Err(SolveError::InvalidStack)
    } else {
        let s0 = sin_spec(theta).unwrap();
        let c0 = cos_spec(theta).unwrap();
        let k0 = div_round(TWO_PI_RAW as int, wavelength);
        if !in_bound(k0) {
            Err(SolveError::Overflow)
        } else {
            let n0 = cxv(stack[0].index);
            let nl = cxv(stack[stack.len() - 1].index);
            if !cscale_ok(n0, c0) {
                Err(SolveError::Overflow)
            } else {
                let qin = cscale_val(n0, c0);
                if boundary_singular(qin) {
                    Err(SolveError::SingularBoundaryMatrix)
                } else {
                    match interior_fold_spec(stack, k0, n0.0, s0, (stack.len() - 1) as nat) {
                        Ok(m) => tail_spec(m, qin, n0.0, s0, nl),
                        Err(e) => Err(e),
                    }
                }
            }
        }
    }
}

/// The boundary-coupling and extraction stage in exact rounded arithmetic.
fn finish_solve(acc: Mat, qin: Cx, n0re: i128, s0: Fx, nl: Cx) -> (r: Result<
    SolveResult,
    SolveError,
>)
    requires
        mat_wf(acc),
        cx_wf(qin),
        cx_wf(nl),
        fx_wf(s0),
        in_bound(n0re as int),
        nl.re.v > 0,
        qin.re.v != 0,
    ensures
        (match r {
            Ok(res) => fx_wf(res.reflectance) && fx_wf(res.transmittance) && res.reflectance.v >= 0
                && tail_spec(mxv(acc), cxv(qin), n0re as int, s0.v as int, cxv(nl)) == Ok::<
                (int, int),
                SolveError,
            >((res.reflectance.v as int, res.transmittance.v as int)),
            Err(e) => tail_spec(mxv(acc), cxv(qin), n0re as int, s0.v as int, cxv(nl)) == Err::<
                (int, int),
                SolveError,
            >(e) && e != SolveError::InvalidStack && e != SolveError::SingularBoundaryMatrix,
        }),
{
    proof {
        reveal(tail_spec);
        reveal(exit_admittance_spec);
        reveal(extract_spec);
    }
    let scl = match snell_cos(n0re, s0.v, nl.re.v) {
        Ok(v) => v,
        Err(e) => {
            return Err(e);
        },
    };
    let qoutre = match mul_round_opt(nl.re.v, scl.1, SCALE as u128) {
        Some(v) => v,
        None => {
            return Err(SolveError::Overflow);
        },
    };
    let qoutim = match mul_round_opt(nl.im.v, scl.1, SCALE as u128) {
        Some(v) => v,
        None => {
            return Err(SolveError::Overflow);
        },
    };
    let qout = Cx { re: Fx { v: qoutre }, im: Fx { v: qoutim } };
    let one = Cx { re: Fx { v: SCALE }, im: Fx { v: 0 } };
    let mo = Mat { m00: one, m01: one, m10: qout, m11: cneg(qout) };
    let minv = match inverse_in(qin) {
        Ok(v) => v,
        Err(e) => {
            return Err(e);
        },
    };
    let mtemp = match mat_mul(acc, mo) {
        Some(v) => v,
        None => {
            return Err(SolveError::Overflow);
        },
    };
    let mtotal = match mat_mul(minv, mtemp) {
        Some(v) => v,
        None => {
            return Err(SolveError::Overflow);
        },
    };
    let pre_small: bool = mtotal.m00.re.v < EPS_SING && mtotal.m00.re.v > -EPS_SING;
    let pim_small: bool = mtotal.m00.im.v < EPS_SING && mtotal.m00.im.v > -EPS_SING;
    if pre_small && pim_small {
        return Err(SolveError::SingularSystemMatrix);
    }
    let rc = match cdiv(mtotal.m10, mtotal.m00) {
        Some(v) => v,
        None => {
            return Err(SolveError::Overflow);
        },
    };
    let tc = match cdiv(one, mtotal.m00) {
        Some(v) => v,
        None => {
            return Err(SolveError::Overflow);
        },
    };
    let rr = match cnorm_sqr(rc) {
        Some(v) => v,
        None => {
            return Err(SolveError::Overflow);
        },
    };
    let tn = match cnorm_sqr(tc) {
        Some(v) => v,
        None => {
            return Err(SolveError::Overflow);
        },
    };
    let tt = match mul_round_opt(tn.v, qout.re.v, SCALE as u128) {
        Some(v) => v,
        None => {
            return Err(SolveError::Overflow);
        },
    };
    let tv = match div_round_opt(tt, qin.re.v) {
        Some(v) => v,
        None => {
            return Err(SolveError::Overflow);
        },
    };
    Ok(SolveResult { reflectance: rr, transmittance: Fx { v: tv } })
}

/// The ordered composition of the interior layers' matrices, left to
/// right in physical order, starting from the identity.
#[verifier::loop_isolation(false)]
fn compute_interior(layers: &Vec<Layer>, k0f: Fx, n0: Cx, s0: Fx) -> (r: Result<Mat, SolveError>)
    requires
        stack_wf(layers@),
        layers@.len() >= 2,
        fx_wf(k0f),
        fx_wf(s0),
        n0 == layers@[0].index,
    ensures
        (match r {
            Ok(m) => mat_wf(m) && interior_fold_spec(
                layers@,
                k0f.v as int,
                n0.re.v as int,
                s0.v as int,
                (layers@.len() - 1) as nat,
            ) == Ok::<MatV, SolveError>(mxv(m)),
            Err(e) => interior_fold_spec(
                layers@,
                k0f.v as int,
                n0.re.v as int,
                s0.v as int,
                (layers@.len() - 1) as nat,
            ) == Err::<MatV, SolveError>(e) && (e == SolveError::Overflow || e
                == SolveError::SnellDomainError),
        }),
{
    proof {
        reveal(interior_fold_spec);
        reveal(layer_matrix_spec);
    }
    proof {
        lemma_stack_layer(layers@, 0);
    }
    let last: usize = layers.len() - 1;
    let mut acc = mat_identity();
    let mut i: usize = 1;
    while i < last
        invariant
            1 <= i <= last,
            mat_wf(acc),
            interior_fold_spec(layers@, k0f.v as int, n0.re.v as int, s0.v as int, i as nat)
                == Ok::<MatV, SolveError>(mxv(acc)),
        decreases last - i,
    {
        let l = layers[i];
        proof {
            reveal(interior_fold_spec);
            reveal(layer_matrix_spec);
            lemma_stack_layer(layers@, i as int);
        }
        let ghost fold_next = interior_fold_spec(
            layers@,
            k0f.v as int,
            n0.re.v as int,
            s0.v as int,
            (i + 1) as nat,
        );
        let sc = match snell_cos(n0.re.v, s0.v, l.index.re.v) {
            Ok(v) => v,
            Err(e) => {
                proof {
                    assert(fold_next == Err::<MatV, SolveError>(e));
                    lemma_fold_err(
                        layers@,
                        k0f.v as int,
                        n0.re.v as int,
                        s0.v as int,
                        (i + 1) as nat,
                        (layers@.len() - 1) as nat,
                    );
                }
                return Err(e);
            },
        };
        let t = match transfer_matrix(k0f, l.index, l.thickness, Fx { v: sc.1 }) {
            Ok(v) => v,
            Err(e) => {
                proof {
                    assert(fold_next == Err::<MatV, SolveError>(e));
                    lemma_fold_err(
                        layers@,
                        k0f.v as int,
                        n0.re.v as int,
                        s0.v as int,
                        (i + 1) as nat,
                        (layers@.len() - 1) as nat,
                    );
                }
                return Err(e);
            },
        };
        acc = match mat_mul(acc, t) {
            Some(v) => v,
            None => {
                proof {
                    assert(fold_next == Err::<MatV, SolveError>(SolveError::Overflow));
                    lemma_fold_err(
                        layers@,
                        k0f.v as int,
                        n0.re.v as int,
                        s0.v as int,
                        (i + 1) as nat,
                        (layers@.len() - 1) as nat,
                    );
                }
                return Err(SolveError::Overflow);
            },
        };
        i = i + 1;
    }
    Ok(acc)
}

/// Solves the stack: reflectance and transmittance of a plane wave of the
/// given wavelength meeting the stack at the given incidence angle
/// (radians).  The first and last layers are the semi-infinite incidence
/// and exit media.
///
/// The result is pinned to `solve_spec`, stage by stage; a stack of fewer
/// than two layers or a non-positive wavelength is rejected as
/// `InvalidStack`, and exactly then.
#[verifier::rlimit(50)]
pub fn solve_tmm(layers: &Vec<Layer>, wavelength: Fx, theta: Fx) -> (r: Result<
    SolveResult,
    SolveError,
>)
    requires
        stack_wf(layers@),
        fx_wf(wavelength),
        fx_wf(theta),
    ensures
        (match r {
            Ok(res) => fx_wf(res.reflectance) && fx_wf(res.transmittance) && res.reflectance.v >= 0
                && solve_spec(layers@, wavelength.v as int, theta.v as int) == Ok::<
                (int, int),
                SolveError,
            >((res.reflectance.v as int, res.transmittance.v as int)),
            Err(e) => solve_spec(layers@, wavelength.v as int, theta.v as int) == Err::<
                (int, int),
                SolveError,
            >(e),
        }),
        (layers@.len() < 2 || wavelength.v <= 0) <==> r == Err::<SolveResult, SolveError>(
            SolveError::InvalidStack,
        ),
{
    proof {
        reveal(solve_spec);
    }
    if layers.len() < 2 || wavelength.v <= 0 {
        return Err(SolveError::InvalidStack);
    }
    let s0 = match fx_sin(theta) {
        Some(v) => v,
        None => {
            // the circular sine always evaluates
            proof {
                assert(false);
            }
            return Err(SolveError::Overflow);
        },
    };
    let c0 = match fx_cos(theta) {
        Some(v) => v,
        None => {
            // the circular cosine always evaluates
            proof {
                assert(false);
            }
            return Err(SolveError::Overflow);
        },
    };
    let k0 = match div_round_opt(TWO_PI_RAW, wavelength.v) {
        Some(v) => v,
        None => {
            return Err(SolveError::Overflow);
        },
    };
    let k0f = Fx { v: k0 };
    let n0 = layers[0].index;
    let last: usize = layers.len() - 1;
    let nl = layers[last].index;
    proof {
        lemma_stack_layer(layers@, 0);
        lemma_stack_layer(layers@, last as int);
    }
    let qin = match cscale(n0, c0) {
        Some(v) => v,
        None => {
            return Err(SolveError::Overflow);
        },
    };
    let qre_small: bool = qin.re.v < EPS_SING && qin.re.v > -EPS_SING;
    let qim_small: bool = qin.im.v < EPS_SING && qin.im.v > -EPS_SING;
    if (qre_small && qim_small) || qin.re.v == 0 {
        return Err(SolveError::SingularBoundaryMatrix);
    }
    let acc = match compute_interior(layers, k0f, n0, s0) {
        Ok(m) => m,
        Err(e) => {
            return Err(e);
        },
    };
    finish_solve(acc, qin, n0.re.v, s0, nl)
}

/// Grazing incidence is reported, not swallowed: when the stack and the
/// wavelength are accepted and the incidence admittance
/// `n_0 cos(theta_0)` is numerically zero, the solver returns
/// `SingularBoundaryMatrix` -- never a number made of infinities.
pub proof fn lemma_grazing_is_singular_boundary(stack: Seq<Layer>, wavelength: int, theta: int)
    requires
        stack.len() >= 2,
        wavelength > 0,
        in_bound(div_round(TWO_PI_RAW as int, wavelength)),
        cscale_ok(cxv(stack[0].index), cos_spec(theta).unwrap()),
        boundary_singular(cscale_val(cxv(stack[0].index), cos_spec(theta).unwrap())),
    ensures
        solve_spec(stack, wavelength, theta) == Err::<(int, int), SolveError>(
            SolveError::SingularBoundaryMatrix,
        ),
{
    reveal(solve_spec);
}

} // verus!
