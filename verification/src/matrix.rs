//! 2x2 complex matrices: the characteristic matrices of the transfer
//! matrix method and their ordered products.
//!
//! Matrix multiplication is not commutative, and the solver depends on the
//! order of its products, so every contract pins each entry of the result
//! to the exact rounded sum of products it comes from.

use vstd::prelude::*;
use crate::complex::Cx;
use crate::complex::cx_wf;
use crate::complex::cxv;
use crate::complex::cv_in_bound;
use crate::complex::cadd_val;
use crate::complex::cmul_val;
use crate::complex::cmul_ok;
use crate::complex::cmul;
use crate::complex::cadd;
use crate::fixed::Fx;
use crate::fixed::SCALE;

verus! {

/// The raw entry pairs of a 2x2 complex matrix, row by row.
pub type MatV = ((int, int), (int, int), (int, int), (int, int));

/// A 2x2 complex matrix, row by row.
#[derive(Clone, Copy, PartialEq, Eq, Structural, Debug)]
pub struct Mat {
    pub m00: Cx,
    pub m01: Cx,
    pub m10: Cx,
    pub m11: Cx,
}

/// The four raw entry pairs of a matrix, row by row.
pub open spec fn mxv(m: Mat) -> MatV {
    (cxv(m.m00), cxv(m.m01), cxv(m.m10), cxv(m.m11))
}

/// All four entries well formed.
pub open spec fn mat_wf(m: Mat) -> bool {
    cx_wf(m.m00) && cx_wf(m.m01) && cx_wf(m.m10) && cx_wf(m.m11)
}

/// Raw value of one product entry `a * b + c * d`.
pub open spec fn muladd2_val(a: (int, int), b: (int, int), c: (int, int), d: (int, int)) -> (
    int,
    int,
) {
    cadd_val(cmul_val(a, b), cmul_val(c, d))
}

/// Every intermediate of one product entry representable.
pub open spec fn muladd2_ok(a: (int, int), b: (int, int), c: (int, int), d: (int, int)) -> bool {
    cmul_ok(a, b) && cmul_ok(c, d) && cv_in_bound(muladd2_val(a, b, c, d))
}

/// Raw value of the rounded matrix product, row times column.
#[verifier::opaque]
pub open spec fn mat_mul_val(x: MatV, y: MatV) -> MatV {
    (
        muladd2_val(x.0, y.0, x.1, y.2),
        muladd2_val(x.0, y.1, x.1, y.3),
        muladd2_val(x.2, y.0, x.3, y.2),
        muladd2_val(x.2, y.1, x.3, y.3),
    )
}

/// Every intermediate of the rounded matrix product representable.
#[verifier::opaque]
pub open spec fn mat_mul_ok(x: MatV, y: MatV) -> bool {
    muladd2_ok(x.0, y.0, x.1, y.2) && muladd2_ok(x.0, y.1, x.1, y.3) && muladd2_ok(
        x.2,
        y.0,
        x.3,
        y.2,
    ) && muladd2_ok(x.2, y.1, x.3, y.3)
}

/// The raw entries of the identity matrix.
pub open spec fn mat_identity_val() -> MatV {
    ((SCALE as int, 0int), (0int, 0int), (0int, 0int), (SCALE as int, 0int))
}

/// The identity matrix.
pub fn mat_identity() -> (r: Mat)
    ensures
        mat_wf(r),
        mxv(r) == mat_identity_val(),
{
    Mat {
        m00: Cx { re: Fx { v: SCALE }, im: Fx { v: 0 } },
        m01: Cx { re: Fx { v: 0 }, im: Fx { v: 0 } },
        m10: Cx { re: Fx { v: 0 }, im: Fx { v: 0 } },
        m11: Cx { re: Fx { v: SCALE }, im: Fx { v: 0 } },
    }
}

/// One product entry `a * b + c * d` in exact rounded arithmetic.
fn muladd2(a: Cx, b: Cx, c: Cx, d: Cx) -> (r: Option<Cx>)
    requires
        cx_wf(a),
        cx_wf(b),
        cx_wf(c),
        cx_wf(d),
    ensures
        (match r {
            Some(e) => cx_wf(e) && muladd2_ok(cxv(a), cxv(b), cxv(c), cxv(d)) && cxv(e)
                == muladd2_val(cxv(a), cxv(b), cxv(c), cxv(d)),
            None => !muladd2_ok(cxv(a), cxv(b), cxv(c), cxv(d)),
        }),
{
    let p = match cmul(a, b) {
        Some(v) => v,
        None => {
            return None;
        },
    };
    let q = match cmul(c, d) {
        Some(v) => v,
        None => {
            return None;
        },
    };
    cadd(p, q)
}

/// Rounded product of two matrices, in the given order.
pub fn mat_mul(x: Mat, y: Mat) -> (r: Option<Mat>)
    requires
        mat_wf(x),
        mat_wf(y),
    ensures
        (match r {
            Some(m) => mat_wf(m) && mat_mul_ok(mxv(x), mxv(y)) && mxv(m) == mat_mul_val(
                mxv(x),
                mxv(y),
            ),
            None => !mat_mul_ok(mxv(x), mxv(y)),
        }),
{
    proof {
        reveal(mat_mul_ok);
        reveal(mat_mul_val);
    }
    let e00 = match muladd2(x.m00, y.m00, x.m01, y.m10) {
        Some(v) => v,
        None => {
            return None;
        },
    };
    let e01 = match muladd2(x.m00, y.m01, x.m01, y.m11) {
        Some(v) => v,
        None => {
            return None;
        },
    };
    let e10 = match muladd2(x.m10, y.m00, x.m11, y.m10) {
        Some(v) => v,
        None => {
            return None;
        },
    };
    let e11 = match muladd2(x.m10, y.m01, x.m11, y.m11) {
        Some(v) => v,
        None => {
            return None;
        },
    };
    Some(Mat { m00: e00, m01: e01, m10: e10, m11: e11 })
}

} // verus!
