use tmm::fixed::Fx;
use tmm::trig::fx_sin;
use tmm::trig::fx_cos;
use tmm::trig::fx_sinh;
use tmm::trig::fx_cosh;
use tmm::complex::Cx;
use tmm::complex::sin_complex;
use tmm::complex::cos_complex;

const SCALE_F: f64 = 281474976710656.0;

fn fx(x: f64) -> Fx {
    Fx { v: (x * SCALE_F).round() as i128 }
}

fn to_f(x: Fx) -> f64 {
    x.v as f64 / SCALE_F
}

fn cx(re: f64, im: f64) -> Cx {
    Cx { re: fx(re), im: fx(im) }
}

#[test]
fn sine_matches_the_real_sine() {
    for x in [0.0, 0.1, 0.7, 1.0, -1.3, 3.0, -3.1, 1.5707963267948966] {
        let r = to_f(fx_sin(fx(x)).unwrap());
        assert!((r - x.sin()).abs() < 1e-12, "sin({}) = {}", x, r);
    }
}

#[test]
fn cosine_matches_the_real_cosine() {
    for x in [0.0, 0.1, 0.7, 1.0, -1.3, 3.0, -3.1, 3.141592653589793] {
        let r = to_f(fx_cos(fx(x)).unwrap());
        assert!((r - x.cos()).abs() < 1e-12, "cos({}) = {}", x, r);
    }
}

#[test]
fn sine_of_zero_is_exactly_zero() {
    assert_eq!(fx_sin(Fx { v: 0 }).unwrap().v, 0);
    assert_eq!(fx_cos(Fx { v: 0 }).unwrap().v, fx(1.0).v);
}

#[test]
fn large_arguments_are_reduced() {
    for x in [100.0, -250.5, 1000.25] {
        let r = to_f(fx_sin(fx(x)).unwrap());
        assert!((r - x.sin()).abs() < 1e-11, "sin({}) = {}", x, r);
        let c = to_f(fx_cos(fx(x)).unwrap());
        assert!((c - x.cos()).abs() < 1e-11, "cos({}) = {}", x, c);
    }
}

#[test]
fn hyperbolics_match_the_real_functions() {
    for x in [0.0, 0.5, 1.3, -2.0, 5.0, -8.0] {
        let s = to_f(fx_sinh(fx(x)).unwrap());
        let c = to_f(fx_cosh(fx(x)).unwrap());
        assert!((s - x.sinh()).abs() / x.cosh() < 1e-12, "sinh({}) = {}", x, s);
        assert!((c - x.cosh()).abs() / x.cosh() < 1e-12, "cosh({}) = {}", x, c);
    }
}

#[test]
fn hyperbolic_overflow_is_reported_not_wrapped() {
    // cosh(11) is representable, cosh(12) is beyond the scalar range
    assert!(fx_cosh(fx(11.0)).is_some());
    assert!(fx_cosh(fx(12.0)).is_none());
    assert!(fx_sinh(fx(-12.0)).is_none());
}

#[test]
fn complex_sine_agrees_with_real_sine_on_real_arguments() {
    for a in [0.0, 0.3, 0.7, -1.1, 2.9] {
        let r = sin_complex(cx(a, 0.0)).unwrap();
        // the imaginary part is exactly zero, the real part is exactly fx_sin
        assert_eq!(r.im.v, 0);
        assert_eq!(r.re.v, fx_sin(fx(a)).unwrap().v);
        assert!((to_f(r.re) - a.sin()).abs() < 1e-12);
        let c = cos_complex(cx(a, 0.0)).unwrap();
        assert_eq!(c.im.v, 0);
        assert_eq!(c.re.v, fx_cos(fx(a)).unwrap().v);
        assert!((to_f(c.re) - a.cos()).abs() < 1e-12);
    }
}

#[test]
fn complex_sine_of_pure_imaginary_is_i_sinh() {
    for b in [0.4, 1.3, -2.2] {
        let r = sin_complex(cx(0.0, b)).unwrap();
        // sin(ib) = i sinh(b): the real part is exactly zero
        assert_eq!(r.re.v, 0);
        assert_eq!(r.im.v, fx_sinh(fx(b)).unwrap().v);
        assert!((to_f(r.im) - b.sinh()).abs() < 1e-12);
        // cos(ib) = cosh(b): the imaginary part is exactly zero
        let c = cos_complex(cx(0.0, b)).unwrap();
        assert_eq!(c.im.v, 0);
        assert_eq!(c.re.v, fx_cosh(fx(b)).unwrap().v);
        assert!((to_f(c.re) - b.cosh()).abs() < 1e-12);
    }
}

#[test]
fn complex_sine_matches_the_identity_on_general_arguments() {
    let a: f64 = 0.5;
    let b: f64 = 0.4;
    let r = sin_complex(cx(a, b)).unwrap();
    assert!((to_f(r.re) - a.sin() * b.cosh()).abs() < 1e-11);
    assert!((to_f(r.im) - a.cos() * b.sinh()).abs() < 1e-11);
    let c = cos_complex(cx(a, b)).unwrap();
    assert!((to_f(c.re) - a.cos() * b.cosh()).abs() < 1e-11);
    assert!((to_f(c.im) + a.sin() * b.sinh()).abs() < 1e-11);
}
