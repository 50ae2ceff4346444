use tmm::fixed::Fx;
use tmm::fixed::fx_add;
use tmm::fixed::fx_sub;
use tmm::fixed::fx_neg;
use tmm::fixed::fx_mul;
use tmm::fixed::fx_div;
use tmm::fixed::fx_sqrt;
use tmm::fixed::fx_from_raw;
use tmm::fixed::isqrt_u128;
use tmm::fixed::SCALE;
use tmm::fixed::HALF_SCALE;
use tmm::fixed::RAW_BOUND;

const SCALE_F: f64 = 281474976710656.0;

fn fx(x: f64) -> Fx {
    Fx { v: (x * SCALE_F).round() as i128 }
}

fn to_f(x: Fx) -> f64 {
    x.v as f64 / SCALE_F
}

#[test]
fn add_is_exact() {
    let r = fx_add(fx(1.5), fx(2.25)).unwrap();
    assert_eq!(r.v, fx(3.75).v);
    let s = fx_add(fx(-1.5), fx(1.5)).unwrap();
    assert_eq!(s.v, 0);
}

#[test]
fn add_overflow_is_reported() {
    let big = Fx { v: RAW_BOUND };
    assert!(fx_add(big, big).is_none());
    assert!(fx_add(big, Fx { v: 1 }).is_none());
    assert!(fx_add(big, Fx { v: -1 }).is_some());
}

#[test]
fn sub_and_neg_are_exact() {
    let r = fx_sub(fx(1.0), fx(2.5)).unwrap();
    assert_eq!(r.v, fx(-1.5).v);
    assert_eq!(fx_neg(fx(0.75)).v, fx(-0.75).v);
    assert_eq!(fx_neg(Fx { v: 0 }).v, 0);
}

#[test]
fn mul_matches_exact_products() {
    let r = fx_mul(fx(1.5), fx(2.0)).unwrap();
    assert_eq!(r.v, fx(3.0).v);
    let s = fx_mul(fx(-0.5), fx(0.5)).unwrap();
    assert_eq!(s.v, fx(-0.25).v);
    // one raw unit squared rounds to zero
    let t = fx_mul(Fx { v: 1 }, Fx { v: 1 }).unwrap();
    assert_eq!(t.v, 0);
    // multiplying by one is exact for any raw value
    let u = fx_mul(Fx { v: 123456789 }, Fx { v: SCALE }).unwrap();
    assert_eq!(u.v, 123456789);
}

#[test]
fn mul_overflow_is_reported() {
    let big = Fx { v: RAW_BOUND };
    assert!(fx_mul(big, big).is_none());
}

#[test]
fn div_rounds_to_nearest() {
    // 1/3 in raw units: 2^48 / 3 rounds down (remainder 1 of 3)
    let r = fx_div(fx(1.0), fx(3.0)).unwrap();
    assert_eq!(r.v, 93824992236885);
    let half = fx_div(fx(1.0), fx(2.0)).unwrap();
    assert_eq!(half.v, HALF_SCALE);
    let neg = fx_div(fx(-1.0), fx(2.0)).unwrap();
    assert_eq!(neg.v, -HALF_SCALE);
}

#[test]
fn sqrt_is_exact_on_squares() {
    assert_eq!(fx_sqrt(fx(4.0)).v, fx(2.0).v);
    assert_eq!(fx_sqrt(fx(0.25)).v, fx(0.5).v);
    assert_eq!(fx_sqrt(Fx { v: 0 }).v, 0);
}

#[test]
fn sqrt_approximates_irrationals() {
    let r = to_f(fx_sqrt(fx(2.0)));
    assert!((r * r - 2.0).abs() < 1e-13, "sqrt(2)^2 = {}", r * r);
    let s = to_f(fx_sqrt(fx(1000.0)));
    assert!((s - 1000f64.sqrt()).abs() < 1e-12);
}

#[test]
fn isqrt_brackets_its_argument() {
    for n in [0u128, 1, 2, 3, 4, 15, 16, 17, 1 << 60, (1 << 56) * (1 << 56) - 1] {
        let r = isqrt_u128(n);
        assert!(r * r <= n);
        assert!((r + 1) * (r + 1) > n);
    }
}

#[test]
fn from_raw_checks_the_bound() {
    assert!(fx_from_raw(RAW_BOUND).is_some());
    assert!(fx_from_raw(-RAW_BOUND).is_some());
    assert!(fx_from_raw(RAW_BOUND + 1).is_none());
    assert!(fx_from_raw(-RAW_BOUND - 1).is_none());
}
