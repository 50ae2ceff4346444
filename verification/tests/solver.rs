use tmm::fixed::Fx;
use tmm::complex::Cx;
use tmm::complex::cmul;
use tmm::complex::cdiv;
use tmm::complex::cnorm_sqr;
use tmm::matrix::Mat;
use tmm::matrix::mat_identity;
use tmm::matrix::mat_mul;
use tmm::solve::Layer;
use tmm::solve::SolveError;
use tmm::solve::solve_tmm;
use tmm::fixed::HALF_SCALE;

const SCALE_F: f64 = 281474976710656.0;

fn fx(x: f64) -> Fx {
    Fx { v: (x * SCALE_F).round() as i128 }
}

fn to_f(x: Fx) -> f64 {
    x.v as f64 / SCALE_F
}

fn layer(re: f64, im: f64, d: f64) -> Layer {
    Layer { index: Cx { re: fx(re), im: fx(im) }, thickness: fx(d) }
}

fn solve(stack: &Vec<Layer>, wavelength: f64, theta: f64) -> Result<(f64, f64), SolveError> {
    solve_tmm(stack, fx(wavelength), fx(theta)).map(|r| (to_f(r.reflectance), to_f(r.transmittance)))
}

#[test]
fn fresnel_single_interface() {
    // no interior layers, normal incidence: R = ((n0 - nl)/(n0 + nl))^2
    let stack = vec![layer(1.0, 0.0, 0.0), layer(1.5, 0.0, 0.0)];
    let (r, t) = solve(&stack, 500.0, 0.0).unwrap();
    assert!((r - 0.04).abs() < 1e-9, "R = {}", r);
    assert!((r + t - 1.0).abs() < 1e-9, "R + T = {}", r + t);
}

#[test]
fn energy_is_conserved_for_lossless_stacks() {
    let stack = vec![
        layer(1.0, 0.0, 0.0),
        layer(1.5, 0.0, 200.0),
        layer(1.33, 0.0, 50.0),
        layer(1.0, 0.0, 0.0),
    ];
    for theta in [0.0, 0.3, 0.7, 1.0, 1.4] {
        let (r, t) = solve(&stack, 632.8, theta).unwrap();
        assert!((r + t - 1.0).abs() < 1e-9, "theta {}: R + T = {}", theta, r + t);
        assert!(r >= 0.0 && t >= 0.0);
    }
}

#[test]
fn index_matched_stack_is_transparent() {
    let stack = vec![layer(1.5, 0.0, 0.0), layer(1.5, 0.0, 120.0), layer(1.5, 0.0, 0.0)];
    let (r, t) = solve(&stack, 500.0, 0.2).unwrap();
    assert!(r.abs() < 1e-9, "R = {}", r);
    assert!((t - 1.0).abs() < 1e-9, "T = {}", t);
}

#[test]
fn layer_order_matters() {
    let forward = vec![
        layer(1.0, 0.0, 0.0),
        layer(1.5, 0.0, 100.0),
        layer(2.0, 0.0, 80.0),
        layer(1.5, 0.0, 0.0),
    ];
    let swapped = vec![
        layer(1.0, 0.0, 0.0),
        layer(2.0, 0.0, 80.0),
        layer(1.5, 0.0, 100.0),
        layer(1.5, 0.0, 0.0),
    ];
    let (ra, _) = solve(&forward, 500.0, 0.0).unwrap();
    let (rb, _) = solve(&swapped, 500.0, 0.0).unwrap();
    assert!((ra - 0.057306037019722735).abs() < 1e-6, "R forward = {}", ra);
    assert!((rb - 0.1808381097169259).abs() < 1e-6, "R swapped = {}", rb);
    assert!((ra - rb).abs() > 0.1);
}

#[test]
fn reference_scenario_is_reproduced() {
    // the regression vector: [(1.5, -), (2.0, 100.0), (1.0, -)] at 500 nm,
    // normal incidence, to at least six significant digits
    let stack = vec![layer(1.5, 0.0, 0.0), layer(2.0, 0.0, 100.0), layer(1.0, 0.0, 0.0)];
    let (r, t) = solve(&stack, 500.0, 0.0).unwrap();
    assert!((r - 0.10493951624456234).abs() < 1e-7, "R = {}", r);
    assert!((t - 0.8950604837554378).abs() < 1e-7, "T = {}", t);
}

#[test]
fn grazing_incidence_is_singular_boundary() {
    let stack = vec![layer(1.5, 0.0, 0.0), layer(2.0, 0.0, 100.0), layer(1.0, 0.0, 0.0)];
    let r = solve(&stack, 500.0, std::f64::consts::FRAC_PI_2);
    assert_eq!(r.unwrap_err(), SolveError::SingularBoundaryMatrix);
}

#[test]
fn undersized_stack_is_invalid() {
    let stack = vec![layer(1.0, 0.0, 0.0)];
    assert_eq!(solve(&stack, 500.0, 0.0).unwrap_err(), SolveError::InvalidStack);
    let empty: Vec<Layer> = vec![];
    assert_eq!(solve(&empty, 500.0, 0.0).unwrap_err(), SolveError::InvalidStack);
}

#[test]
fn nonpositive_wavelength_is_invalid() {
    let stack = vec![layer(1.0, 0.0, 0.0), layer(1.5, 0.0, 0.0)];
    assert_eq!(solve(&stack, 0.0, 0.0).unwrap_err(), SolveError::InvalidStack);
    assert_eq!(solve(&stack, -500.0, 0.0).unwrap_err(), SolveError::InvalidStack);
}

#[test]
fn snell_argument_outside_unit_interval_is_reported() {
    // n0 sin(theta) / n exceeds one in the low-index interior layer
    let stack = vec![layer(2.0, 0.0, 0.0), layer(0.5, 0.0, 100.0), layer(1.0, 0.0, 0.0)];
    assert_eq!(solve(&stack, 500.0, 1.0).unwrap_err(), SolveError::SnellDomainError);
}

#[test]
fn resonant_pivot_is_singular_system() {
    // theta = pi makes q_in = -n0; with n0 = nl the system pivot
    // (q_in + q_out) / (2 q_in) vanishes
    let stack = vec![layer(1.0, 0.0, 0.0), layer(1.0, 0.0, 0.0)];
    let r = solve(&stack, 500.0, std::f64::consts::PI);
    assert_eq!(r.unwrap_err(), SolveError::SingularSystemMatrix);
}

#[test]
fn runaway_absorption_overflows() {
    // a hugely thick absorbing layer drives cosh far beyond the scalar range
    let stack = vec![layer(1.0, 0.0, 0.0), layer(2.0, 5.0, 100000.0), layer(1.0, 0.0, 0.0)];
    assert_eq!(solve(&stack, 500.0, 0.0).unwrap_err(), SolveError::Overflow);
}

#[test]
fn absorbing_layer_gives_partial_transmission() {
    let stack = vec![layer(1.0, 0.0, 0.0), layer(2.0, 0.5, 100.0), layer(1.5, 0.0, 0.0)];
    let (r, t) = solve(&stack, 500.0, 0.1).unwrap();
    assert!((r - 0.4730635903180846).abs() < 1e-7, "R = {}", r);
    assert!((t - 2.249865876359509).abs() < 1e-6, "T = {}", t);
}

#[test]
fn fresnel_oblique_incidence() {
    // single interface at oblique incidence: r = (q0 - q1)/(q0 + q1)
    // with q = n cos(theta) and theta_1 from Snell's law
    let n0: f64 = 1.0;
    let n1: f64 = 1.5;
    let th0: f64 = 0.5;
    let th1 = (n0 * th0.sin() / n1).asin();
    let q0 = n0 * th0.cos();
    let q1 = n1 * th1.cos();
    let expect = ((q0 - q1) / (q0 + q1)).powi(2);
    let stack = vec![layer(n0, 0.0, 0.0), layer(n1, 0.0, 0.0)];
    let (r, t) = solve(&stack, 500.0, th0).unwrap();
    assert!((r - expect).abs() < 1e-9, "R = {} expected {}", r, expect);
    assert!((r + t - 1.0).abs() < 1e-9);
}

#[test]
fn boundary_thickness_is_ignored() {
    let a = vec![layer(1.5, 0.0, 0.0), layer(2.0, 0.0, 100.0), layer(1.0, 0.0, 0.0)];
    let b = vec![layer(1.5, 0.0, 7777.0), layer(2.0, 0.0, 100.0), layer(1.0, 0.0, 31.5)];
    let ra = solve_tmm(&a, fx(500.0), fx(0.3)).unwrap();
    let rb = solve_tmm(&b, fx(500.0), fx(0.3)).unwrap();
    assert_eq!(ra.reflectance.v, rb.reflectance.v);
    assert_eq!(ra.transmittance.v, rb.transmittance.v);
}

#[test]
fn complex_product_is_exact_on_integers() {
    let a = Cx { re: fx(1.0), im: fx(2.0) };
    let b = Cx { re: fx(3.0), im: fx(4.0) };
    let r = cmul(a, b).unwrap();
    assert_eq!(r.re.v, fx(-5.0).v);
    assert_eq!(r.im.v, fx(10.0).v);
}

#[test]
fn complex_quotient_is_exact_on_halves() {
    let one = Cx { re: fx(1.0), im: fx(0.0) };
    let two = Cx { re: fx(2.0), im: fx(0.0) };
    let r = cdiv(one, two).unwrap();
    assert_eq!(r.re.v, HALF_SCALE);
    assert_eq!(r.im.v, 0);
}

#[test]
fn squared_magnitude_is_exact_on_integers() {
    let a = Cx { re: fx(3.0), im: fx(4.0) };
    assert_eq!(cnorm_sqr(a).unwrap().v, fx(25.0).v);
}

#[test]
fn identity_is_neutral_for_matrix_product() {
    let a = Mat {
        m00: Cx { re: fx(1.0), im: fx(2.0) },
        m01: Cx { re: fx(-3.0), im: fx(0.5) },
        m10: Cx { re: fx(0.0), im: fx(-1.0) },
        m11: Cx { re: fx(4.0), im: fx(0.25) },
    };
    let i = mat_identity();
    let left = mat_mul(i, a).unwrap();
    let right = mat_mul(a, i).unwrap();
    assert_eq!(left, a);
    assert_eq!(right, a);
}
