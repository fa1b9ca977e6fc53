//! Linear relaxations, and the programs that carry affine bounds through operations.

use mininn_verifier::affine::{crown_dot, crown_pad, crown_relu};
use mininn_verifier::interval::IBPTensor;
use mininn_verifier::lines::{
    exp_lines, gelu_lines, normcdf_lines, reciprocal_lines, sqrt_lines, square_lines, Lines,
};
use mininn_verifier::op::{PaddingOptionConfig, PaddingOptions};
use mininn_verifier::scalar::{normcdf, Scalar};
use mininn_verifier::tensor::Tensor;
use mininn_verifier::vjp::{apply_rule, unbroadcast};


/// Double-precision numbers.
#[derive(Debug, Clone, Copy, PartialEq)]
struct F(f64);

impl Scalar for F {
    fn from_ratio(num: i128, den: u128) -> F {
        F(num as f64 / den as f64)
    }
    fn infinity() -> F {
        F(f64::INFINITY)
    }
    fn neg_infinity() -> F {
        F(f64::NEG_INFINITY)
    }
    fn pi() -> F {
        F(std::f64::consts::PI)
    }
    fn add(self, other: F) -> F {
        F(self.0 + other.0)
    }
    fn sub(self, other: F) -> F {
        F(self.0 - other.0)
    }
    fn mul(self, other: F) -> F {
        F(self.0 * other.0)
    }
    fn div(self, other: F) -> F {
        F(self.0 / other.0)
    }
    fn neg(self) -> F {
        F(-self.0)
    }
    fn recip(self) -> F {
        F(self.0.recip())
    }
    fn abs(self) -> F {
        F(self.0.abs())
    }
    fn sqrt(self) -> F {
        F(self.0.sqrt())
    }
    fn exp(self) -> F {
        F(self.0.exp())
    }
    fn ln(self) -> F {
        F(self.0.ln())
    }
    fn erf(self) -> F {
        F(libm::erf(self.0))
    }
    fn max_of(self, other: F) -> F {
        F(self.0.max(other.0))
    }
    fn min_of(self, other: F) -> F {
        F(self.0.min(other.0))
    }
    fn is_lt(self, other: F) -> bool {
        self.0 < other.0
    }
    fn is_le(self, other: F) -> bool {
        self.0 <= other.0
    }
    fn is_eq(self, other: F) -> bool {
        self.0 == other.0
    }
    fn is_before(self, other: F) -> bool {
        self.0.total_cmp(&other.0).is_lt()
    }
}

fn arr(data: &[f64], shape: &[usize]) -> Tensor<F> {
    Tensor::from_shape_vec(shape.to_vec(), data.iter().map(|&x| F(x)).collect()).unwrap()
}

fn vals(t: &Tensor<F>) -> Vec<f64> {
    t.values().iter().map(|x| x.0).collect()
}

fn coefficients(n: Lines<F>) -> (f64, f64, f64, f64) {
    (n.ls.0, n.lo.0, n.us.0, n.uo.0)
}

fn phi(x: f64) -> f64 {
    normcdf(F(x)).0
}

/// The GELU relaxation must sandwich `g(x) = x * cdf(x)` over the whole interval.
#[test]
fn gelu_lines_are_sound() {
    let g = |x: f64| x * phi(x);
    // Convex-only, concave-only (both tails), crossing one/both inflections
    // at +-sqrt 2, plus narrow/degenerate.
    let cases = [
        (-1.0, 1.0),   // fully convex
        (-1.4, 1.4),   // convex, up to the inflection edges
        (-3.0, -1.5),  // fully concave (left tail)
        (1.5, 3.0),    // fully concave (right tail)
        (-2.0, 0.5),   // crosses left inflection
        (-0.5, 2.0),   // crosses right inflection
        (-3.0, 3.0),   // crosses both inflections
        (-2.0, -1.0),  // straddles left inflection
        (1.0, 3.0),    // crosses right inflection, both endpoints steep
        (1.4, 1.45),   // crosses right inflection, very narrow convex sliver
        (-1.6, -1.41), // straddles left inflection, narrow
        (-6.0, 6.0),   // crosses both, wide
        (-0.01, 0.01), // near-degenerate around the origin
        (0.7, 0.7),    // degenerate
    ];

    let tol = 1e-6;
    let n = 400;
    let check = |l: f64, u: f64| {
        let (ls, lo, us, uo) = coefficients(gelu_lines(F(l), F(u)));
        for i in 0..=n {
            let x = l + (u - l) * (i as f64) / (n as f64);
            let f = g(x);
            assert!(
                ls * x + lo <= f + tol,
                "lower line above g on [{l}, {u}] at x={x}: {} > {f}",
                ls * x + lo,
            );
            assert!(
                us * x + uo >= f - tol,
                "upper line below g on [{l}, {u}] at x={x}: {} < {f}",
                us * x + uo,
            );
        }
    };

    for (l, u) in cases {
        check(l, u);
    }

    // Dense grid sweep over endpoints straddling the +-sqrt 2 inflections.
    let grid = 40;
    for i in 0..=grid {
        let l = -4.0 + 8.0 * (i as f64) / (grid as f64);
        for j in 0..=grid {
            let u = l + 6.0 * (j as f64) / (grid as f64);
            check(l, u);
        }
    }
}

/// The linear relaxation must sandwich cdf over the whole interval:
/// `lower_slope*x + lower_offset <= cdf(x) <= upper_slope*x + upper_offset`.
#[test]
fn alpha_crown_normcdf_lines_are_sound() {
    // A spread of intervals: convex-only, concave-only, crossing (symmetric,
    // skewed, wide, narrow), and degenerate.
    let cases = [
        (-2.0, -1.0),
        (-4.0, -0.5),
        (1.0, 2.0),
        (0.5, 4.0),
        (-2.0, 3.0),
        (-0.5, 0.5),
        (-3.0, 0.3),
        (-0.3, 3.0),
        (-6.0, 6.0),
        (-0.01, 0.01),
        (2.5, 2.5), // degenerate
    ];

    // Small tolerance for the bisection's finite precision on the tangent lines.
    let tol = 1e-6;
    let n = 400;

    for (l, u) in cases {
        let (ls, lo, us, uo) = coefficients(normcdf_lines(F(l), F(u)));
        for i in 0..=n {
            let x = l + (u - l) * (i as f64) / (n as f64);
            let f = phi(x);
            let lower = ls * x + lo;
            let upper = us * x + uo;
            assert!(
                lower <= f + tol,
                "lower line above cdf on [{l}, {u}] at x={x}: {lower} > {f}",
            );
            assert!(
                upper >= f - tol,
                "upper line below cdf on [{l}, {u}] at x={x}: {upper} < {f}",
            );
        }
    }
}

/// In the pure convex/concave regions one side is the exact chord, so it must
/// touch cdf at both endpoints.
#[test]
fn alpha_crown_normcdf_lines_chord_touches_endpoints() {
    // Concave region: lower bound is the chord.
    let (ls, lo, _, _) = coefficients(normcdf_lines(F(1.0), F(2.0)));
    assert!((ls * 1.0 + lo - phi(1.0)).abs() < 1e-9);
    assert!((ls * 2.0 + lo - phi(2.0)).abs() < 1e-9);

    // Convex region: upper bound is the chord.
    let (_, _, us, uo) = coefficients(normcdf_lines(F(-2.0), F(-1.0)));
    assert!((us * -2.0 + uo - phi(-2.0)).abs() < 1e-9);
    assert!((us * -1.0 + uo - phi(-1.0)).abs() < 1e-9);
}

/// The linear relaxation must sandwich `1/x` over the whole interval:
/// `lower_slope*x + lower_offset <= 1/x <= upper_slope*x + upper_offset`.
#[test]
fn alpha_crown_reciprocal_lines_are_sound() {
    // Positive (convex) and negative (concave) intervals: wide, narrow,
    // near-zero, and degenerate. The interval must stay off zero.
    let cases = [
        (1.0, 2.0),
        (0.5, 4.0),
        (0.01, 10.0),
        (2.5, 2.5), // degenerate
        (-2.0, -1.0),
        (-4.0, -0.5),
        (-10.0, -0.01),
        (-2.5, -2.5), // degenerate
    ];

    let tol = 1e-9;
    let n = 400;

    for (l, u) in cases {
        let (ls, lo, us, uo) = coefficients(reciprocal_lines(F(l), F(u)));
        for i in 0..=n {
            let x = l + (u - l) * (i as f64) / (n as f64);
            let f = x.recip();
            let lower = ls * x + lo;
            let upper = us * x + uo;
            assert!(
                lower <= f + tol,
                "lower line above 1/x on [{l}, {u}] at x={x}: {lower} > {f}",
            );
            assert!(
                upper >= f - tol,
                "upper line below 1/x on [{l}, {u}] at x={x}: {upper} < {f}",
            );
        }
    }
}

/// In each region one side is the exact chord, so it must touch `1/x` at both
/// endpoints.
#[test]
fn alpha_crown_reciprocal_lines_chord_touches_endpoints() {
    // Convex (positive) region: upper bound is the chord.
    let (_, _, us, uo) = coefficients(reciprocal_lines(F(1.0), F(4.0)));
    assert!((us * 1.0 + uo - 1.0_f64.recip()).abs() < 1e-9);
    assert!((us * 4.0 + uo - 4.0_f64.recip()).abs() < 1e-9);

    // Concave (negative) region: lower bound is the chord.
    let (ls, lo, _, _) = coefficients(reciprocal_lines(F(-4.0), F(-1.0)));
    assert!((ls * -4.0 + lo - (-4.0_f64).recip()).abs() < 1e-9);
    assert!((ls * -1.0 + lo - (-1.0_f64).recip()).abs() < 1e-9);
}

/// The linear relaxation must sandwich `exp(x)` over the whole interval:
/// `lower_slope*x + lower_offset <= exp(x) <= upper_slope*x + upper_offset`.
#[test]
fn alpha_crown_exp_lines_are_sound() {
    // Negative, zero-crossing, positive, wide, narrow, and degenerate.
    let cases = [
        (-3.0, -1.0),
        (-2.0, 2.0),
        (0.0, 1.0),
        (1.0, 4.0),
        (-5.0, 5.0),
        (0.5, 0.6),
        (2.5, 2.5), // degenerate
    ];

    let tol = 1e-9;
    let n = 400;

    for (l, u) in cases {
        let (ls, lo, us, uo) = coefficients(exp_lines(F(l), F(u)));
        for i in 0..=n {
            let x = l + (u - l) * (i as f64) / (n as f64);
            let f = x.exp();
            let lower = ls * x + lo;
            let upper = us * x + uo;
            assert!(
                lower <= f + tol,
                "lower line above exp on [{l}, {u}] at x={x}: {lower} > {f}",
            );
            assert!(
                upper >= f - tol,
                "upper line below exp on [{l}, {u}] at x={x}: {upper} < {f}",
            );
        }
    }
}

/// `exp` is convex, so the upper bound is the exact chord and must touch
/// `exp` at both endpoints.
#[test]
fn alpha_crown_exp_lines_chord_touches_endpoints() {
    let (_, _, us, uo) = coefficients(exp_lines(F(-1.0), F(2.0)));
    assert!((us * -1.0 + uo - (-1.0_f64).exp()).abs() < 1e-9);
    assert!((us * 2.0 + uo - 2.0_f64.exp()).abs() < 1e-9);
}

/// The linear relaxation must sandwich `x^2` over the whole interval, and the
/// lower line must stay non-negative (its output feeds Sqrt).
#[test]
fn alpha_crown_square_lines_are_sound() {
    // Negative (decreasing), positive (increasing), zero-crossing (symmetric
    // and skewed), wide, narrow, and degenerate.
    let cases = [
        (-3.0, -1.0),
        (1.0, 4.0),
        (-2.0, 2.0),
        (-4.0, 1.0),
        (-1.0, 5.0),
        (-6.0, 6.0),
        (0.5, 0.6),
        (2.5, 2.5),   // degenerate
        (-2.5, -2.5), // degenerate
    ];

    let tol = 1e-9;
    let n = 400;

    for (l, u) in cases {
        let (ls, lo, us, uo) = coefficients(square_lines(F(l), F(u)));
        for i in 0..=n {
            let x = l + (u - l) * (i as f64) / (n as f64);
            let f = x * x;
            let lower = ls * x + lo;
            let upper = us * x + uo;
            assert!(
                lower <= f + tol,
                "lower line above x^2 on [{l}, {u}] at x={x}: {lower} > {f}",
            );
            assert!(
                upper >= f - tol,
                "upper line below x^2 on [{l}, {u}] at x={x}: {upper} < {f}",
            );
            assert!(
                lower >= -tol,
                "lower line negative on [{l}, {u}] at x={x}: {lower}",
            );
        }
    }
}

/// `x^2` is convex, so the upper bound is the exact chord and must touch `x^2`
/// at both endpoints.
#[test]
fn alpha_crown_square_lines_chord_touches_endpoints() {
    let (_, _, us, uo) = coefficients(square_lines(F(-1.0), F(3.0)));
    assert!((us * -1.0 + uo - 1.0).abs() < 1e-9);
    assert!((us * 3.0 + uo - 9.0).abs() < 1e-9);
}

/// The linear relaxation must sandwich `sqrt x` over the whole interval.
#[test]
fn alpha_crown_sqrt_lines_are_sound() {
    // At-zero, general, wide, narrow, and degenerate. Domain is x >= 0.
    let cases = [
        (0.0, 4.0),
        (1.0, 9.0),
        (0.25, 100.0),
        (4.0, 4.1),
        (2.5, 2.5), // degenerate
    ];

    let tol = 1e-9;
    let n = 400;

    for (l, u) in cases {
        let (ls, lo, us, uo) = coefficients(sqrt_lines(F(l), F(u)));
        for i in 0..=n {
            let x = l + (u - l) * (i as f64) / (n as f64);
            let f = x.sqrt();
            let lower = ls * x + lo;
            let upper = us * x + uo;
            assert!(
                lower <= f + tol,
                "lower line above sqrt x on [{l}, {u}] at x={x}: {lower} > {f}",
            );
            assert!(
                upper >= f - tol,
                "upper line below sqrt x on [{l}, {u}] at x={x}: {upper} < {f}",
            );
        }
    }
}

/// `sqrt x` is concave, so the lower bound is the exact chord and must touch `sqrt x`
/// at both endpoints.
#[test]
fn alpha_crown_sqrt_lines_chord_touches_endpoints() {
    let (ls, lo, _, _) = coefficients(sqrt_lines(F(1.0), F(9.0)));
    assert!((ls * 1.0 + lo - 1.0).abs() < 1e-9);
    assert!((ls * 9.0 + lo - 3.0).abs() < 1e-9);
}

/// The linear relaxation must sandwich cdf over the whole interval:
/// `lower_slope*x + lower_offset <= cdf(x) <= upper_slope*x + upper_offset`.
#[test]
fn abp_normcdf_lines_are_sound() {
    // A spread of intervals: convex-only, concave-only, crossing (symmetric,
    // skewed, wide, narrow), and degenerate.
    let cases = [
        (-2.0, -1.0),
        (-4.0, -0.5),
        (1.0, 2.0),
        (0.5, 4.0),
        (-2.0, 3.0),
        (-0.5, 0.5),
        (-3.0, 0.3),
        (-0.3, 3.0),
        (-6.0, 6.0),
        (-0.01, 0.01),
        (2.5, 2.5), // degenerate
    ];

    // Small tolerance for the bisection's finite precision on the tangent lines.
    let tol = 1e-6;
    let n = 400;

    for (l, u) in cases {
        let (ls, lo, us, uo) = coefficients(normcdf_lines(F(l), F(u)));
        for i in 0..=n {
            let x = l + (u - l) * (i as f64) / (n as f64);
            let f = phi(x);
            let lower = ls * x + lo;
            let upper = us * x + uo;
            assert!(
                lower <= f + tol,
                "lower line above cdf on [{l}, {u}] at x={x}: {lower} > {f}",
            );
            assert!(
                upper >= f - tol,
                "upper line below cdf on [{l}, {u}] at x={x}: {upper} < {f}",
            );
        }
    }
}

/// In the pure convex/concave regions one side is the exact chord, so it must
/// touch cdf at both endpoints.
#[test]
fn abp_normcdf_lines_chord_touches_endpoints() {
    // Concave region: lower bound is the chord.
    let (ls, lo, _, _) = coefficients(normcdf_lines(F(1.0), F(2.0)));
    assert!((ls * 1.0 + lo - phi(1.0)).abs() < 1e-9);
    assert!((ls * 2.0 + lo - phi(2.0)).abs() < 1e-9);

    // Convex region: upper bound is the chord.
    let (_, _, us, uo) = coefficients(normcdf_lines(F(-2.0), F(-1.0)));
    assert!((us * -2.0 + uo - phi(-2.0)).abs() < 1e-9);
    assert!((us * -1.0 + uo - phi(-1.0)).abs() < 1e-9);
}

/// The linear relaxation must sandwich `1/x` over the whole interval:
/// `lower_slope*x + lower_offset <= 1/x <= upper_slope*x + upper_offset`.
#[test]
fn abp_reciprocal_lines_are_sound() {
    // Positive (convex) and negative (concave) intervals: wide, narrow,
    // near-zero, and degenerate. The interval must stay off zero.
    let cases = [
        (1.0, 2.0),
        (0.5, 4.0),
        (0.01, 10.0),
        (2.5, 2.5), // degenerate
        (-2.0, -1.0),
        (-4.0, -0.5),
        (-10.0, -0.01),
        (-2.5, -2.5), // degenerate
    ];

    let tol = 1e-9;
    let n = 400;

    for (l, u) in cases {
        let (ls, lo, us, uo) = coefficients(reciprocal_lines(F(l), F(u)));
        for i in 0..=n {
            let x = l + (u - l) * (i as f64) / (n as f64);
            let f = x.recip();
            let lower = ls * x + lo;
            let upper = us * x + uo;
            assert!(
                lower <= f + tol,
                "lower line above 1/x on [{l}, {u}] at x={x}: {lower} > {f}",
            );
            assert!(
                upper >= f - tol,
                "upper line below 1/x on [{l}, {u}] at x={x}: {upper} < {f}",
            );
        }
    }
}

/// In each region one side is the exact chord, so it must touch `1/x` at both
/// endpoints.
#[test]
fn abp_reciprocal_lines_chord_touches_endpoints() {
    // Convex (positive) region: upper bound is the chord.
    let (_, _, us, uo) = coefficients(reciprocal_lines(F(1.0), F(4.0)));
    assert!((us * 1.0 + uo - 1.0_f64.recip()).abs() < 1e-9);
    assert!((us * 4.0 + uo - 4.0_f64.recip()).abs() < 1e-9);

    // Concave (negative) region: lower bound is the chord.
    let (ls, lo, _, _) = coefficients(reciprocal_lines(F(-4.0), F(-1.0)));
    assert!((ls * -4.0 + lo - (-4.0_f64).recip()).abs() < 1e-9);
    assert!((ls * -1.0 + lo - (-1.0_f64).recip()).abs() < 1e-9);
}

/// The linear relaxation must sandwich `exp(x)` over the whole interval:
/// `lower_slope*x + lower_offset <= exp(x) <= upper_slope*x + upper_offset`.
#[test]
fn abp_exp_lines_are_sound() {
    // Negative, zero-crossing, positive, wide, narrow, and degenerate.
    let cases = [
        (-3.0, -1.0),
        (-2.0, 2.0),
        (0.0, 1.0),
        (1.0, 4.0),
        (-5.0, 5.0),
        (0.5, 0.6),
        (2.5, 2.5), // degenerate
    ];

    let tol = 1e-9;
    let n = 400;

    for (l, u) in cases {
        let (ls, lo, us, uo) = coefficients(exp_lines(F(l), F(u)));
        for i in 0..=n {
            let x = l + (u - l) * (i as f64) / (n as f64);
            let f = x.exp();
            let lower = ls * x + lo;
            let upper = us * x + uo;
            assert!(
                lower <= f + tol,
                "lower line above exp on [{l}, {u}] at x={x}: {lower} > {f}",
            );
            assert!(
                upper >= f - tol,
                "upper line below exp on [{l}, {u}] at x={x}: {upper} < {f}",
            );
        }
    }
}

/// `exp` is convex, so the upper bound is the exact chord and must touch
/// `exp` at both endpoints.
#[test]
fn abp_exp_lines_chord_touches_endpoints() {
    let (_, _, us, uo) = coefficients(exp_lines(F(-1.0), F(2.0)));
    assert!((us * -1.0 + uo - (-1.0_f64).exp()).abs() < 1e-9);
    assert!((us * 2.0 + uo - 2.0_f64.exp()).abs() < 1e-9);
}

/// The linear relaxation must sandwich `x^2` over the whole interval, and the
/// lower line must stay non-negative (its output feeds Sqrt).
#[test]
fn abp_square_lines_are_sound() {
    // Negative (decreasing), positive (increasing), zero-crossing (symmetric
    // and skewed), wide, narrow, and degenerate.
    let cases = [
        (-3.0, -1.0),
        (1.0, 4.0),
        (-2.0, 2.0),
        (-4.0, 1.0),
        (-1.0, 5.0),
        (-6.0, 6.0),
        (0.5, 0.6),
        (2.5, 2.5),   // degenerate
        (-2.5, -2.5), // degenerate
    ];

    let tol = 1e-9;
    let n = 400;

    for (l, u) in cases {
        let (ls, lo, us, uo) = coefficients(square_lines(F(l), F(u)));
        for i in 0..=n {
            let x = l + (u - l) * (i as f64) / (n as f64);
            let f = x * x;
            let lower = ls * x + lo;
            let upper = us * x + uo;
            assert!(
                lower <= f + tol,
                "lower line above x^2 on [{l}, {u}] at x={x}: {lower} > {f}",
            );
            assert!(
                upper >= f - tol,
                "upper line below x^2 on [{l}, {u}] at x={x}: {upper} < {f}",
            );
            assert!(
                lower >= -tol,
                "lower line negative on [{l}, {u}] at x={x}: {lower}",
            );
        }
    }
}

/// `x^2` is convex, so the upper bound is the exact chord and must touch `x^2`
/// at both endpoints.
#[test]
fn abp_square_lines_chord_touches_endpoints() {
    let (_, _, us, uo) = coefficients(square_lines(F(-1.0), F(3.0)));
    assert!((us * -1.0 + uo - 1.0).abs() < 1e-9);
    assert!((us * 3.0 + uo - 9.0).abs() < 1e-9);
}

/// The linear relaxation must sandwich `sqrt x` over the whole interval.
#[test]
fn abp_sqrt_lines_are_sound() {
    // At-zero, general, wide, narrow, and degenerate. Domain is x >= 0.
    let cases = [
        (0.0, 4.0),
        (1.0, 9.0),
        (0.25, 100.0),
        (4.0, 4.1),
        (2.5, 2.5), // degenerate
    ];

    let tol = 1e-9;
    let n = 400;

    for (l, u) in cases {
        let (ls, lo, us, uo) = coefficients(sqrt_lines(F(l), F(u)));
        for i in 0..=n {
            let x = l + (u - l) * (i as f64) / (n as f64);
            let f = x.sqrt();
            let lower = ls * x + lo;
            let upper = us * x + uo;
            assert!(
                lower <= f + tol,
                "lower line above sqrt x on [{l}, {u}] at x={x}: {lower} > {f}",
            );
            assert!(
                upper >= f - tol,
                "upper line below sqrt x on [{l}, {u}] at x={x}: {upper} < {f}",
            );
        }
    }
}

/// `sqrt x` is concave, so the lower bound is the exact chord and must touch `sqrt x`
/// at both endpoints.
#[test]
fn abp_sqrt_lines_chord_touches_endpoints() {
    let (ls, lo, _, _) = coefficients(sqrt_lines(F(1.0), F(9.0)));
    assert!((ls * 1.0 + lo - 1.0).abs() < 1e-9);
    assert!((ls * 9.0 + lo - 3.0).abs() < 1e-9);
}


// ---- dot / bilinear relaxation ----

/// Full flatten dot: sum of elementwise products (same shape assumed).
fn fold_dot(a: &Tensor<F>, b: &Tensor<F>) -> f64 {
    vals(a).iter().zip(vals(b)).map(|(&x, y)| x * y).sum()
}

fn scalar(t: &Tensor<F>) -> f64 {
    vals(t).iter().sum()
}

/// `Pad` is an exact affine map `y = P*x + b`, so the bound `crown_pad`
/// produces must satisfy `<out_w, pad(x)> == <weights, x> + bias` for every
/// operand `x`. Checked with mixed-sign weights and several fill values
/// (nonzero values exercise the bias term; `value == 0` must give zero bias).
fn check_pad() {
    let operand_shape = [2usize, 3];
    let x = arr(&[1.0, -2.0, 3.0, -4.0, 5.0, -6.0], &operand_shape);

    for value in [0.0, 0.7, -1.5] {
        let options = PaddingOptions {
            axes: vec![0, 1],
            config: PaddingOptionConfig {
                left: 1,
                right: 2,
                interior: 1,
            },
            value: F(value),
        };
        let px = x.pad(&options).unwrap();

        // Mixed-sign weights over the padded shape.
        let w_data: Vec<f64> = (0..px.len())
            .map(|i| ((i as f64) * 0.37 - 1.3).sin())
            .collect();
        let out_w = arr(&w_data, px.shape());

        let rule = crown_pad(&options, &operand_shape).unwrap();
        let aff =
            apply_rule::<F, Tensor<F>>(&rule, &vec![out_w.clone()], &mut ()).unwrap();
        let (weights, biases) = (&aff[0], &aff[1]);

        let lhs = fold_dot(&out_w, &px);
        let rhs = fold_dot(weights, &x) + scalar(biases);
        assert!(
            (lhs - rhs).abs() < 1e-12,
            "pad affine identity broken (value={value}): lhs={lhs} rhs={rhs}",
        );

        if value == 0.0 {
            assert!(
                scalar(biases).abs() < 1e-12,
                "zero-value pad should have zero bias, got {}",
                scalar(biases),
            );
        }
    }
}

/// Assert the affine bound `crown_dot` produces is a sound lower bound of
/// `<out_w, dot(x, y)>` everywhere in the input box. `out_w` should carry mixed
/// signs so both McCormick estimators are exercised. Weights are `unbroadcast`
/// to the operand shapes exactly as `linear_lower_bound` accumulates them.
///
/// `<out_w, dot(x,y)> - rhs` is bilinear in `(x, y)`, so its minimum over the
/// box is attained at a vertex: we enumerate all `2^(nx+ny)` of them, which
/// makes this an exact soundness check (not just a sampling heuristic).
fn assert_dot_sound(
    xl: &Tensor<F>,
    xu: &Tensor<F>,
    yl: &Tensor<F>,
    yu: &Tensor<F>,
    out_w: &Tensor<F>,
) {
    let x = IBPTensor::new(xl.clone(), xu.clone()).unwrap();
    let y = IBPTensor::new(yl.clone(), yu.clone()).unwrap();
    let rule = crown_dot(&x, &y).unwrap();
    let affs = apply_rule::<F, Tensor<F>>(&rule, &vec![out_w.clone()], &mut ()).unwrap();
    assert_eq!(affs.len(), 4);

    let wx = unbroadcast::<F, Tensor<F>>(&affs[0], xl.shape(), &mut ()).unwrap();
    let wy = unbroadcast::<F, Tensor<F>>(&affs[2], yl.shape(), &mut ()).unwrap();
    let bias = scalar(&affs[1]) + scalar(&affs[3]);

    // Flattened endpoints, so a vertex is just a bitmask over all coordinates.
    let (xlf, xuf) = (vals(xl), vals(xu));
    let (ylf, yuf) = (vals(yl), vals(yu));
    let (nx, ny) = (xlf.len(), ylf.len());
    assert!(nx + ny <= 20, "too many vertices to enumerate");

    let pick = |lo: &[f64], hi: &[f64], bits: usize, off: usize, shape: &[usize]| {
        let data: Vec<f64> = (0..lo.len())
            .map(|i| {
                if (bits >> (off + i)) & 1 == 1 {
                    hi[i]
                } else {
                    lo[i]
                }
            })
            .collect();
        arr(&data, shape)
    };

    for bits in 0..(1usize << (nx + ny)) {
        let xs = pick(&xlf, &xuf, bits, 0, xl.shape());
        let ys = pick(&ylf, &yuf, bits, nx, yl.shape());
        let z = xs.dot(&ys).unwrap();

        let lhs = fold_dot(out_w, &z);
        let rhs = fold_dot(&wx, &xs) + fold_dot(&wy, &ys) + bias;
        assert!(
            lhs + 1e-9 >= rhs,
            "unsound dot bound at vertex {bits:b}: lhs={lhs} rhs={rhs} (violation {})",
            rhs - lhs
        );
    }
}

#[test]
fn alpha_crown_crown_pad_is_exact() {
    check_pad();
}

#[test]
fn alpha_crown_dot_1d_1d_sound() {
    // x.y inner product -> scalar. out_w is 0-D; check both signs.
    let xl = arr(&[-1.0, 0.5, -2.0], &[3]);
    let xu = arr(&[1.0, 2.0, -0.5], &[3]);
    let yl = arr(&[0.0, -1.0, -1.0], &[3]);
    let yu = arr(&[2.0, 1.0, 3.0], &[3]);
    assert_dot_sound(&xl, &xu, &yl, &yu, &arr(&[1.5], &[]));
    assert_dot_sound(&xl, &xu, &yl, &yu, &arr(&[-1.5], &[]));
}

#[test]
fn alpha_crown_dot_scalar_operand_sound() {
    // 0-D . [3] = scalar * vector -> [3] (weights get unbroadcast back to 0-D).
    let xl = arr(&[-2.0], &[]);
    let xu = arr(&[1.0], &[]);
    let yl = arr(&[-1.0, 0.0, -2.0], &[3]);
    let yu = arr(&[1.0, 2.0, 0.5], &[3]);
    assert_dot_sound(&xl, &xu, &yl, &yu, &arr(&[1.0, -1.0, 2.0], &[3]));
}

#[test]
fn alpha_crown_dot_1d_2d_sound() {
    // [K] . [K, N] -> [N], with K=3, N=2.
    let xl = arr(&[-1.0, 0.0, -2.0], &[3]);
    let xu = arr(&[1.0, 2.0, 1.0], &[3]);
    let yl = arr(&[-1.0, 0.0, -2.0, 1.0, 0.5, -1.0], &[3, 2]);
    let yu = arr(&[1.0, 2.0, 0.0, 3.0, 1.5, 2.0], &[3, 2]);
    assert_dot_sound(&xl, &xu, &yl, &yu, &arr(&[1.0, -2.0], &[2]));
}

#[test]
fn alpha_crown_dot_2d_1d_sound() {
    // [M, K] . [K] -> [M], with M=2, K=3.
    let xl = arr(&[-1.0, 0.0, -2.0, 0.5, -1.0, 1.0], &[2, 3]);
    let xu = arr(&[1.0, 2.0, 0.0, 2.0, 1.0, 2.0], &[2, 3]);
    let yl = arr(&[-1.0, -2.0, 0.0], &[3]);
    let yu = arr(&[2.0, 0.5, 3.0], &[3]);
    assert_dot_sound(&xl, &xu, &yl, &yu, &arr(&[1.5, -1.0], &[2]));
}

#[test]
fn alpha_crown_dot_2d_2d_sound() {
    // [M, K] . [K, N] -> [M, N], with M=2, K=3, N=2.
    let xl = arr(&[-1.0, 0.0, -2.0, 0.5, -1.0, 1.0], &[2, 3]);
    let xu = arr(&[1.0, 2.0, 0.0, 2.0, 1.0, 2.0], &[2, 3]);
    let yl = arr(&[-1.0, 0.0, -2.0, 1.0, 0.5, -1.0], &[3, 2]);
    let yu = arr(&[1.0, 2.0, 0.0, 3.0, 1.5, 2.0], &[3, 2]);
    assert_dot_sound(&xl, &xu, &yl, &yu, &arr(&[1.0, -1.0, -2.0, 0.5], &[2, 2]));
}

#[test]
fn abp_crown_pad_is_exact() {
    check_pad();
}

#[test]
fn abp_dot_1d_1d_sound() {
    // x.y inner product -> scalar. out_w is 0-D; check both signs.
    let xl = arr(&[-1.0, 0.5, -2.0], &[3]);
    let xu = arr(&[1.0, 2.0, -0.5], &[3]);
    let yl = arr(&[0.0, -1.0, -1.0], &[3]);
    let yu = arr(&[2.0, 1.0, 3.0], &[3]);
    assert_dot_sound(&xl, &xu, &yl, &yu, &arr(&[1.5], &[]));
    assert_dot_sound(&xl, &xu, &yl, &yu, &arr(&[-1.5], &[]));
}

#[test]
fn abp_dot_scalar_operand_sound() {
    // 0-D . [3] = scalar * vector -> [3] (weights get unbroadcast back to 0-D).
    let xl = arr(&[-2.0], &[]);
    let xu = arr(&[1.0], &[]);
    let yl = arr(&[-1.0, 0.0, -2.0], &[3]);
    let yu = arr(&[1.0, 2.0, 0.5], &[3]);
    assert_dot_sound(&xl, &xu, &yl, &yu, &arr(&[1.0, -1.0, 2.0], &[3]));
}

#[test]
fn abp_dot_1d_2d_sound() {
    // [K] . [K, N] -> [N], with K=3, N=2.
    let xl = arr(&[-1.0, 0.0, -2.0], &[3]);
    let xu = arr(&[1.0, 2.0, 1.0], &[3]);
    let yl = arr(&[-1.0, 0.0, -2.0, 1.0, 0.5, -1.0], &[3, 2]);
    let yu = arr(&[1.0, 2.0, 0.0, 3.0, 1.5, 2.0], &[3, 2]);
    assert_dot_sound(&xl, &xu, &yl, &yu, &arr(&[1.0, -2.0], &[2]));
}

#[test]
fn abp_dot_2d_1d_sound() {
    // [M, K] . [K] -> [M], with M=2, K=3.
    let xl = arr(&[-1.0, 0.0, -2.0, 0.5, -1.0, 1.0], &[2, 3]);
    let xu = arr(&[1.0, 2.0, 0.0, 2.0, 1.0, 2.0], &[2, 3]);
    let yl = arr(&[-1.0, -2.0, 0.0], &[3]);
    let yu = arr(&[2.0, 0.5, 3.0], &[3]);
    assert_dot_sound(&xl, &xu, &yl, &yu, &arr(&[1.5, -1.0], &[2]));
}

#[test]
fn abp_dot_2d_2d_sound() {
    // [M, K] . [K, N] -> [M, N], with M=2, K=3, N=2.
    let xl = arr(&[-1.0, 0.0, -2.0, 0.5, -1.0, 1.0], &[2, 3]);
    let xu = arr(&[1.0, 2.0, 0.0, 2.0, 1.0, 2.0], &[2, 3]);
    let yl = arr(&[-1.0, 0.0, -2.0, 1.0, 0.5, -1.0], &[3, 2]);
    let yu = arr(&[1.0, 2.0, 0.0, 3.0, 1.5, 2.0], &[3, 2]);
    assert_dot_sound(&xl, &xu, &yl, &yu, &arr(&[1.0, -1.0, -2.0, 0.5], &[2, 2]));
}

#[test]
fn gelu_lines_of_a_sliver_are_tangent_and_secant() {
    let (ls, lo, us, uo) = coefficients(gelu_lines(F(0.5), F(0.5 + 1e-10)));
    let slope = phi(0.5) + 0.5 * (-0.125f64).exp() / (2.0 * std::f64::consts::PI).sqrt();
    assert!((ls - slope).abs() < 1e-9, "{ls} instead of {slope}");
    assert!((us - slope).abs() < 1e-4, "{us} instead of {slope}");
    let g = 0.5 * phi(0.5);
    assert!((ls * 0.5 + lo - g).abs() < 1e-9 && (us * 0.5 + uo - g).abs() < 1e-9);
}

#[test]
fn gelu_lines_of_a_point_are_flat() {
    let g = 0.7 * phi(0.7);
    assert_eq!(coefficients(gelu_lines(F(0.7), F(0.7))), (0.0, g, 0.0, g));
}

#[test]
fn gelu_lines_hold_across_a_turn_of_a_wide_interval() {
    for (l, u) in [(-1e18, -0.5), (-1e13, 0.25), (0.25, 1e13)] {
        let (ls, lo, us, uo) = coefficients(gelu_lines(F(l), F(u)));
        for x in [-10.0, -2.0, -1.0, -0.75, -0.5, -0.25, 0.25, 0.5, 1.0, 2.0, 10.0] {
            if l <= x && x <= u {
                let g = x * phi(x);
                assert!(ls * x + lo <= g + 1e-6, "below on [{l}, {u}] at {x}");
                assert!(us * x + uo >= g - 1e-6, "above on [{l}, {u}] at {x}");
            }
        }
    }
}

#[test]
fn stable_rectifiers_are_relaxed_exactly() {
    let x = IBPTensor::new(arr(&[0.5, -2.0, 0.0], &[3]), arr(&[1.0, -1.0, 3.0], &[3])).unwrap();
    let rule = crown_relu(F(0.0), &x);
    let ins = vec![arr(&[2.0, 3.0, -4.0], &[3]), arr(&[0.3, 0.4, 0.5], &[3])];
    let parts = apply_rule::<F, Tensor<F>>(&rule, &ins, &mut ()).unwrap();
    assert_eq!(vals(&parts[0]), vec![2.0, 0.0, -4.0]);
    assert_eq!(scalar(&parts[1]), 0.0);
}

#[test]
fn an_unstable_rectifier_pays_with_its_bias() {
    let x = IBPTensor::new(arr(&[-1.0], &[1]), arr(&[3.0], &[1])).unwrap();
    let rule = crown_relu(F(0.0), &x);
    let ins = vec![arr(&[-4.0], &[1]), arr(&[0.5], &[1])];
    let parts = apply_rule::<F, Tensor<F>>(&rule, &ins, &mut ()).unwrap();
    assert_eq!(vals(&parts[0]), vec![-3.0]);
    assert_eq!(scalar(&parts[1]), -3.0);
}

#[test]
fn a_number_and_a_vector_contract() {
    let x = IBPTensor::new(arr(&[1.0], &[]), arr(&[2.0], &[])).unwrap();
    let y = IBPTensor::new(arr(&[-1.0, 0.0], &[2]), arr(&[1.0, 1.0], &[2])).unwrap();
    let rule = crown_dot(&x, &y).unwrap();
    let parts = apply_rule::<F, Tensor<F>>(&rule, &vec![arr(&[1.0, 1.0], &[2])], &mut ()).unwrap();
    assert_eq!(parts.len(), 4);
    // x y >= y_l x + x_l y - x_l y_l, element by element
    assert_eq!(vals(&parts[0]), vec![-1.0, 0.0]);
    assert_eq!(vals(&parts[2]), vec![1.0, 1.0]);
    assert_eq!(scalar(&parts[1]) + scalar(&parts[3]), 1.0);
}
