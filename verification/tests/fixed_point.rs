//! Fixed-point numbers, and the library on them.

use mininn_verifier::fixed::Fixed;
use mininn_verifier::interval::IBPTensor;
use mininn_verifier::op::UnOp;
use mininn_verifier::scalar::Scalar;
use mininn_verifier::tensor::Tensor;

fn fx(x: f64) -> Fixed {
    Fixed { raw: (x * 16777216.0) as i64 }
}

fn float(x: Fixed) -> f64 {
    x.raw as f64 / 16777216.0
}

fn near(a: Fixed, b: f64) {
    assert!((float(a) - b).abs() < 1e-4, "{} vs {b}", float(a));
}

#[test]
fn fixed_arithmetic() {
    assert_eq!(fx(1.5).add(fx(2.25)), fx(3.75));
    assert_eq!(fx(1.5).sub(fx(2.25)), fx(-0.75));
    assert_eq!(fx(1.5).mul(fx(-2.0)), fx(-3.0));
    assert_eq!(fx(-3.0).div(fx(2.0)), fx(-1.5));
    assert_eq!(fx(4.0).recip(), fx(0.25));
    assert_eq!(fx(-4.0).abs(), fx(4.0));
    assert_eq!(fx(4.0).neg(), fx(-4.0));
    assert_eq!(Fixed::from_ratio(-7, 2), fx(-3.5));
    assert_eq!(fx(1.0).max_of(fx(2.0)), fx(2.0));
    assert_eq!(fx(1.0).min_of(fx(2.0)), fx(1.0));
}

#[test]
fn fixed_results_are_limited() {
    let top = Fixed::infinity();
    assert_eq!(top.add(fx(1.0)), top);
    assert_eq!(top.mul(top), top);
    assert_eq!(top.neg().sub(fx(1.0)), Fixed::neg_infinity());
    assert_eq!(fx(1.0).div(fx(0.0)), top);
    assert_eq!(fx(-1.0).div(fx(0.0)), Fixed::neg_infinity());
    assert_eq!(fx(0.0).div(fx(0.0)), fx(0.0));
    assert_eq!(fx(0.0).ln(), Fixed::neg_infinity());
}

#[test]
fn fixed_functions() {
    near(fx(2.0).sqrt(), 1.4142135);
    near(fx(-2.0).sqrt(), 0.0);
    near(fx(1.0).exp(), 2.7182818);
    near(fx(-1.0).exp(), 0.3678794);
    near(fx(10.0).ln(), 2.3025851);
    near(fx(0.5).erf(), 0.5204999);
    near(fx(-4.0).erf(), -1.0);
    near(Fixed::pi(), 3.1415926);
}

#[test]
fn fixed_order() {
    assert!(fx(1.0).is_lt(fx(2.0)) && !fx(2.0).is_lt(fx(2.0)));
    assert!(fx(2.0).is_le(fx(2.0)) && fx(2.0).is_eq(fx(2.0)));
    assert!(fx(-1.0).is_before(fx(0.0)));
}

/// The bounds of a rectified sum of fixed-point intervals.
#[test]
fn intervals_of_fixed_point_numbers() {
    let t = |v: &[f64]| Tensor::from_shape_vec(vec![v.len()], v.iter().map(|&x| fx(x)).collect());
    let x = IBPTensor::new(t(&[-1.0, 0.5]).unwrap(), t(&[2.0, 1.0]).unwrap()).unwrap();
    let y = x.unary(&UnOp::Relu).unwrap();
    assert_eq!(y.lb().values(), &[fx(0.0), fx(0.5)]);
    assert_eq!(y.ub().values(), &[fx(2.0), fx(1.0)]);
}
