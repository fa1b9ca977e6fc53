//! Vector-Jacobian products.

use mininn_verifier::env::Env;
use mininn_verifier::grad::GradInterpreter;
use mininn_verifier::nn::{Atom, AtomKind, Primitive};
use mininn_verifier::scalar::{normcdf, Scalar};
use mininn_verifier::tensor::Tensor;


/// Double-precision numbers.
#[derive(Debug, Clone, Copy, PartialEq)]
struct F(f64);

impl Scalar for F {
    fn from_ratio(num: i128, den: u128) -> F {
        F(num as f64 / den as f64)
    }
    fn infinity() -> F {
        F(f64::INFINITY)
    }
    fn neg_infinity() -> F {
        F(f64::NEG_INFINITY)
    }
    fn pi() -> F {
        F(std::f64::consts::PI)
    }
    fn add(self, other: F) -> F {
        F(self.0 + other.0)
    }
    fn sub(self, other: F) -> F {
        F(self.0 - other.0)
    }
    fn mul(self, other: F) -> F {
        F(self.0 * other.0)
    }
    fn div(self, other: F) -> F {
        F(self.0 / other.0)
    }
    fn neg(self) -> F {
        F(-self.0)
    }
    fn recip(self) -> F {
        F(self.0.recip())
    }
    fn abs(self) -> F {
        F(self.0.abs())
    }
    fn sqrt(self) -> F {
        F(self.0.sqrt())
    }
    fn exp(self) -> F {
        F(self.0.exp())
    }
    fn ln(self) -> F {
        F(self.0.ln())
    }
    fn erf(self) -> F {
        F(libm::erf(self.0))
    }
    fn max_of(self, other: F) -> F {
        F(self.0.max(other.0))
    }
    fn min_of(self, other: F) -> F {
        F(self.0.min(other.0))
    }
    fn is_lt(self, other: F) -> bool {
        self.0 < other.0
    }
    fn is_le(self, other: F) -> bool {
        self.0 <= other.0
    }
    fn is_eq(self, other: F) -> bool {
        self.0 == other.0
    }
    fn is_before(self, other: F) -> bool {
        self.0.total_cmp(&other.0).is_lt()
    }
}

fn arr(data: &[f64], shape: &[usize]) -> Tensor<F> {
    Tensor::from_shape_vec(shape.to_vec(), data.iter().map(|&x| F(x)).collect()).unwrap()
}

fn vals(t: &Tensor<F>) -> Vec<f64> {
    t.values().iter().map(|x| x.0).collect()
}

fn const_atom(data: &[f64], shape: &[usize]) -> Atom<F> {
    Atom {
        name: String::new(),
        shape: shape.to_vec(),
        kind: AtomKind::Const(arr(data, shape)),
    }
}

/// Run VJP for `primitive`. `outvar_primal` must contain the forward-pass output
/// for primitives that read it (Sqrt, Exp, Relu); pass zeros otherwise.
fn run_vjp(primitive: Primitive<F>, outvar_primal: Tensor<F>, tangent: Tensor<F>) -> Vec<Tensor<F>> {
    let outvar = Atom {
        name: "out".to_string(),
        shape: tangent.shape().to_vec(),
        kind: AtomKind::Var,
    };
    let mut primals: Env<Tensor<F>> = Env::new();
    primals.insert("out".to_string(), outvar_primal);
    let mut env: Env<Tensor<F>> = Env::new();
    env.insert("out".to_string(), tangent);
    GradInterpreter::process_primitive::<F, Tensor<F>>(&primitive, &outvar, &primals, &env, &mut ())
        .unwrap()
}

fn ones(shape: &[usize]) -> Tensor<F> {
    Tensor::from_elem(shape.to_vec(), F(1.0)).unwrap()
}

fn zeros(shape: &[usize]) -> Tensor<F> {
    Tensor::from_elem(shape.to_vec(), F(0.0)).unwrap()
}

fn assert_close(a: &Tensor<F>, b: &Tensor<F>) {
    assert_close_tol(a, b, 1e-9);
}

fn assert_close_tol(a: &Tensor<F>, b: &Tensor<F>, tol: f64) {
    assert_eq!(a.shape(), b.shape(), "shapes differ");
    for (x, y) in vals(a).iter().zip(vals(b)) {
        assert!((x - y).abs() < tol, "values differ: {x} vs {y} (tol {tol})");
    }
}

/// Numerical VJP via central differences.
fn num_vjp(x: &Tensor<F>, tangent: &Tensor<F>, f: impl Fn(f64) -> f64) -> Tensor<F> {
    let eps = 1e-5;
    let x_flat = vals(x);
    let t_flat = vals(tangent);
    let grad_flat: Vec<f64> = (0..x_flat.len())
        .map(|i| {
            let mut xp = x_flat.clone();
            let mut xm = x_flat.clone();
            xp[i] += eps;
            xm[i] -= eps;
            (0..x_flat.len())
                .map(|k| (f(xp[k]) - f(xm[k])) / (2.0 * eps) * t_flat[k])
                .sum()
        })
        .collect();
    arr(&grad_flat, x.shape())
}

// ---- unary ----

#[test]
fn grad_neg() {
    let t = arr(&[2.0, -1.0, 3.0], &[3]);
    let g = run_vjp(
        Primitive::Neg(const_atom(&[0.0; 3], &[3])),
        zeros(&[3]),
        t.clone(),
    );
    assert_close(&g[0], &t.mapv(|x: F| F(-x.0)));
}

#[test]
fn grad_reciprocal() {
    let xd = &[2.0, 4.0, -1.0];
    let x = arr(xd, &[3]);
    let t = arr(&[1.0, 2.0, 3.0], &[3]);
    let g = run_vjp(
        Primitive::Reciprocal(const_atom(xd, &[3])),
        zeros(&[3]),
        t.clone(),
    );
    assert_close_tol(&g[0], &num_vjp(&x, &t, |v| 1.0 / v), 1e-9);
}

#[test]
fn grad_square() {
    let xd = &[1.0, 2.0, 3.0];
    let x = arr(xd, &[3]);
    let t = ones(&[3]);
    let g = run_vjp(
        Primitive::Square(const_atom(xd, &[3])),
        zeros(&[3]),
        t.clone(),
    );
    assert_close_tol(&g[0], &num_vjp(&x, &t, |v| v * v), 1e-9);
}

#[test]
fn grad_sqrt() {
    let xd = &[1.0, 4.0, 9.0];
    let x = arr(xd, &[3]);
    let t = arr(&[1.0, 2.0, 0.5], &[3]);
    let outvar_primal = x.mapv(|v: F| F(v.0.sqrt()));
    let g = run_vjp(
        Primitive::Sqrt(const_atom(xd, &[3])),
        outvar_primal,
        t.clone(),
    );
    assert_close_tol(&g[0], &num_vjp(&x, &t, f64::sqrt), 1e-9);
}

#[test]
fn grad_exp() {
    let xd = &[0.0, 1.0, -1.0];
    let x = arr(xd, &[3]);
    let t = ones(&[3]);
    let outvar_primal = x.mapv(|v: F| F(v.0.exp()));
    let g = run_vjp(
        Primitive::Exp(const_atom(xd, &[3])),
        outvar_primal,
        t.clone(),
    );
    assert_close_tol(&g[0], &num_vjp(&x, &t, f64::exp), 1e-9);
}

#[test]
fn grad_log() {
    let xd = &[1.0, 2.0, 4.0];
    let x = arr(xd, &[3]);
    let t = arr(&[2.0, 1.0, 3.0], &[3]);
    let g = run_vjp(Primitive::Log(const_atom(xd, &[3])), zeros(&[3]), t.clone());
    assert_close_tol(&g[0], &num_vjp(&x, &t, f64::ln), 1e-9);
}

// ---- binary ----

#[test]
fn grad_add() {
    let t = arr(&[1.0, 2.0, 3.0], &[3]);
    let g = run_vjp(
        Primitive::Add(const_atom(&[0.0; 3], &[3]), const_atom(&[0.0; 3], &[3])),
        zeros(&[3]),
        t.clone(),
    );
    assert_close(&g[0], &t);
    assert_close(&g[1], &t);
}

#[test]
fn grad_mul() {
    let ad = &[1.0, 2.0, 3.0];
    let bd = &[4.0, 5.0, 6.0];
    let a = arr(ad, &[3]);
    let b = arr(bd, &[3]);
    let t = ones(&[3]);
    let g = run_vjp(
        Primitive::Mul(const_atom(ad, &[3]), const_atom(bd, &[3])),
        zeros(&[3]),
        t.clone(),
    );
    assert_close(&g[0], &t.mul(&b).unwrap());
    assert_close(&g[1], &a.mul(&t).unwrap());
}

#[test]
fn grad_where_true() {
    let t = arr(&[3.0, 4.0], &[2]);
    let g = run_vjp(
        Primitive::Where(
            const_atom(&[1.0, 1.0], &[2]),
            const_atom(&[0.0; 2], &[2]),
            const_atom(&[0.0; 2], &[2]),
        ),
        zeros(&[2]),
        t.clone(),
    );
    assert_close(&g[0], &zeros(&[2])); // d_cond = 0
    assert_close(&g[1], &t); // d_x = t
    assert_close(&g[2], &zeros(&[2])); // d_y = 0
}

#[test]
fn grad_where_false() {
    let t = arr(&[3.0, 4.0], &[2]);
    let g = run_vjp(
        Primitive::Where(
            const_atom(&[0.0, 0.0], &[2]),
            const_atom(&[0.0; 2], &[2]),
            const_atom(&[0.0; 2], &[2]),
        ),
        zeros(&[2]),
        t.clone(),
    );
    assert_close(&g[0], &zeros(&[2]));
    assert_close(&g[1], &zeros(&[2])); // d_x = 0
    assert_close(&g[2], &t); // d_y = t
}

// ---- activations ----

#[test]
fn grad_relu() {
    let g = run_vjp(
        Primitive::Relu(const_atom(&[2.0, -1.0, 0.0], &[3])),
        arr(&[2.0, 0.0, 0.0], &[3]), // outvar_primal = relu(x)
        ones(&[3]),
    );
    assert_close(&g[0], &arr(&[1.0, 0.0, 0.0], &[3]));
}

#[test]
fn grad_leaky_relu() {
    let slope = 0.1_f64;
    let g = run_vjp(
        Primitive::LeakyRelu {
            operand: const_atom(&[2.0, -3.0], &[2]),
            slope: F(slope),
        },
        zeros(&[2]),
        ones(&[2]),
    );
    assert_close_tol(&g[0], &arr(&[1.0, slope], &[2]), 1e-10);
}

#[test]
fn grad_normalcdf() {
    let xd = &[0.0, 1.0, -1.0];
    let x = arr(xd, &[3]);
    let t = ones(&[3]);
    let g = run_vjp(
        Primitive::NormalCdf(const_atom(xd, &[3])),
        zeros(&[3]),
        t.clone(),
    );
    assert_close_tol(&g[0], &num_vjp(&x, &t, |v| normcdf(F(v)).0), 1e-8);
}

// ---- linear algebra ----

#[test]
fn grad_dot_1d_1d() {
    let t = arr(&[1.0], &[]);
    let g = run_vjp(
        Primitive::Dot(const_atom(&[1.0, 2.0], &[2]), const_atom(&[3.0, 4.0], &[2])),
        arr(&[11.0], &[]),
        t,
    );
    assert_close(&g[0], &arr(&[3.0, 4.0], &[2]));
    assert_close(&g[1], &arr(&[1.0, 2.0], &[2]));
}

#[test]
fn grad_dot_2d_2d() {
    let t = ones(&[2, 2]);
    let g = run_vjp(
        Primitive::Dot(
            const_atom(&[1.0, 2.0, 3.0, 4.0], &[2, 2]),
            const_atom(&[5.0, 6.0, 7.0, 8.0], &[2, 2]),
        ),
        zeros(&[2, 2]),
        t,
    );
    assert_close(&g[0], &arr(&[11.0, 15.0, 11.0, 15.0], &[2, 2]));
    assert_close(&g[1], &arr(&[4.0, 4.0, 6.0, 6.0], &[2, 2]));
}

#[test]
fn grad_dot_2d_1d() {
    let t = ones(&[2]);
    let g = run_vjp(
        Primitive::Dot(
            const_atom(&[1.0, 2.0, 3.0, 4.0], &[2, 2]),
            const_atom(&[1.0, 1.0], &[2]),
        ),
        zeros(&[2]),
        t,
    );
    assert_close(&g[0], &arr(&[1.0, 1.0, 1.0, 1.0], &[2, 2]));
    assert_close(&g[1], &arr(&[4.0, 6.0], &[2]));
}

#[test]
fn grad_dot_nd_1d() {
    let t = ones(&[2]);
    let g = run_vjp(
        Primitive::Dot(
            const_atom(&[1.0, 2.0, 3.0, 4.0, 5.0, 6.0], &[2, 3]),
            const_atom(&[1.0, 0.0, 0.0], &[3]),
        ),
        zeros(&[2]),
        t,
    );
    assert_close(&g[0], &arr(&[1.0, 0.0, 0.0, 1.0, 0.0, 0.0], &[2, 3]));
    assert_close(&g[1], &arr(&[5.0, 7.0, 9.0], &[3]));
}

// ---- reduction ----

#[test]
fn grad_reduce_sum_axis() {
    let t = arr(&[1.0, 2.0], &[2]);
    let g = run_vjp(
        Primitive::ReduceSum {
            operand: const_atom(&[0.0; 6], &[2, 3]),
            axes: vec![1],
        },
        zeros(&[2]),
        t,
    );
    assert_close(&g[0], &arr(&[1.0, 1.0, 1.0, 2.0, 2.0, 2.0], &[2, 3]));
}

#[test]
fn grad_reduce_sum_negative_axis() {
    let t = arr(&[1.0, 2.0, 3.0], &[3]);
    let g = run_vjp(
        Primitive::ReduceSum {
            operand: const_atom(&[0.0; 12], &[3, 4]),
            axes: vec![-1],
        },
        zeros(&[3]),
        t,
    );
    let expected: Vec<f64> = [1.0, 2.0, 3.0].iter().flat_map(|&v| vec![v; 4]).collect();
    assert_close(&g[0], &arr(&expected, &[3, 4]));
}

// ---- shape manipulation ----

#[test]
fn grad_expand_dims_front() {
    let t = arr(&[2.0, 3.0, 4.0], &[1, 3]);
    let g = run_vjp(
        Primitive::ExpandDims {
            operand: const_atom(&[0.0; 3], &[3]),
            axes: vec![0],
        },
        zeros(&[1, 3]),
        t,
    );
    assert_close(&g[0], &arr(&[2.0, 3.0, 4.0], &[3]));
}

#[test]
fn grad_expand_dims_back() {
    let t = arr(&[1.0, 2.0, 3.0], &[3, 1]);
    let g = run_vjp(
        Primitive::ExpandDims {
            operand: const_atom(&[0.0; 3], &[3]),
            axes: vec![-1],
        },
        zeros(&[3, 1]),
        t,
    );
    assert_close(&g[0], &arr(&[1.0, 2.0, 3.0], &[3]));
}

#[test]
fn grad_move_axis() {
    let t = arr(&[1.0, 2.0, 3.0, 4.0, 5.0, 6.0], &[3, 2]);
    let g = run_vjp(
        Primitive::MoveAxis {
            operand: const_atom(&[0.0; 6], &[2, 3]),
            source: 0,
            destination: -1,
        },
        zeros(&[3, 2]),
        t,
    );
    assert_close(&g[0], &arr(&[1.0, 3.0, 5.0, 2.0, 4.0, 6.0], &[2, 3]));
}

#[test]
fn grad_reshape() {
    let t = arr(&[1.0, 0.0, 0.0, 0.0, 0.0, 0.0], &[2, 3]);
    let g = run_vjp(
        Primitive::Reshape {
            operand: const_atom(&[0.0; 6], &[6]),
            new_shape: vec![2, 3],
        },
        zeros(&[2, 3]),
        t,
    );
    assert_close(&g[0], &arr(&[1.0, 0.0, 0.0, 0.0, 0.0, 0.0], &[6]));
}

// --- exponential and Gaussian units ---

#[test]
fn grad_elu_flat_below_zero() {
    let g = run_vjp(
        Primitive::Elu { operand: const_atom(&[-1.0], &[1]), slope: F(0.0) },
        arr(&[0.0], &[1]),
        arr(&[1.0], &[1]),
    );
    assert_eq!(vals(&g[0]), vec![0.0]);
}

#[test]
fn grad_elu_both_sides() {
    let g = run_vjp(
        Primitive::Elu { operand: const_atom(&[-1.0, 2.0], &[2]), slope: F(0.5) },
        arr(&[0.5 * ((-1.0f64).exp() - 1.0), 2.0], &[2]),
        arr(&[3.0, 3.0], &[2]),
    );
    assert_eq!(vals(&g[0]), vec![0.5 * 3.0 * (-1.0f64).exp(), 3.0]);
}

#[test]
fn grad_gelu_of_no_change() {
    let g = run_vjp(
        Primitive::Gelu(const_atom(&[-1.0, 0.0, 2.0], &[3])),
        arr(&[0.0, 0.0, 0.0], &[3]),
        arr(&[0.0, 0.0, 0.0], &[3]),
    );
    assert_eq!(vals(&g[0]), vec![0.0, 0.0, 0.0]);
}

#[test]
fn grad_gelu_is_distribution_plus_density() {
    let x = 0.75f64;
    let g = run_vjp(
        Primitive::Gelu(const_atom(&[x], &[1])),
        arr(&[0.0], &[1]),
        arr(&[2.0], &[1]),
    );
    let phi = (-0.5 * x * x).exp() / (2.0 * std::f64::consts::PI).sqrt();
    let expected = 2.0 * (normcdf(F(x)).0 + x * phi);
    assert!((vals(&g[0])[0] - expected).abs() < 1e-12);
}
