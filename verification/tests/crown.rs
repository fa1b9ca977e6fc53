//! Affine bounds of whole graphs.

use mininn_verifier::alpha_crown::AlphaCrownInterpreter;
use mininn_verifier::beta_crown::BetaCrownInterpreter;
use mininn_verifier::compute_graph::trace;
use mininn_verifier::env::Env;
use mininn_verifier::interval::{IBPInterpreter, IBPTensor};
use mininn_verifier::nn::{Atom, ComputeGraph, Equation, Primitive};
use mininn_verifier::op::{BinOp, UnOp};
use mininn_verifier::scalar::Scalar;
use mininn_verifier::tensor::Tensor;
use mininn_verifier::tracer::Tracer;
use mininn_verifier::value::Value;


/// Double-precision numbers.
#[derive(Debug, Clone, Copy, PartialEq)]
struct F(f64);

impl Scalar for F {
    fn from_ratio(num: i128, den: u128) -> F {
        F(num as f64 / den as f64)
    }
    fn infinity() -> F {
        F(f64::INFINITY)
    }
    fn neg_infinity() -> F {
        F(f64::NEG_INFINITY)
    }
    fn pi() -> F {
        F(std::f64::consts::PI)
    }
    fn add(self, other: F) -> F {
        F(self.0 + other.0)
    }
    fn sub(self, other: F) -> F {
        F(self.0 - other.0)
    }
    fn mul(self, other: F) -> F {
        F(self.0 * other.0)
    }
    fn div(self, other: F) -> F {
        F(self.0 / other.0)
    }
    fn neg(self) -> F {
        F(-self.0)
    }
    fn recip(self) -> F {
        F(self.0.recip())
    }
    fn abs(self) -> F {
        F(self.0.abs())
    }
    fn sqrt(self) -> F {
        F(self.0.sqrt())
    }
    fn exp(self) -> F {
        F(self.0.exp())
    }
    fn ln(self) -> F {
        F(self.0.ln())
    }
    fn erf(self) -> F {
        F(libm::erf(self.0))
    }
    fn max_of(self, other: F) -> F {
        F(self.0.max(other.0))
    }
    fn min_of(self, other: F) -> F {
        F(self.0.min(other.0))
    }
    fn is_lt(self, other: F) -> bool {
        self.0 < other.0
    }
    fn is_le(self, other: F) -> bool {
        self.0 <= other.0
    }
    fn is_eq(self, other: F) -> bool {
        self.0 == other.0
    }
    fn is_before(self, other: F) -> bool {
        self.0.total_cmp(&other.0).is_lt()
    }
}

fn arr(data: &[f64], shape: &[usize]) -> Tensor<F> {
    Tensor::from_shape_vec(shape.to_vec(), data.iter().map(|&x| F(x)).collect()).unwrap()
}

fn vals(t: &Tensor<F>) -> Vec<f64> {
    t.values().iter().map(|x| x.0).collect()
}

fn scalar(t: &Tensor<F>) -> f64 {
    vals(t).iter().sum()
}

// A tiny one-hidden-layer ReLU net: out = relu(x*W1 + b1)*W2 + b2, with mixed
// sign weights so the hidden neurons are genuinely unstable over the box.
const W1: [f64; 6] = [1.0, -1.0, 0.5, -0.5, 1.0, 1.0]; // [2, 3]
const B1: [f64; 3] = [0.1, -0.2, 0.0];
const W2: [f64; 3] = [1.0, -1.0, 0.5];
const B2: f64 = 0.0;

fn relu_net() -> ComputeGraph<F> {
    trace(&vec![("x".to_string(), vec![2])], |env, mut cx| {
        let lift = |t: Tensor<F>| Tracer::from_tensor(t);
        let x = env.get("x").unwrap();
        let z = x.apply2(&BinOp::Dot, &lift(arr(&W1, &[2, 3])), &mut cx).unwrap();
        let z = z.apply2(&BinOp::Add, &lift(arr(&B1, &[3])), &mut cx).unwrap();
        let h = z.apply1(&UnOp::Relu, &mut cx).unwrap();
        let o = h.apply2(&BinOp::Dot, &lift(arr(&W2, &[3])), &mut cx).unwrap();
        let o = o.apply2(&BinOp::Add, &lift(arr(&[B2], &[])), &mut cx).unwrap();
        (cx, o)
    })
}

fn eval_net(x: &Tensor<F>) -> Tensor<F> {
    let z = pre_activation(x);
    let h = z.unary(&UnOp::Relu).unwrap();
    h.dot(&arr(&W2, &[3])).unwrap().add(&arr(&[B2], &[])).unwrap()
}

fn pre_activation(x: &Tensor<F>) -> Tensor<F> {
    x.dot(&arr(&W1, &[2, 3])).unwrap().add(&arr(&B1, &[3])).unwrap()
}

/// IBP forward pass over the whole net, producing bounds for every var.
fn ibp_forward(graph: &ComputeGraph<F>, lb: &Tensor<F>, ub: &Tensor<F>) -> Env<IBPTensor<F>> {
    let mut bounds = Env::new();
    bounds.insert(
        graph.invars[0].name.clone(),
        IBPTensor::new(lb.clone(), ub.clone()).unwrap(),
    );
    for eqn in &graph.equations {
        let out = IBPInterpreter::process_primitive(&eqn.primitive, &bounds).unwrap();
        bounds.insert(eqn.outvar.name.clone(), out);
    }
    bounds
}

/// With no splits the beta term vanishes, so beta-CROWN must reduce exactly to
/// alpha-CROWN: same init, same alpha ascent, beta pinned at 0.
#[test]
fn no_splits_matches_alpha_crown() {
    let graph = relu_net();
    let (lb, ub) = (arr(&[-1.0, -1.0], &[2]), arr(&[1.0, 1.0], &[2]));

    let inputs = vec![IBPTensor::new(lb.clone(), ub.clone()).unwrap()];
    let var_bounds = ibp_forward(&graph, &lb, &ub);

    let (alpha_lb, _) = AlphaCrownInterpreter::run(&graph, &inputs).unwrap();
    let beta =
        BetaCrownInterpreter::run(&graph, &var_bounds, &Env::new(), None, None).unwrap();

    let a = scalar(&alpha_lb.concretize::<F>(&lb, &ub, &mut ()).unwrap());
    let b = scalar(&beta.bound.concretize::<F>(&lb, &ub, &mut ()).unwrap());
    assert!(
        (a - b).abs() < 1e-9,
        "beta-CROWN with empty splits diverged from alpha-CROWN: {a} vs {b}",
    );
}

/// The bound must remain a valid lower bound of the output over the region cut
/// out by the split constraints. We split every hidden neuron to the phase it
/// takes at the box center (guaranteeing a non-empty region) and sample: every
/// feasible point's output must sit at or above the reported bound.
#[test]
fn split_bound_is_sound() {
    let graph = relu_net();
    let (lb, ub) = (arr(&[-1.0, -1.0], &[2]), arr(&[1.0, 1.0], &[2]));
    let var_bounds = ibp_forward(&graph, &lb, &ub);

    // Split sign = sign of each pre-activation at the center -> center feasible.
    let center = arr(&[0.0, 0.0], &[2]);
    let s = pre_activation(&center).mapv(|z: F| if z.0 >= 0.0 { F(1.0) } else { F(-1.0) });

    let relu_name = graph
        .equations
        .iter()
        .find(|e| matches!(e.primitive, Primitive::Relu(_)))
        .unwrap()
        .outvar
        .name
        .clone();
    let mut splits = Env::new();
    splits.insert(relu_name, s.clone());

    let bound = BetaCrownInterpreter::run(&graph, &var_bounds, &splits, None, None)
        .unwrap()
        .bound;
    let bound_val = scalar(&bound.concretize::<F>(&lb, &ub, &mut ()).unwrap());

    // Grid sample the box; check only points consistent with the split.
    let n = 40;
    let mut feasible = 0;
    for i in 0..=n {
        for j in 0..=n {
            let x = arr(
                &[
                    -1.0 + 2.0 * i as f64 / n as f64,
                    -1.0 + 2.0 * j as f64 / n as f64,
                ],
                &[2],
            );
            let z = pre_activation(&x);
            let feasible_here = vals(&z).iter().zip(vals(&s)).all(|(&zj, sj)| sj * zj >= -1e-12);
            if !feasible_here {
                continue;
            }
            feasible += 1;
            let out = scalar(&eval_net(&x));
            assert!(
                out >= bound_val - 1e-6,
                "beta-CROWN bound unsound: output {out} < bound {bound_val} at {:?}",
                vals(&x),
            );
        }
    }
    assert!(
        feasible > 0,
        "split region had no sampled points (vacuous test)"
    );
}

/// The BaBSR bias term must use the real feeding-layer bias: `feeding_bias`
/// pulls `B1` out of the `Add` that produces the ReLU's pre-activation,
/// broadcast to the pre-activation shape, not the zero placeholder.
#[test]
fn feeding_bias_extracts_layer_bias() {
    let graph = relu_net();
    let relu = graph
        .equations
        .iter()
        .find(|e| matches!(e.primitive, Primitive::Relu(_)))
        .unwrap();
    let Primitive::Relu(operand) = &relu.primitive else {
        unreachable!()
    };

    let bias = BetaCrownInterpreter::feeding_bias(&graph, operand, &[B1.len()]).unwrap();
    assert_eq!(vals(&bias), B1.to_vec());
}

/// Nothing is taken off a weight without splits, so not a digit differs.
#[test]
fn no_splits_give_the_very_bound() {
    let graph = relu_net();
    let (lb, ub) = (arr(&[-1.0, -1.0], &[2]), arr(&[1.0, 1.0], &[2]));
    let inputs = vec![IBPTensor::new(lb.clone(), ub.clone()).unwrap()];
    let (low, _) = AlphaCrownInterpreter::run(&graph, &inputs).unwrap();
    let bounds = ibp_forward(&graph, &lb, &ub);
    let beta = BetaCrownInterpreter::run(&graph, &bounds, &Env::new(), None, None).unwrap();
    assert_eq!(vals(&beta.bound.weights), vals(&low.weights));
    assert_eq!(vals(&beta.bound.biases), vals(&low.biases));
    assert_eq!(vals(beta.betas.get("a2").unwrap()), vec![0.0, 0.0, 0.0]);
}

#[test]
fn generated_names_start_behind_those_of_inputs() {
    let inputs = vec![("a3".to_string(), vec![2]), ("x".to_string(), vec![2])];
    let graph: ComputeGraph<F> = trace(&inputs, |env, mut cx| {
        let sum = env.get("a3").unwrap().apply2(&BinOp::Add, env.get("x").unwrap(), &mut cx).unwrap();
        let out = sum.apply1(&UnOp::Neg, &mut cx).unwrap();
        (cx, out)
    });
    let names: Vec<&str> = graph.equations.iter().map(|e| e.outvar.name.as_str()).collect();
    assert_eq!(names, vec!["a4", "a5"]);
}

/// Squares, exponentials, products and sums are walked through as well as layers.
#[test]
fn curves_products_and_sums_are_bounded() {
    let graph: ComputeGraph<F> = trace(&vec![("x".to_string(), vec![2])], |env, mut cx| {
        let x = env.get("x").unwrap();
        let s = x.apply1(&UnOp::Square, &mut cx).unwrap();
        let e = x.apply1(&UnOp::Exp, &mut cx).unwrap();
        let p = s.apply2(&BinOp::Mul, &e, &mut cx).unwrap();
        let q = p.apply2(&BinOp::Add, x, &mut cx).unwrap();
        let out = q.apply1(&UnOp::ReduceSum(vec![0]), &mut cx).unwrap();
        (cx, out)
    });
    let (lb, ub) = (arr(&[-0.5, 0.25], &[2]), arr(&[0.5, 1.0], &[2]));
    let inputs = vec![IBPTensor::new(lb.clone(), ub.clone()).unwrap()];
    let (low, high) = AlphaCrownInterpreter::run(&graph, &inputs).unwrap();
    assert_eq!(low.weights.shape(), &[2]);
    for i in 0..=8 {
        for j in 0..=8 {
            let x = [-0.5 + i as f64 / 8.0, 0.25 + 0.75 * j as f64 / 8.0];
            let f: f64 = x.iter().map(|v| v * v * v.exp() + v).sum();
            let at = |w: &Tensor<F>, b: &Tensor<F>| {
                vals(w).iter().zip(&x).map(|(w, v)| w * v).sum::<f64>() + scalar(b)
            };
            assert!(at(&low.weights, &low.biases) <= f + 1e-9, "below at {x:?}");
            assert!(at(&high.weights, &high.biases) >= f - 1e-9, "above at {x:?}");
        }
    }
}

#[test]
fn a_reciprocal_across_zero_has_no_bounds() {
    let graph: ComputeGraph<F> = trace(&vec![("x".to_string(), vec![2])], |env, mut cx| {
        let out = env.get("x").unwrap().apply1(&UnOp::Reciprocal, &mut cx).unwrap();
        (cx, out)
    });
    let bounds = ibp_forward(&graph, &arr(&[-1.0, 2.0], &[2]), &arr(&[1.0, 4.0], &[2]));
    let y = bounds.get("a0").unwrap();
    assert_eq!(vals(y.lb()), vec![f64::NEG_INFINITY, 0.25]);
    assert_eq!(vals(y.ub()), vec![f64::INFINITY, 0.5]);
}

#[test]
fn gelu_bounds_hold_its_values() {
    let graph: ComputeGraph<F> = trace(&vec![("x".to_string(), vec![3])], |env, mut cx| {
        let out = env.get("x").unwrap().apply1(&UnOp::Gelu, &mut cx).unwrap();
        (cx, out)
    });
    let (lb, ub) = (arr(&[-3.0, -2.0, 0.5], &[3]), arr(&[-1.0, 1.0, 2.0], &[3]));
    let bounds = ibp_forward(&graph, &lb, &ub);
    let y = bounds.get("a0").unwrap();
    let g = |x: f64| x * 0.5 * (1.0 + libm::erf(x / 2.0f64.sqrt()));
    assert_eq!(vals(y.lb())[1], -0.16997120747990366);
    for k in 0..3 {
        for i in 0..=100 {
            let x = vals(&lb)[k] + (vals(&ub)[k] - vals(&lb)[k]) * i as f64 / 100.0;
            assert!(vals(y.lb())[k] <= g(x) + 1e-15 && g(x) <= vals(y.ub())[k] + 1e-15);
        }
    }
}

/// Multipliers get names that no activation has.
#[test]
fn an_activation_may_be_named_like_multipliers() {
    let var = |name: &str| Atom::var(name.to_string(), vec![2]);
    let graph: ComputeGraph<F> = ComputeGraph {
        invars: vec![var("x")],
        outvars: vec![var("y")],
        equations: vec![
            Equation { primitive: Primitive::Relu(var("x")), outvar: var("h") },
            Equation { primitive: Primitive::Neg(var("x")), outvar: var("n") },
            Equation { primitive: Primitive::Relu(var("n")), outvar: var("h::beta") },
            Equation { primitive: Primitive::Add(var("h"), var("h::beta")), outvar: var("y") },
        ],
    };
    let (lb, ub) = (arr(&[-1.0, -2.0], &[2]), arr(&[1.5, 1.0], &[2]));
    let inputs = vec![IBPTensor::new(lb.clone(), ub.clone()).unwrap()];
    let (low, _) = AlphaCrownInterpreter::run(&graph, &inputs).unwrap();
    let bounds = ibp_forward(&graph, &lb, &ub);
    let beta = BetaCrownInterpreter::run(&graph, &bounds, &Env::new(), None, None).unwrap();
    assert_eq!(vals(&beta.bound.weights), vals(&low.weights));
    // where x is positive, the sum is at least the bound under that constraint
    let mut splits = Env::new();
    splits.insert("h".to_string(), arr(&[1.0, 1.0], &[2]));
    let cut = BetaCrownInterpreter::run(&graph, &bounds, &splits, None, None).unwrap();
    for x in [[0.0, 0.0], [1.5, 0.5], [0.25, 1.0]] {
        let at: f64 = vals(&cut.bound.weights).iter().zip(&x).map(|(w, v)| w * v).sum();
        assert!(at + scalar(&cut.bound.biases) <= x[0] + x[1] + 1e-9, "at {x:?}");
    }
}
