//! Splitting the phases of rectifiers.

use mininn_verifier::compute_graph::trace;
use mininn_verifier::env::Env;
use mininn_verifier::interval::IBPTensor;
use mininn_verifier::nn::{ComputeGraph, Primitive};
use mininn_verifier::node_splitting::{is_feasible, split_smart};
use mininn_verifier::op::{BinOp, UnOp};
use mininn_verifier::scalar::Scalar;
use mininn_verifier::tensor::Tensor;
use mininn_verifier::tracer::Tracer;
use mininn_verifier::value::Value;


/// Double-precision numbers.
#[derive(Debug, Clone, Copy, PartialEq)]
struct F(f64);

impl Scalar for F {
    fn from_ratio(num: i128, den: u128) -> F {
        F(num as f64 / den as f64)
    }
    fn infinity() -> F {
        F(f64::INFINITY)
    }
    fn neg_infinity() -> F {
        F(f64::NEG_INFINITY)
    }
    fn pi() -> F {
        F(std::f64::consts::PI)
    }
    fn add(self, other: F) -> F {
        F(self.0 + other.0)
    }
    fn sub(self, other: F) -> F {
        F(self.0 - other.0)
    }
    fn mul(self, other: F) -> F {
        F(self.0 * other.0)
    }
    fn div(self, other: F) -> F {
        F(self.0 / other.0)
    }
    fn neg(self) -> F {
        F(-self.0)
    }
    fn recip(self) -> F {
        F(self.0.recip())
    }
    fn abs(self) -> F {
        F(self.0.abs())
    }
    fn sqrt(self) -> F {
        F(self.0.sqrt())
    }
    fn exp(self) -> F {
        F(self.0.exp())
    }
    fn ln(self) -> F {
        F(self.0.ln())
    }
    fn erf(self) -> F {
        F(libm::erf(self.0))
    }
    fn max_of(self, other: F) -> F {
        F(self.0.max(other.0))
    }
    fn min_of(self, other: F) -> F {
        F(self.0.min(other.0))
    }
    fn is_lt(self, other: F) -> bool {
        self.0 < other.0
    }
    fn is_le(self, other: F) -> bool {
        self.0 <= other.0
    }
    fn is_eq(self, other: F) -> bool {
        self.0 == other.0
    }
    fn is_before(self, other: F) -> bool {
        self.0.total_cmp(&other.0).is_lt()
    }
}

fn arr(data: &[f64], shape: &[usize]) -> Tensor<F> {
    Tensor::from_shape_vec(shape.to_vec(), data.iter().map(|&x| F(x)).collect()).unwrap()
}

fn vals(t: &Tensor<F>) -> Vec<f64> {
    t.values().iter().map(|x| x.0).collect()
}

fn env(pairs: &[(&str, Tensor<F>)]) -> Env<Tensor<F>> {
    let mut e = Env::new();
    for (name, t) in pairs {
        e.insert((*name).to_string(), t.clone());
    }
    e
}

fn flat(env: &Env<Tensor<F>>, name: &str) -> Vec<f64> {
    vals(env.get(name).unwrap())
}

/// Forks the highest-scoring undecided neuron; every other neuron is untouched.
#[test]
fn forks_highest_scoring_undecided() {
    let splits = env(&[("a1", arr(&[0.0, 0.0], &[2])), ("a2", arr(&[0.0], &[1]))]);
    // Flatten order (by name): a1[0], a1[1], a2[0]. Max score at a1[1].
    let scores = env(&[("a1", arr(&[0.5, 2.0], &[2])), ("a2", arr(&[1.0], &[1]))]);

    let children = split_smart(&splits, &scores);
    assert_eq!(children.len(), 2);

    // Child 0 forces the chosen neuron active (+1), child 1 inactive (-1).
    assert_eq!(flat(&children[0], "a1"), vec![0.0, 1.0]);
    assert_eq!(flat(&children[1], "a1"), vec![0.0, -1.0]);
    // Untouched neurons stay at their prior state in both children.
    assert_eq!(flat(&children[0], "a2"), vec![0.0]);
    assert_eq!(flat(&children[1], "a2"), vec![0.0]);
}

/// Already-decided neurons are ineligible even with the highest score.
#[test]
fn skips_decided_neurons() {
    // a1[1] already forced to +1 and has the top score, so the next-best
    // undecided (a2[0], score 1.0 > a1[0]'s 0.5) must be chosen instead.
    let splits = env(&[("a1", arr(&[0.0, 1.0], &[2])), ("a2", arr(&[0.0], &[1]))]);
    let scores = env(&[("a1", arr(&[0.5, 9.0], &[2])), ("a2", arr(&[1.0], &[1]))]);

    let children = split_smart(&splits, &scores);
    assert_eq!(children.len(), 2);
    assert_eq!(flat(&children[0], "a2"), vec![1.0]);
    assert_eq!(flat(&children[1], "a2"), vec![-1.0]);
    // The pre-decided neuron is preserved in both children.
    assert_eq!(flat(&children[0], "a1"), vec![0.0, 1.0]);
    assert_eq!(flat(&children[1], "a1"), vec![0.0, 1.0]);
}

/// With nothing left undecided, a single unchanged child is returned.
#[test]
fn all_decided_returns_single_child() {
    let splits = env(&[("a1", arr(&[1.0, -1.0], &[2]))]);
    let scores = env(&[("a1", arr(&[9.0, 9.0], &[2]))]);

    let children = split_smart(&splits, &scores);
    assert_eq!(children.len(), 1);
    assert_eq!(flat(&children[0], "a1"), vec![1.0, -1.0]);
}

// ---- is_feasible tests ----

// Network: out = relu( relu(x) - 2 )
//   x in [-1, 1]
//   first ReLU  pre-activation: [-1, 1]     -> output [0, 1]
//   second ReLU pre-activation: [0,1]-2 = [-2,-1] -> output [0, 0]
fn two_relu_net() -> ComputeGraph<F> {
    trace(&vec![("x".to_string(), vec![1])], |env, mut cx| {
        let x = env.get("x").unwrap();
        let h = x.apply1(&UnOp::Relu, &mut cx).unwrap();
        let z = h
            .apply2(&BinOp::Add, &Tracer::from_tensor(arr(&[-2.0], &[1])), &mut cx)
            .unwrap();
        let o = z.apply1(&UnOp::Relu, &mut cx).unwrap();
        (cx, o)
    })
}

fn relu_names(graph: &ComputeGraph<F>) -> Vec<String> {
    graph
        .equations
        .iter()
        .filter(|e| matches!(e.primitive, Primitive::Relu(_)))
        .map(|e| e.outvar.name.clone())
        .collect()
}

/// No splits -> always feasible.
#[test]
fn no_splits_always_feasible() {
    let graph = two_relu_net();
    let in_bounds = IBPTensor::new(arr(&[-1.0], &[1]), arr(&[1.0], &[1])).unwrap();
    assert!(is_feasible(&graph, &in_bounds, &Env::new()));
}

/// first +1, second -1:
///   first pre_ub = 1 >= 0, tightened output [0, 1]
///   second pre bounds [-2, -1], pre_lb = -2 <= 0
#[test]
fn feasible_splits_accepted() {
    let graph = two_relu_net();
    let names = relu_names(&graph);
    let in_bounds = IBPTensor::new(arr(&[-1.0], &[1]), arr(&[1.0], &[1])).unwrap();
    let splits = env(&[
        (&names[0], arr(&[1.0], &[1])),
        (&names[1], arr(&[-1.0], &[1])),
    ]);
    assert!(is_feasible(&graph, &in_bounds, &splits));
}

/// first +1, second +1:
///   first tightened output [0, 1]
///   second pre bounds [-2, -1], pre_ub = -1 < 0 -> INFEASIBLE
#[test]
fn compound_infeasible_splits_rejected() {
    let graph = two_relu_net();
    let names = relu_names(&graph);
    let in_bounds = IBPTensor::new(arr(&[-1.0], &[1]), arr(&[1.0], &[1])).unwrap();
    let splits = env(&[
        (&names[0], arr(&[1.0], &[1])),
        (&names[1], arr(&[1.0], &[1])),
    ]);
    assert!(!is_feasible(&graph, &in_bounds, &splits));
}

/// x in [0.5, 1]: first relu pre_lb = 0.5 > 0, forcing it inactive -> INFEASIBLE
#[test]
fn directly_infeasible_split_rejected() {
    let graph = two_relu_net();
    let names = relu_names(&graph);
    let in_bounds = IBPTensor::new(arr(&[0.5], &[1]), arr(&[1.0], &[1])).unwrap();
    let splits = env(&[(&names[0], arr(&[-1.0], &[1]))]);
    assert!(!is_feasible(&graph, &in_bounds, &splits));
}
