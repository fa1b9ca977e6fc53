//! Perceptrons and their training.

use mininn_verifier::error::EvalError;
use mininn_verifier::mlp::{init_mlp, kaiming_bound, layer_shapes, Layer};
use mininn_verifier::nn::ComputeGraph;
use mininn_verifier::scalar::Scalar;
use mininn_verifier::tensor::Tensor;
use mininn_verifier::train::{
    gather_rows, generator, identity, matching_rows, shuffle, shuffle_with, step, train_epoch,
    AdamState,
};

/// Double-precision numbers.
#[derive(Debug, Clone, Copy, PartialEq)]
struct F(f64);

impl Scalar for F {
    fn from_ratio(num: i128, den: u128) -> F {
        F(num as f64 / den as f64)
    }
    fn infinity() -> F {
        F(f64::INFINITY)
    }
    fn neg_infinity() -> F {
        F(f64::NEG_INFINITY)
    }
    fn pi() -> F {
        F(std::f64::consts::PI)
    }
    fn add(self, other: F) -> F {
        F(self.0 + other.0)
    }
    fn sub(self, other: F) -> F {
        F(self.0 - other.0)
    }
    fn mul(self, other: F) -> F {
        F(self.0 * other.0)
    }
    fn div(self, other: F) -> F {
        F(self.0 / other.0)
    }
    fn neg(self) -> F {
        F(-self.0)
    }
    fn recip(self) -> F {
        F(self.0.recip())
    }
    fn abs(self) -> F {
        F(self.0.abs())
    }
    fn sqrt(self) -> F {
        F(self.0.sqrt())
    }
    fn exp(self) -> F {
        F(self.0.exp())
    }
    fn ln(self) -> F {
        F(self.0.ln())
    }
    fn erf(self) -> F {
        F(libm::erf(self.0))
    }
    fn max_of(self, other: F) -> F {
        F(self.0.max(other.0))
    }
    fn min_of(self, other: F) -> F {
        F(self.0.min(other.0))
    }
    fn is_lt(self, other: F) -> bool {
        self.0 < other.0
    }
    fn is_le(self, other: F) -> bool {
        self.0 <= other.0
    }
    fn is_eq(self, other: F) -> bool {
        self.0 == other.0
    }
    fn is_before(self, other: F) -> bool {
        self.0.total_cmp(&other.0).is_lt()
    }
}

fn arr(data: &[f64], shape: &[usize]) -> Tensor<F> {
    Tensor::from_shape_vec(shape.to_vec(), data.iter().map(|&x| F(x)).collect()).unwrap()
}

fn vals(t: &Tensor<F>) -> Vec<f64> {
    t.values().iter().map(|x| x.0).collect()
}


fn near(a: &[f64], b: &[f64]) {
    assert_eq!(a.len(), b.len());
    for (x, y) in a.iter().zip(b) {
        assert!((x - y).abs() < 1e-9, "{a:?} vs {b:?}");
    }
}

#[test]
fn layers_chain_their_sizes() {
    assert_eq!(layer_shapes(4, &vec![3, 2]), vec![(4, 3), (3, 2)]);
    assert_eq!(layer_shapes(4, &vec![]), vec![]);
}

#[test]
fn weights_are_drawn_within_the_kaiming_bound() {
    // sqrt(2) * sqrt(3 / fan_in)
    assert!((kaiming_bound::<F>(6).0 - 1.0).abs() < 1e-12);
}

#[test]
fn fresh_layers_have_zero_biases() {
    let layers = init_mlp(2, &vec![2], vec![vec![F(1.0), F(2.0), F(3.0), F(4.0)]]).unwrap();
    assert_eq!(layers.len(), 1);
    assert_eq!(layers[0].w.shape(), &[2, 2]);
    assert_eq!(vals(&layers[0].w), vec![1.0, 2.0, 3.0, 4.0]);
    assert_eq!(vals(&layers[0].b), vec![0.0, 0.0]);
}

#[test]
fn too_few_weights_are_an_error() {
    assert!(init_mlp(2, &vec![2], vec![vec![F(1.0)]]).is_err());
}

#[test]
fn perceptron_graph_has_a_rectifier_between_layers() {
    let layers = init_mlp(
        2,
        &vec![3, 1],
        vec![vec![F(0.5); 6], vec![F(1.0); 3]],
    )
    .unwrap();
    let g = ComputeGraph::from_layers(&layers, 5, 2);
    let names: Vec<&str> = g.invars.iter().map(|a| a.name.as_str()).collect();
    assert_eq!(names, vec!["x", "W0", "b0", "W1", "b1"]);
    let outs: Vec<&str> = g.equations.iter().map(|e| e.outvar.name.as_str()).collect();
    assert_eq!(outs, vec!["h0", "a0", "r0", "h1", "a1"]);
    assert_eq!(g.outvars[0].name, "a1");
    assert_eq!(g.outvars[0].shape, vec![5, 1]);
}

/// A permutation: shuffling keeps all numbers.
#[test]
fn shuffle_permutes() {
    let mut idx = identity(50);
    let mut rng = generator(7);
    shuffle(&mut idx, &mut rng).unwrap();
    assert_ne!(idx, identity(50));
    idx.sort();
    assert_eq!(idx, identity(50));
}

/// Equal seeds give equal orders.
#[test]
fn shuffle_depends_on_the_seed_alone() {
    let (mut a, mut b) = (identity(20), identity(20));
    shuffle(&mut a, &mut generator(3)).unwrap();
    shuffle(&mut b, &mut generator(3)).unwrap();
    assert_eq!(a, b);
}

#[test]
fn shuffle_needs_two_elements() {
    let mut one = identity(1);
    assert_eq!(shuffle(&mut one, &mut generator(3)), Err(EvalError::Empty));
    assert_eq!(one, vec![0]);
}

#[test]
fn given_draws_exchange_elements() {
    let mut idx = identity(3);
    shuffle_with(&mut idx, &vec![1, 0, 1]);
    let mut sorted = idx.clone();
    sorted.sort();
    assert_eq!(sorted, vec![0, 1, 2]);
}

#[test]
fn rows_are_gathered_in_order() {
    let t = arr(&[1.0, 2.0, 3.0, 4.0, 5.0, 6.0], &[3, 2]);
    let r = gather_rows(&t, &vec![2, 0, 1], 0, 2).unwrap();
    assert_eq!(r.shape(), &[2, 2]);
    assert_eq!(vals(&r), vec![5.0, 6.0, 1.0, 2.0]);
}

/// The first step of Adam moves every parameter by the rate against the sign of its gradient.
#[test]
fn first_adam_step() {
    let layers = vec![Layer { w: arr(&[1.0, 2.0], &[1, 2]), b: arr(&[0.5, 0.5], &[2]) }];
    let state = AdamState::new(&layers);
    let (grads_w, grads_b) = (vec![arr(&[0.5, -4.0], &[1, 2])], vec![arr(&[0.0, 2.0], &[2])]);
    let (next, after) = step(layers, state, &grads_w, &grads_b, F(0.1)).unwrap();
    near(&vals(&next[0].w), &[0.9 + 2e-9, 2.1 - 2.5e-10]);
    near(&vals(&next[0].b), &[0.5, 0.4 + 5e-10]);
    near(&vals(&after.w[0].m), &[0.05, -0.4]);
    near(&vals(&after.w[0].v), &[0.00025, 0.016]);
    near(&[after.beta1powt.0, after.beta2powt.0], &[0.9, 0.999]);
}

/// Training on separable data lowers the loss.
#[test]
fn epochs_learn_a_separation() {
    let data = arr(&[1.0, 0.0, 0.0, 1.0, 0.9, 0.1, 0.1, 0.9], &[4, 2]);
    let labels = arr(&[1.0, 0.0, 0.0, 1.0, 1.0, 0.0, 0.0, 1.0], &[4, 2]);
    let layers = init_mlp(2, &vec![2], vec![vec![F(0.1), F(0.0), F(0.0), F(0.1)]]).unwrap();
    let mut current = (layers, None);
    for _ in 0..30 {
        let (l, s) = current;
        let state = match s {
            Some(s) => s,
            None => AdamState::new(&l),
        };
        let (l, s) = train_epoch(l, state, &data, &labels, &identity(4), 2, F(0.05)).unwrap();
        current = (l, Some(s));
    }
    let w = vals(&current.0[0].w);
    assert!(w[0] > w[1] && w[3] > w[2]);
}

/// Inputs and labels come in as many rows.
#[test]
fn rows_of_inputs_and_labels_match() {
    assert_eq!(matching_rows(3, 3), Ok(3));
    assert_eq!(matching_rows(0, 0), Ok(0));
    assert_eq!(matching_rows(3, 2), Err((3, 2)));
}
