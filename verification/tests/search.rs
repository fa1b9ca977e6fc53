//! Branch and bound, and the bounds it rests on.

use mininn_verifier::abp::ABPInterpreter;
use mininn_verifier::alpha_crown::AlphaCrownInterpreter;
use mininn_verifier::bab::{BaBConfig, BaBResult};
use mininn_verifier::batched::{IBPBatchedInterpreter, IBPBatchedTensor};
use mininn_verifier::compute_graph::trace;
use mininn_verifier::env::Env;
use mininn_verifier::error::EvalError;
use mininn_verifier::eval::{EvalGenInterpreter, Interpreter};
use mininn_verifier::input_splitting::{input_splitting_bab, uniform_split, UniformSplit};
use mininn_verifier::interval::{IBPInterpreter, IBPTensor};
use mininn_verifier::nn::ComputeGraph;
use mininn_verifier::node_splitting::{
    all_decided, flatten_splits, node_splitting_bab, split_smart, unflatten_splits, SmartSplit,
};
use mininn_verifier::op::{BinOp, PaddingOptionConfig, PaddingOptions, PoolOptions, UnOp};
use mininn_verifier::scalar::Scalar;
use mininn_verifier::tensor::Tensor;
use mininn_verifier::tracer::Tracer;
use mininn_verifier::value::Value;

/// Double-precision numbers.
#[derive(Debug, Clone, Copy, PartialEq)]
struct F(f64);

impl Scalar for F {
    fn from_ratio(num: i128, den: u128) -> F {
        F(num as f64 / den as f64)
    }
    fn infinity() -> F {
        F(f64::INFINITY)
    }
    fn neg_infinity() -> F {
        F(f64::NEG_INFINITY)
    }
    fn pi() -> F {
        F(std::f64::consts::PI)
    }
    fn add(self, other: F) -> F {
        F(self.0 + other.0)
    }
    fn sub(self, other: F) -> F {
        F(self.0 - other.0)
    }
    fn mul(self, other: F) -> F {
        F(self.0 * other.0)
    }
    fn div(self, other: F) -> F {
        F(self.0 / other.0)
    }
    fn neg(self) -> F {
        F(-self.0)
    }
    fn recip(self) -> F {
        F(self.0.recip())
    }
    fn abs(self) -> F {
        F(self.0.abs())
    }
    fn sqrt(self) -> F {
        F(self.0.sqrt())
    }
    fn exp(self) -> F {
        F(self.0.exp())
    }
    fn ln(self) -> F {
        F(self.0.ln())
    }
    fn erf(self) -> F {
        F(libm::erf(self.0))
    }
    fn max_of(self, other: F) -> F {
        F(self.0.max(other.0))
    }
    fn min_of(self, other: F) -> F {
        F(self.0.min(other.0))
    }
    fn is_lt(self, other: F) -> bool {
        self.0 < other.0
    }
    fn is_le(self, other: F) -> bool {
        self.0 <= other.0
    }
    fn is_eq(self, other: F) -> bool {
        self.0 == other.0
    }
    fn is_before(self, other: F) -> bool {
        self.0.total_cmp(&other.0).is_lt()
    }
}

fn arr(data: &[f64], shape: &[usize]) -> Tensor<F> {
    Tensor::from_shape_vec(shape.to_vec(), data.iter().map(|&x| F(x)).collect()).unwrap()
}

fn vals(t: &Tensor<F>) -> Vec<f64> {
    t.values().iter().map(|x| x.0).collect()
}


/// out = w2 . relu(W1 x + b1) + c, for W1 = [[1, 1], [1, -1]], b1 = 0, w2 = [1, 1].
fn net(c: f64) -> ComputeGraph<F> {
    trace(&vec![("x".to_string(), vec![2])], |env, mut cx| {
        let lift = |t: Tensor<F>| Tracer::from_tensor(t);
        let x = env.get("x").unwrap();
        let w1 = lift(arr(&[1.0, 1.0, 1.0, -1.0], &[2, 2]));
        let z = w1.apply2(&BinOp::Dot, x, &mut cx).unwrap();
        let h = z.apply1(&UnOp::Relu, &mut cx).unwrap();
        let o = lift(arr(&[1.0, 1.0], &[1, 2])).apply2(&BinOp::Dot, &h, &mut cx).unwrap();
        let o = o.apply2(&BinOp::Add, &lift(arr(&[c], &[1])), &mut cx).unwrap();
        (cx, o)
    })
}

fn output(graph: &ComputeGraph<F>, x: &Tensor<F>) -> f64 {
    let r: Vec<Tensor<F>> =
        EvalGenInterpreter::run(graph, &vec![x.dup()], &mut ()).unwrap();
    vals(&r[0])[0]
}

fn unit_box() -> Vec<IBPTensor<F>> {
    vec![IBPTensor::new(arr(&[-1.0, -1.0], &[2]), arr(&[1.0, 1.0], &[2])).unwrap()]
}

fn config(max_iters: usize) -> BaBConfig<F> {
    BaBConfig { batch_size: 4, min_width: F(1e-6), max_iters }
}

fn inside(x: &Tensor<F>, region: &IBPTensor<F>) -> bool {
    vals(x)
        .iter()
        .zip(vals(region.lb()).iter().zip(vals(region.ub())))
        .all(|(&v, (&l, u))| l <= v && v <= u)
}

fn grid() -> Vec<Tensor<F>> {
    let mut out = Vec::new();
    for i in 0..=10 {
        for j in 0..=10 {
            out.push(arr(&[-1.0 + 0.2 * i as f64, -1.0 + 0.2 * j as f64], &[2]));
        }
    }
    out
}

/// A verdict of safety means that no input has a negative output.
#[test]
fn safe_box_has_no_negative_output() {
    let graph = net(0.5);
    let r = input_splitting_bab(&graph, &unit_box(), &UniformSplit {}, &config(1000)).unwrap();
    assert!(matches!(r, BaBResult::Safe));
    for x in grid() {
        assert!(output(&graph, &x) >= 0.0);
    }
}

/// A reported input lies in the box and has a negative output.
#[test]
fn reported_input_is_negative() {
    let graph = net(-0.5);
    let r = input_splitting_bab(&graph, &unit_box(), &UniformSplit {}, &config(1000)).unwrap();
    let BaBResult::Unsafe(cex) = r else { panic!("no counterexample") };
    assert_eq!(cex.len(), 1);
    assert!(inside(&cex[0], &unit_box()[0]));
    assert!(output(&graph, &cex[0]) < 0.0);
}

#[test]
fn search_without_rounds_is_undecided() {
    let graph = net(0.5);
    let r = input_splitting_bab(&graph, &unit_box(), &UniformSplit {}, &config(0)).unwrap();
    assert!(matches!(r, BaBResult::Undecided));
    let r = node_splitting_bab(&graph, &unit_box(), &SmartSplit {}, &config(0)).unwrap();
    assert!(matches!(r, BaBResult::Undecided));
}

#[test]
fn search_stops_at_small_boxes() {
    // the smallest output is exactly zero minus a tiny slack that bounds cannot settle
    let graph = net(-1e-12);
    let narrow = BaBConfig { batch_size: 4, min_width: F(10.0), max_iters: 100 };
    let r = input_splitting_bab(&graph, &unit_box(), &UniformSplit {}, &narrow).unwrap();
    assert!(matches!(r, BaBResult::Undecided));
}

#[test]
fn phases_find_safe_and_negative_outputs() {
    let r = node_splitting_bab(&net(0.5), &unit_box(), &SmartSplit {}, &config(1000)).unwrap();
    assert!(matches!(r, BaBResult::Safe));
    let graph = net(-0.5);
    let r = node_splitting_bab(&graph, &unit_box(), &SmartSplit {}, &config(1000)).unwrap();
    let BaBResult::Unsafe(cex) = r else { panic!("no counterexample") };
    assert!(inside(&cex[0], &unit_box()[0]));
    assert!(output(&graph, &cex[0]) < 0.0);
}

#[test]
fn phases_need_an_input() {
    let r = node_splitting_bab(&net(0.5), &Vec::new(), &SmartSplit {}, &config(1));
    assert_eq!(r.unwrap_err(), EvalError::Graph);
}

#[test]
fn halves_cut_the_widest_element() {
    let b = vec![IBPTensor::new(arr(&[0.0, -1.0], &[2]), arr(&[1.0, 3.0], &[2])).unwrap()];
    let parts = uniform_split(&b).unwrap();
    assert_eq!(parts.len(), 2);
    assert_eq!(vals(parts[0][0].lb()), vec![0.0, -1.0]);
    assert_eq!(vals(parts[0][0].ub()), vec![1.0, 1.0]);
    assert_eq!(vals(parts[1][0].lb()), vec![0.0, 1.0]);
    assert_eq!(vals(parts[1][0].ub()), vec![1.0, 3.0]);
}

#[test]
fn points_cannot_be_halved() {
    let b = vec![IBPTensor::point(arr(&[1.0, 2.0], &[2]))];
    assert_eq!(uniform_split(&b).unwrap_err(), EvalError::Empty);
}

#[test]
fn default_search_settings() {
    let c: BaBConfig<F> = BaBConfig::default();
    assert_eq!(c.batch_size, 64);
    assert_eq!(c.min_width, F(1e-6));
    assert_eq!(c.max_iters, 1_000_000);
}

/// Splits survive being made one list and taken apart again.
#[test]
fn flat_splits_round_trip() {
    let mut e = Env::new();
    e.insert("b".to_string(), arr(&[3.0], &[1]));
    e.insert("a".to_string(), arr(&[1.0, 2.0], &[2]));
    let list = flatten_splits(&e);
    assert_eq!(list.iter().map(|x| x.0).collect::<Vec<f64>>(), vec![1.0, 2.0, 3.0]);
    let back = unflatten_splits(&list, &e);
    assert_eq!(vals(back.get("a").unwrap()), vec![1.0, 2.0]);
    assert_eq!(vals(back.get("b").unwrap()), vec![3.0]);
    assert!(all_decided(&back));
}

/// A fork keeps all other phases, and the first of equal scores wins.
#[test]
fn fork_takes_the_first_of_equal_scores() {
    let mut splits = Env::new();
    splits.insert("a".to_string(), arr(&[0.0, 0.0, -1.0], &[3]));
    let mut scores = Env::new();
    scores.insert("a".to_string(), arr(&[2.0, 2.0, 9.0], &[3]));
    let parts = split_smart(&splits, &scores);
    assert_eq!(vals(parts[0].get("a").unwrap()), vec![1.0, 0.0, -1.0]);
    assert_eq!(vals(parts[1].get("a").unwrap()), vec![-1.0, 0.0, -1.0]);
}

/// Interval bounds hold the outputs on all inputs in the box.
#[test]
fn interval_bounds_hold_outputs() {
    let graph = net(0.25);
    let out = IBPInterpreter::run(&graph, &unit_box()).unwrap();
    let (l, u) = (vals(out[0].lb())[0], vals(out[0].ub())[0]);
    assert_eq!((l, u), (0.25, 4.25));
    for x in grid() {
        let y = output(&graph, &x);
        assert!(l <= y && y <= u);
    }
}

/// Member number `i` of a batch bounds what box number `i` holds.
#[test]
fn batch_members_match_single_boxes() {
    let graph = net(0.25);
    let small = vec![IBPTensor::new(arr(&[0.0, 0.0], &[2]), arr(&[0.5, 0.25], &[2])).unwrap()];
    let boxes = [unit_box(), small];
    let stacked = IBPBatchedTensor::from_members(&vec![&boxes[0][0], &boxes[1][0]]).unwrap();
    assert_eq!(stacked.batch_size(), 2);
    let out = IBPBatchedInterpreter::run(&graph, &vec![stacked]).unwrap();
    for (i, b) in boxes.iter().enumerate() {
        let single = IBPInterpreter::run(&graph, b).unwrap();
        let member = out[0].get(i);
        assert_eq!(vals(member.lb()), vals(single[0].lb()));
        assert_eq!(vals(member.ub()), vals(single[0].ub()));
    }
}

/// The output lies between the two affine functions with optimised slopes.
#[test]
fn alpha_bounds_hold_outputs() {
    let graph = net(0.25);
    let (low, high) = AlphaCrownInterpreter::run(&graph, &unit_box()).unwrap();
    for x in grid() {
        let y = output(&graph, &x);
        let at = |w: &Tensor<F>, b: &Tensor<F>| {
            vals(w).iter().zip(vals(&x)).map(|(a, b)| a * b).sum::<f64>() + vals(b)[0]
        };
        assert!(at(&low.weights, &low.biases) <= y + 1e-9);
        assert!(y <= at(&high.weights, &high.biases) + 1e-9);
    }
}

/// Affine bounds need no activation to be exact.
#[test]
fn affine_graph_is_bounded_exactly() {
    let graph = trace(&vec![("x".to_string(), vec![2])], |env, mut cx| {
        let x = env.get("x").unwrap();
        let w = Tracer::from_tensor(arr(&[2.0, -3.0], &[1, 2]));
        let o = w.apply2(&BinOp::Dot, x, &mut cx).unwrap();
        (cx, o)
    });
    let bounds = ABPInterpreter::run(&graph, &unit_box()).unwrap();
    let (lb, ub) = (unit_box()[0].lb().dup(), unit_box()[0].ub().dup());
    let low = bounds.0.concretize::<F>(&lb, &ub, &mut ()).unwrap();
    assert_eq!(vals(&bounds.0.weights), vec![2.0, -3.0]);
    assert_eq!(vals(&low), vec![-5.0]);
    let corner = bounds.0.argmin_corner(&lb, &ub).unwrap();
    assert_eq!(vals(&corner), vec![-1.0, 1.0]);
}

/// A convolution and a pooling of pictures, which are linear.
fn picture_net() -> ComputeGraph<F> {
    trace(&vec![("x".to_string(), vec![1, 1, 4, 4])], |env, mut cx| {
        let x = env.get("x").unwrap();
        let k = Tracer::from_tensor(arr(&[1.0, -2.0, 3.0, 4.0], &[1, 1, 2, 2]));
        let z = x.apply2(&BinOp::Conv(2), &k, &mut cx).unwrap();
        let options = PoolOptions { window_size: vec![1, 1, 2, 2], stride: vec![1, 1, 1, 1] };
        let o = z.apply1(&UnOp::Pool(options, true), &mut cx).unwrap();
        (cx, o)
    })
}

/// Bounds of convolutions and poolings are carried to the elements that they read.
#[test]
fn pictures_are_bounded_exactly() {
    let graph = picture_net();
    let region = vec![IBPTensor::new(
        arr(&[-1.0; 16], &[1, 1, 4, 4]),
        arr(&[1.0; 16], &[1, 1, 4, 4]),
    )
    .unwrap()];
    let bounds = ABPInterpreter::run(&graph, &region).unwrap();
    let (odd, even) = ([0.25, -0.5, 0.25, -0.5], [0.75, 1.0, 0.75, 1.0]);
    let expected: Vec<f64> = [odd, even, odd, even].concat();
    assert_eq!(vals(&bounds.0.weights), expected);
    assert_eq!(vals(&bounds.0.biases), vec![0.0]);
    let low = bounds.0.concretize::<F>(region[0].lb(), region[0].ub(), &mut ()).unwrap();
    assert_eq!(vals(&low), vec![-10.0]);
}

/// The members of a batch of pictures are convolved and pooled one by one.
#[test]
fn picture_batches_match_single_boxes() {
    let graph = picture_net();
    let lb: Vec<f64> = (0..16).map(|i| i as f64 / 8.0 - 1.0).collect();
    let ub: Vec<f64> = lb.iter().map(|x| x + 0.5).collect();
    let boxes = [
        IBPTensor::new(arr(&[-1.0; 16], &[1, 1, 4, 4]), arr(&[1.0; 16], &[1, 1, 4, 4])).unwrap(),
        IBPTensor::new(arr(&lb, &[1, 1, 4, 4]), arr(&ub, &[1, 1, 4, 4])).unwrap(),
    ];
    let stacked = IBPBatchedTensor::from_members(&vec![&boxes[0], &boxes[1]]).unwrap();
    let out = IBPBatchedInterpreter::run(&graph, &vec![stacked]).unwrap();
    for (i, b) in boxes.into_iter().enumerate() {
        let single = IBPInterpreter::run(&graph, &vec![b]).unwrap();
        let member = out[0].get(i);
        assert_eq!(vals(member.lb()), vals(single[0].lb()));
        assert_eq!(vals(member.ub()), vals(single[0].ub()));
    }
}

/// Sums, slices, moved and new axes act on each member of a batch.
#[test]
fn moves_act_on_batch_members() {
    let ops: Vec<UnOp<F>> = vec![
        UnOp::ReduceSum(vec![0]),
        UnOp::ExpandDims(vec![-1]),
        UnOp::MoveAxis(0, 1),
        UnOp::Slice(1, 0, None, 2),
        UnOp::Reshape(vec![3, -1]),
    ];
    let lb = arr(&[1.0, 2.0, 3.0, 4.0, 5.0, 6.0], &[2, 3]);
    let first = IBPTensor::new(lb.dup(), lb.add(&arr(&[1.0], &[1])).unwrap()).unwrap();
    let second = IBPTensor::new(lb.unary(&UnOp::Neg).unwrap(), lb.dup()).unwrap();
    let stacked = IBPBatchedTensor::from_members(&vec![&first, &second]).unwrap();
    for op in &ops {
        let out = stacked.unary(op).unwrap();
        for (i, b) in [&first, &second].into_iter().enumerate() {
            let single = b.unary(op).unwrap();
            assert_eq!(out.get(i).lb().shape(), single.lb().shape());
            assert_eq!(vals(out.get(i).lb()), vals(single.lb()));
            assert_eq!(vals(out.get(i).ub()), vals(single.ub()));
        }
    }
}

/// Moving an axis back, taking a shape back and cutting a padding off undo what was done.
#[test]
fn moves_are_undone() {
    let t = arr(&[1.0, 2.0, 3.0, 4.0, 5.0, 6.0], &[1, 2, 3]);
    let there = t.unary(&UnOp::MoveAxis(0, 2)).unwrap();
    assert_eq!(there.shape(), &[2, 3, 1]);
    let back = there.unary(&UnOp::MoveAxis(2, 0)).unwrap();
    assert_eq!((back.shape(), vals(&back)), (t.shape(), vals(&t)));
    let there = t.unary(&UnOp::Reshape(vec![-1, 2])).unwrap();
    assert_eq!(there.shape(), &[3, 2]);
    let back = there.unary(&UnOp::Reshape(vec![1, 2, 3])).unwrap();
    assert_eq!((back.shape(), vals(&back)), (t.shape(), vals(&t)));
    let pad = PaddingOptions {
        config: PaddingOptionConfig { left: 2, right: 1, interior: 1 },
        axes: vec![2],
        value: F(9.0),
    };
    let there = t.unary(&UnOp::Pad(pad)).unwrap();
    assert_eq!(there.shape(), &[1, 2, 8]);
    let back = there.unary(&UnOp::Slice(2, 2, Some(7), 2)).unwrap();
    assert_eq!((back.shape(), vals(&back)), (t.shape(), vals(&t)));
}

/// A traced computation gives, evaluated, what it gives directly.
#[test]
fn traced_computation_evaluates_alike() {
    let w = arr(&[1.0, -2.0, 0.5, 3.0], &[2, 2]);
    let graph = trace(&vec![("x".to_string(), vec![2])], |env, mut cx| {
        let x = env.get("x").unwrap();
        let z = Tracer::from_tensor(w.dup()).apply2(&BinOp::Dot, x, &mut cx).unwrap();
        let h = z.apply1(&UnOp::Relu, &mut cx).unwrap();
        let o = h.apply2(&BinOp::Mul, x, &mut cx).unwrap();
        (cx, o)
    });
    for x in grid() {
        let direct = w.dot(&x).unwrap().unary(&UnOp::Relu).unwrap();
        let direct = direct.apply2(&BinOp::Mul, &x, &mut ()).unwrap();
        let traced: Vec<Tensor<F>> =
            EvalGenInterpreter::run(&graph, &vec![x.dup()], &mut ()).unwrap();
        assert_eq!(vals(&traced[0]), vals(&direct));
    }
}

/// A batch of points is not taken for the weights of a layer.
#[test]
fn point_batches_match_single_points() {
    let graph = trace(&vec![("x".to_string(), vec![2])], |env, mut cx| {
        let w = Tracer::from_tensor(arr(&[1.0, 2.0, -3.0, 4.0], &[2, 2]));
        let o = env.get("x").unwrap().apply2(&BinOp::Dot, &w, &mut cx).unwrap();
        (cx, o)
    });
    let points = [arr(&[1.0, -1.0], &[2]), arr(&[0.5, 2.0], &[2])];
    let boxes: Vec<IBPTensor<F>> =
        points.iter().map(|p| IBPTensor::new(p.dup(), p.dup()).unwrap()).collect();
    let stacked = IBPBatchedTensor::from_members(&vec![&boxes[0], &boxes[1]]).unwrap();
    let out = IBPBatchedInterpreter::run(&graph, &vec![stacked]).unwrap();
    for (i, b) in boxes.into_iter().enumerate() {
        let single = IBPInterpreter::run(&graph, &vec![b]).unwrap();
        assert_eq!(vals(out[0].get(i).lb()), vals(single[0].lb()));
        assert_eq!(vals(out[0].get(i).ub()), vals(single[0].ub()));
    }
    assert_eq!(vals(out[0].get(0).lb()), vec![4.0, -2.0]);
}

/// A search without steps decides nothing.
#[test]
fn no_steps_no_verdict() {
    let graph = net(0.25);
    let nodes = node_splitting_bab(&graph, &unit_box(), &SmartSplit {}, &config(0)).unwrap();
    assert!(!matches!(nodes, BaBResult::Safe));
    let boxes = input_splitting_bab(&graph, &unit_box(), &UniformSplit {}, &config(0)).unwrap();
    assert!(!matches!(boxes, BaBResult::Safe));
}
