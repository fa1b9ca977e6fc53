//! Affine lower bounds, and the programs that carry them through single operations.

use vstd::prelude::*;
use crate::error::EvalError;
use crate::interval;
use crate::interval::{IBPTensor, IBPV};
use crate::lines;
use crate::lines::Curve;
use crate::model;
use crate::model::{BinOpV, Fault, PadV, TensorV, UnOpV};
use crate::op::{BinOp, PaddingOptions, UnOp};
use crate::scalar;
use crate::scalar::Scalar;
use crate::shape;
use crate::tensor;
use crate::tensor::Tensor;
use crate::value;
use crate::value::{Reg, Step, StepV, Value};
use crate::vjp;
use crate::vjp::{Rule, RuleV};

verus! {

/// The affine function `sum(weights * x) + biases`.
#[derive(Debug)]
pub struct AffineBounds<T> {
    pub weights: T,
    pub biases: T,
}

/// A mathematical affine function.
pub struct AffineV<M> {
    pub weights: M,
    pub biases: M,
}

/// The mathematical affine function.
pub open spec fn affine<S: Scalar, T: Value<S>>(a: AffineBounds<T>) -> AffineV<T::M> {
    AffineV { weights: a.weights.m(), biases: a.biases.m() }
}

/// The program of an inner product.
pub open spec fn inner_steps<S>() -> Seq<StepV<S>> {
    seq![StepV::Bin(BinOpV::Mul, Reg::In(0), Reg::In(1)), StepV::SumAll(Reg::Out(0))]
}

/// The inner product of two values.
pub open spec fn inner<S: Scalar, T: Value<S>>(c: T::C, w: T::M, x: T::M) -> (
    T::C,
    Result<T::M, Fault>,
) {
    vjp::picked::<S, T>(
        value::run_steps::<S, T>(c, inner_steps(), seq![w, x]),
        seq![w, x],
        Reg::Out(1),
    )
}

/// The inner product of two values.
pub fn lbp_inner<S: Scalar, T: Value<S>>(w: &T, x: &T, cx: &mut T::Cx) -> (r: Result<T, EvalError>)
    ensures
        (T::c(final(cx)), value::result::<S, T>(r)) == inner::<S, T>(T::c(old(cx)), w.m(), x.m()),
{
    let steps: Vec<Step<S>> = vec![
        Step::Bin(BinOp::Mul, Reg::In(0), Reg::In(1)),
        Step::SumAll(Reg::Out(0)),
    ];
    assert(value::program(steps@) =~= inner_steps::<S>());
    let inputs: Vec<T> = vec![w.copy(), x.copy()];
    assert(value::models::<S, T>(inputs@) =~= seq![w.m(), x.m()]);
    let done = value::perform::<S, T>(&steps, &inputs, cx)?;
    vjp::pick::<S, T>(&inputs, &done, Reg::Out(1))
}

/// The program of the least value of an affine function on a box; its inputs are the weights, the
/// bias and the ends of the box.
pub open spec fn concretize_steps<S>() -> Seq<StepV<S>> {
    seq![
        StepV::Un(UnOpV::Relu, Reg::In(0)),
        StepV::Un(UnOpV::Neg, Reg::Out(0)),
        StepV::Bin(BinOpV::Add, Reg::In(0), Reg::Out(1)),
        StepV::Bin(BinOpV::Mul, Reg::Out(0), Reg::In(2)),
        StepV::SumAll(Reg::Out(3)),
        StepV::Bin(BinOpV::Add, Reg::In(1), Reg::Out(4)),
        StepV::Bin(BinOpV::Mul, Reg::Out(2), Reg::In(3)),
        StepV::SumAll(Reg::Out(6)),
        StepV::Bin(BinOpV::Add, Reg::Out(5), Reg::Out(7)),
    ]
}

/// The least value of an affine function on a box: positive weights meet the lower end, negative
/// ones the upper end.
pub open spec fn concretized<S: Scalar, T: Value<S>>(
    c: T::C,
    a: AffineV<T::M>,
    lb: T::M,
    ub: T::M,
) -> (T::C, Result<T::M, Fault>) {
    let inputs = seq![a.weights, a.biases, lb, ub];
    vjp::picked::<S, T>(
        value::run_steps::<S, T>(c, concretize_steps(), inputs),
        inputs,
        Reg::Out(8),
    )
}

/// The corner of a box where an affine function with weights `w` is least.
pub open spec fn least_corner<S: Scalar>(w: TensorV<S>, lb: TensorV<S>, ub: TensorV<S>) -> TensorV<
    S,
> {
    TensorV {
        shape: w.shape,
        data: Seq::new(
            w.data.len(),
            |k: int|
                if scalar::zero::<S>().less(w.data[k]) {
                    lb.data[k]
                } else {
                    ub.data[k]
                },
        ),
    }
}

impl<T> AffineBounds<T> {
    /// Concretize the affine bound given concrete lower/upper bounds on the input.
    pub fn concretize<S: Scalar>(&self, lb: &T, ub: &T, cx: &mut T::Cx) -> (r: Result<
        T,
        EvalError,
    >) where T: Value<S>
        ensures
            (T::c(final(cx)), value::result::<S, T>(r)) == concretized::<S, T>(
                T::c(old(cx)),
                affine::<S, T>(*self),
                lb.m(),
                ub.m(),
            ),
    {
        let steps: Vec<Step<S>> = vec![
            Step::Un(UnOp::Relu, Reg::In(0)),
            Step::Un(UnOp::Neg, Reg::Out(0)),
            Step::Bin(BinOp::Add, Reg::In(0), Reg::Out(1)),
            Step::Bin(BinOp::Mul, Reg::Out(0), Reg::In(2)),
            Step::SumAll(Reg::Out(3)),
            Step::Bin(BinOp::Add, Reg::In(1), Reg::Out(4)),
            Step::Bin(BinOp::Mul, Reg::Out(2), Reg::In(3)),
            Step::SumAll(Reg::Out(6)),
            Step::Bin(BinOp::Add, Reg::Out(5), Reg::Out(7)),
        ];
        assert(value::program(steps@) =~= concretize_steps::<S>());
        let inputs: Vec<T> = vec![self.weights.copy(), self.biases.copy(), lb.copy(), ub.copy()];
        assert(value::models::<S, T>(inputs@) =~= seq![
            self.weights.m(),
            self.biases.m(),
            lb.m(),
            ub.m(),
        ]);
        let done = value::perform::<S, T>(&steps, &inputs, cx)?;
        vjp::pick::<S, T>(&inputs, &done, Reg::Out(8))
    }
}

impl<S: Scalar> AffineBounds<Tensor<S>> {
    /// The corner of the box `[lb, ub]` where the affine function is least. Ends of another
    /// shape than the weights are an error.
    pub fn argmin_corner(&self, lb: &Tensor<S>, ub: &Tensor<S>) -> (r: Result<
        Tensor<S>,
        EvalError,
    >)
        ensures
            tensor::outcome(r) == (if lb@.shape == self.weights@.shape && ub@.shape
                == self.weights@.shape {
                Ok(least_corner(self.weights@, lb@, ub@))
            } else {
                Err(Fault::Broadcast)
            }),
    {
        if !interval::same_shape(lb.shape(), self.weights.shape()) || !interval::same_shape(
            ub.shape(),
            self.weights.shape(),
        ) {
            return Err(EvalError::Broadcast);
        }
        let (w, l, u) = (self.weights.values(), lb.values(), ub.values());
        let zero = scalar::number::<S>(0);
        let ghost goal = least_corner(self.weights@, lb@, ub@);
        let mut data: Vec<S> = Vec::new();
        for i in 0..w.len()
            invariant
                w@ == self.weights@.data,
                l@ == lb@.data,
                u@ == ub@.data,
                l@.len() == w@.len(),
                u@.len() == w@.len(),
                zero == scalar::zero::<S>(),
                goal == least_corner(self.weights@, lb@, ub@),
                data@.len() == i,
                forall|k: int| 0 <= k < i ==> #[trigger] data@[k] == goal.data[k],
        {
            data.push(
                if zero.is_lt(w[i]) {
                    l[i]
                } else {
                    u[i]
                },
            );
        }
        assert(data@ =~= goal.data);
        Ok(Tensor::make(tensor::copy_of(self.weights.shape()), data))
    }
}

// ---- the programs that carry bounds through operations ----
// The first input is the weight of the result. The results are, for each operand, its weight and
// what it adds to the bias.
/// The relaxation of a function on each element of an interval: one coefficient of its lines.
pub open spec fn line_tensor<S: Scalar>(
    f: Curve<S>,
    x: IBPV<S>,
    part: spec_fn(lines::Lines<S>) -> S,
) -> TensorV<S> {
    interval::zipped(x.lb, x.ub, |l: S, u: S| part(lines::curve_lines(f, l, u)))
}

/// Whether a function can be relaxed on every element of an interval.
pub open spec fn all_relaxable<S: Scalar>(f: Curve<S>, x: IBPV<S>) -> bool {
    forall|k: int|
        0 <= k < x.lb.data.len() ==> lines::relaxable(f, #[trigger] x.lb.data[k], x.ub.data[k])
}

/// The program of the lines of a function.
#[verifier::opaque]
pub open spec fn convex_rule<S: Scalar>(f: Curve<S>, x: IBPV<S>) -> Result<RuleV<S>, Fault> {
    if !all_relaxable(f, x) {
        Err(Fault::Domain)
    } else {
        Ok(
            RuleV {
                steps: seq![
                    StepV::Load(line_tensor(f, x, |n: lines::Lines<S>| n.ls)),
                    StepV::Load(line_tensor(f, x, |n: lines::Lines<S>| n.lo)),
                    StepV::Load(line_tensor(f, x, |n: lines::Lines<S>| n.us)),
                    StepV::Load(line_tensor(f, x, |n: lines::Lines<S>| n.uo)),
                    StepV::Un(UnOpV::Relu, Reg::In(0)),
                    StepV::Un(UnOpV::Neg, Reg::Out(4)),
                    StepV::Bin(BinOpV::Add, Reg::In(0), Reg::Out(5)),
                    StepV::Bin(BinOpV::Mul, Reg::Out(0), Reg::Out(4)),
                    StepV::Bin(BinOpV::Mul, Reg::Out(2), Reg::Out(6)),
                    StepV::Bin(BinOpV::Add, Reg::Out(7), Reg::Out(8)),
                    StepV::Bin(BinOpV::Mul, Reg::Out(1), Reg::Out(4)),
                    StepV::SumAll(Reg::Out(10)),
                    StepV::Bin(BinOpV::Mul, Reg::Out(3), Reg::Out(6)),
                    StepV::SumAll(Reg::Out(12)),
                    StepV::Bin(BinOpV::Add, Reg::Out(11), Reg::Out(13)),
                ],
                outs: seq![Reg::Out(9), Reg::Out(14)],
            },
        )
    }
}

/// The program of the lines of a function.
pub fn bound_convex<S: Scalar>(f: &Curve<S>, x: &IBPTensor<S>) -> (r: Result<Rule<S>, EvalError>)
    ensures
        vjp::rule_is(r, convex_rule(*f, x@)),
        r matches Ok(rule) ==> rule.outs@.len() == 2 && rule.steps@.len() == 15,
{
    proof {
        reveal(convex_rule);
    }
    let (lb, ub) = (x.lb().values(), x.ub().values());
    let mut ls: Vec<S> = Vec::new();
    let mut lo: Vec<S> = Vec::new();
    let mut us: Vec<S> = Vec::new();
    let mut uo: Vec<S> = Vec::new();
    for i in 0..lb.len()
        invariant
            lb@ == x@.lb.data,
            ub@ == x@.ub.data,
            lb@.len() == ub@.len(),
            ls@.len() == i,
            lo@.len() == i,
            us@.len() == i,
            uo@.len() == i,
            forall|k: int| 0 <= k < i ==> lines::relaxable(*f, #[trigger] lb@[k], ub@[k]),
            forall|k: int|
                0 <= k < i ==> #[trigger] ls@[k] == lines::curve_lines(*f, lb@[k], ub@[k]).ls,
            forall|k: int|
                0 <= k < i ==> #[trigger] lo@[k] == lines::curve_lines(*f, lb@[k], ub@[k]).lo,
            forall|k: int|
                0 <= k < i ==> #[trigger] us@[k] == lines::curve_lines(*f, lb@[k], ub@[k]).us,
            forall|k: int|
                0 <= k < i ==> #[trigger] uo@[k] == lines::curve_lines(*f, lb@[k], ub@[k]).uo,
    {
        if !lines::can_relax(f, lb[i], ub[i]) {
            proof {
                reveal(convex_rule);
                assert(!lines::relaxable(*f, x@.lb.data[i as int], x@.ub.data[i as int]));
            }
            return Err(EvalError::Domain);
        }
        let n = lines::lines(f, lb[i], ub[i]);
        ls.push(n.ls);
        lo.push(n.lo);
        us.push(n.us);
        uo.push(n.uo);
    }
    let s = x.lb().shape();
    proof {
        assert(ls@ =~= line_tensor(*f, x@, |n: lines::Lines<S>| n.ls).data);
        assert(lo@ =~= line_tensor(*f, x@, |n: lines::Lines<S>| n.lo).data);
        assert(us@ =~= line_tensor(*f, x@, |n: lines::Lines<S>| n.us).data);
        assert(uo@ =~= line_tensor(*f, x@, |n: lines::Lines<S>| n.uo).data);
    }
    let steps: Vec<Step<S>> = vec![
        Step::Load(Tensor::make(tensor::copy_of(s), ls)),
        Step::Load(Tensor::make(tensor::copy_of(s), lo)),
        Step::Load(Tensor::make(tensor::copy_of(s), us)),
        Step::Load(Tensor::make(tensor::copy_of(s), uo)),
        Step::Un(UnOp::Relu, Reg::In(0)),
        Step::Un(UnOp::Neg, Reg::Out(4)),
        Step::Bin(BinOp::Add, Reg::In(0), Reg::Out(5)),
        Step::Bin(BinOp::Mul, Reg::Out(0), Reg::Out(4)),
        Step::Bin(BinOp::Mul, Reg::Out(2), Reg::Out(6)),
        Step::Bin(BinOp::Add, Reg::Out(7), Reg::Out(8)),
        Step::Bin(BinOp::Mul, Reg::Out(1), Reg::Out(4)),
        Step::SumAll(Reg::Out(10)),
        Step::Bin(BinOp::Mul, Reg::Out(3), Reg::Out(6)),
        Step::SumAll(Reg::Out(12)),
        Step::Bin(BinOp::Add, Reg::Out(11), Reg::Out(13)),
    ];
    let outs: Vec<Reg> = vec![Reg::Out(9), Reg::Out(14)];
    proof {
        let want = convex_rule(*f, x@)->Ok_0;
        assert(value::program(steps@) =~= want.steps);
        assert(outs@ =~= want.outs);
    }
    Ok(Rule { steps, outs })
}

/// The slope of the line above a rectifier with slope `slope` below zero.
pub open spec fn relu_upper_slope<S: Scalar>(slope: S, l: S, u: S) -> S {
    if scalar::zero::<S>().at_most(l) {
        scalar::one()
    } else if u.at_most(scalar::zero()) {
        slope
    } else {
        u.over(u.minus(l))
    }
}

/// The offset of the line above a rectifier.
pub open spec fn relu_upper_offset<S: Scalar>(l: S, u: S) -> S {
    if scalar::zero::<S>().at_most(l) || u.at_most(scalar::zero()) {
        scalar::zero()
    } else {
        u.opposite().times(l).over(u.minus(l))
    }
}

/// Whether an interval holds numbers of both signs, as a number.
pub open spec fn relu_open<S: Scalar>(l: S, u: S) -> S {
    if l.less(scalar::zero()) && scalar::zero::<S>().less(u) {
        scalar::one()
    } else {
        scalar::zero()
    }
}

/// The slope of a rectifier on an interval of numbers of one sign.
pub open spec fn relu_fixed<S: Scalar>(slope: S, l: S) -> S {
    if scalar::zero::<S>().at_most(l) {
        scalar::one()
    } else {
        slope
    }
}

/// The program of a rectifier with slope `slope` below zero. The second input holds the slopes of
/// the lines below, as numbers between zero and one.
#[verifier::opaque]
pub open spec fn relu_rule<S: Scalar>(slope: S, x: IBPV<S>) -> RuleV<S> {
    RuleV {
        steps: seq![
            vjp::load_number(scalar::one::<S>().minus(slope)),
            StepV::Bin(BinOpV::Mul, Reg::In(1), Reg::Out(0)),
            vjp::load_number(slope),
            StepV::Bin(BinOpV::Add, Reg::Out(1), Reg::Out(2)),
            StepV::Load(interval::zipped(x.lb, x.ub, |l: S, u: S| relu_open(l, u))),
            StepV::Load(interval::zipped(x.lb, x.ub, |l: S, u: S| relu_fixed(slope, l))),
            StepV::Select(Reg::Out(4), Reg::Out(3), Reg::Out(5)),
            StepV::Load(interval::zipped(x.lb, x.ub, |l: S, u: S| relu_upper_slope(slope, l, u))),
            StepV::Load(interval::zipped(x.lb, x.ub, |l: S, u: S| relu_upper_offset(l, u))),
            StepV::Un(UnOpV::Relu, Reg::In(0)),
            StepV::Un(UnOpV::Neg, Reg::Out(9)),
            StepV::Bin(BinOpV::Add, Reg::In(0), Reg::Out(10)),
            StepV::Bin(BinOpV::Mul, Reg::Out(6), Reg::Out(9)),
            StepV::Bin(BinOpV::Mul, Reg::Out(7), Reg::Out(11)),
            StepV::Bin(BinOpV::Add, Reg::Out(12), Reg::Out(13)),
            StepV::Bin(BinOpV::Mul, Reg::Out(8), Reg::Out(11)),
            StepV::SumAll(Reg::Out(15)),
        ],
        outs: seq![Reg::Out(14), Reg::Out(16)],
    }
}

/// The program of a rectifier.
pub fn crown_relu<S: Scalar>(slope: S, x: &IBPTensor<S>) -> (r: Rule<S>)
    ensures
        r@ == relu_rule(slope, x@),
        r.outs@.len() == 2,
        r.steps@.len() == 17,
{
    proof {
        reveal(relu_rule);
    }
    let (lb, ub) = (x.lb(), x.ub());
    let zero = scalar::number::<S>(0);
    let one = scalar::number::<S>(1);
    let f_slope = |l: S, u: S| -> (z: S)
        ensures
            z == relu_upper_slope(slope, l, u),
        {
            if zero.is_le(l) {
                one
            } else if u.is_le(zero) {
                slope
            } else {
                u.div(u.sub(l))
            }
        };
    let f_offset = |l: S, u: S| -> (z: S)
        ensures
            z == relu_upper_offset(l, u),
        {
            if zero.is_le(l) || u.is_le(zero) {
                zero
            } else {
                u.neg().mul(l).div(u.sub(l))
            }
        };
    let f_open = |l: S, u: S| -> (z: S)
        ensures
            z == relu_open(l, u),
        {
            if l.is_lt(zero) && zero.is_lt(u) {
                one
            } else {
                zero
            }
        };
    let f_fixed = |l: S, u: S| -> (z: S)
        ensures
            z == relu_fixed(slope, l),
        {
            if zero.is_le(l) {
                one
            } else {
                slope
            }
        };
    let upper_slope = interval::zip_with(lb, ub, f_slope);
    let upper_offset = interval::zip_with(lb, ub, f_offset);
    // Mask selects the (remapped) alpha for ambiguous neurons, fixed slope elsewhere.
    let ambiguous = interval::zip_with(lb, ub, f_open);
    let fixed_slopes = interval::zip_with(lb, ub, f_fixed);
    proof {
        let (a, b) = (x@.lb, x@.ub);
        assert(upper_slope@ =~= interval::zipped(
            a,
            b,
            |l: S, u: S| relu_upper_slope(slope, l, u),
        ));
        assert(upper_offset@ =~= interval::zipped(a, b, |l: S, u: S| relu_upper_offset(l, u)));
        assert(ambiguous@ =~= interval::zipped(a, b, |l: S, u: S| relu_open(l, u)));
        assert(fixed_slopes@ =~= interval::zipped(a, b, |l: S, u: S| relu_fixed(slope, l)));
    }
    let steps: Vec<Step<S>> = vec![
        Step::Load(Tensor::from_scalar(one.sub(slope))),
        Step::Bin(BinOp::Mul, Reg::In(1), Reg::Out(0)),
        Step::Load(Tensor::from_scalar(slope)),
        Step::Bin(BinOp::Add, Reg::Out(1), Reg::Out(2)),
        Step::Load(ambiguous),
        Step::Load(fixed_slopes),
        Step::Select(Reg::Out(4), Reg::Out(3), Reg::Out(5)),
        Step::Load(upper_slope),
        Step::Load(upper_offset),
        Step::Un(UnOp::Relu, Reg::In(0)),
        Step::Un(UnOp::Neg, Reg::Out(9)),
        Step::Bin(BinOp::Add, Reg::In(0), Reg::Out(10)),
        Step::Bin(BinOp::Mul, Reg::Out(6), Reg::Out(9)),
        Step::Bin(BinOp::Mul, Reg::Out(7), Reg::Out(11)),
        Step::Bin(BinOp::Add, Reg::Out(12), Reg::Out(13)),
        Step::Bin(BinOp::Mul, Reg::Out(8), Reg::Out(11)),
        Step::SumAll(Reg::Out(15)),
    ];
    let outs: Vec<Reg> = vec![Reg::Out(14), Reg::Out(16)];
    proof {
        let want = relu_rule(slope, x@);
        assert(value::program(steps@) =~= want.steps);
        assert(outs@ =~= want.outs);
    }
    Rule { steps, outs }
}

/// Whether a condition surely holds, as a number.
pub open spec fn surely_true<S: Scalar>(l: S, u: S) -> S {
    if scalar::zero::<S>().less(l) || u.less(scalar::zero()) {
        scalar::one()
    } else {
        scalar::zero()
    }
}

/// Whether a condition surely fails, as a number.
pub open spec fn surely_false<S: Scalar>(l: S, u: S) -> S {
    if l.same(scalar::zero()) && u.same(scalar::zero()) {
        scalar::one()
    } else {
        scalar::zero()
    }
}

/// Whether a condition may hold and may fail, as a number.
pub open spec fn undecided<S: Scalar>(l: S, u: S) -> S {
    scalar::one::<S>().minus(surely_true(l, u)).minus(surely_false(l, u))
}

/// The program of a selection.
#[verifier::opaque]
pub open spec fn where_rule<S: Scalar>(p: IBPV<S>, x: IBPV<S>, y: IBPV<S>) -> Result<
    RuleV<S>,
    Fault,
> {
    if x.lb.shape != y.lb.shape {
        Err(Fault::Broadcast)
    } else {
        Ok(
            RuleV {
                steps: seq![
                    StepV::Un(UnOpV::Relu, Reg::In(0)),
                    StepV::Un(UnOpV::Neg, Reg::Out(0)),
                    StepV::Bin(BinOpV::Add, Reg::In(0), Reg::Out(1)),
                    StepV::Load(interval::zipped(p.lb, p.ub, |l: S, u: S| surely_true(l, u))),
                    StepV::Bin(BinOpV::Mul, Reg::In(0), Reg::Out(3)),
                    StepV::Load(interval::zipped(p.lb, p.ub, |l: S, u: S| surely_false(l, u))),
                    StepV::Bin(BinOpV::Mul, Reg::In(0), Reg::Out(5)),
                    StepV::Load(interval::zipped(p.lb, p.ub, |l: S, u: S| undecided(l, u))),
                    StepV::Bin(BinOpV::Mul, Reg::Out(0), Reg::Out(7)),
                    StepV::Load(interval::zipped(x.lb, y.lb, |a: S, b: S| a.smaller(b))),
                    StepV::Bin(BinOpV::Mul, Reg::Out(8), Reg::Out(9)),
                    StepV::SumAll(Reg::Out(10)),
                    StepV::Bin(BinOpV::Mul, Reg::Out(2), Reg::Out(7)),
                    StepV::Load(interval::zipped(x.ub, y.ub, |a: S, b: S| a.larger(b))),
                    StepV::Bin(BinOpV::Mul, Reg::Out(12), Reg::Out(13)),
                    StepV::SumAll(Reg::Out(14)),
                    StepV::Bin(BinOpV::Add, Reg::Out(11), Reg::Out(15)),
                    vjp::load_zeros(p.lb.shape),
                    vjp::load_number(scalar::zero()),
                ],
                outs: seq![
                    Reg::Out(17),
                    Reg::Out(18),
                    Reg::Out(4),
                    Reg::Out(16),
                    Reg::Out(6),
                    Reg::Out(18),
                ],
            },
        )
    }
}

/// The program of a selection.
pub fn crown_where<S: Scalar>(cond: &IBPTensor<S>, x: &IBPTensor<S>, y: &IBPTensor<S>) -> (r:
    Result<Rule<S>, EvalError>)
    ensures
        vjp::rule_is(r, where_rule(cond@, x@, y@)),
        r matches Ok(rule) ==> rule.outs@.len() == 6,
{
    proof {
        reveal(where_rule);
    }
    if !interval::same_shape(x.lb().shape(), y.lb().shape()) {
        return Err(EvalError::Broadcast);
    }
    let zero = scalar::number::<S>(0);
    let one = scalar::number::<S>(1);
    let f_true = |l: S, u: S| -> (z: S)
        ensures
            z == surely_true(l, u),
        {
            if zero.is_lt(l) || u.is_lt(zero) {
                one
            } else {
                zero
            }
        };
    let f_false = |l: S, u: S| -> (z: S)
        ensures
            z == surely_false(l, u),
        {
            if l.is_eq(zero) && u.is_eq(zero) {
                one
            } else {
                zero
            }
        };
    let f_neither = |t: S, f: S| -> (z: S)
        ensures
            z == scalar::one::<S>().minus(t).minus(f),
        { one.sub(t).sub(f) };
    let f_min = |a: S, b: S| -> (z: S)
        ensures
            z == a.smaller(b),
        { a.min_of(b) };
    let f_max = |a: S, b: S| -> (z: S)
        ensures
            z == a.larger(b),
        { a.max_of(b) };
    let mask_true = interval::zip_with(cond.lb(), cond.ub(), f_true);
    let mask_false = interval::zip_with(cond.lb(), cond.ub(), f_false);
    let mask_amb = interval::zip_with(&mask_true, &mask_false, f_neither);
    let e_lo = interval::zip_with(x.lb(), y.lb(), f_min);
    let e_hi = interval::zip_with(x.ub(), y.ub(), f_max);
    proof {
        let (a, b) = (cond@.lb, cond@.ub);
        assert(mask_true@ =~= interval::zipped(a, b, |l: S, u: S| surely_true(l, u)));
        assert(mask_false@ =~= interval::zipped(a, b, |l: S, u: S| surely_false(l, u)));
        assert(mask_amb@ =~= interval::zipped(a, b, |l: S, u: S| undecided(l, u)));
        assert(e_lo@ =~= interval::zipped(x@.lb, y@.lb, |a: S, b: S| a.smaller(b)));
        assert(e_hi@ =~= interval::zipped(x@.ub, y@.ub, |a: S, b: S| a.larger(b)));
    }
    let zeros = Tensor::from_elem(tensor::copy_of(cond.lb().shape()), zero)?;
    let steps: Vec<Step<S>> = vec![
        Step::Un(UnOp::Relu, Reg::In(0)),
        Step::Un(UnOp::Neg, Reg::Out(0)),
        Step::Bin(BinOp::Add, Reg::In(0), Reg::Out(1)),
        Step::Load(mask_true),
        Step::Bin(BinOp::Mul, Reg::In(0), Reg::Out(3)),
        Step::Load(mask_false),
        Step::Bin(BinOp::Mul, Reg::In(0), Reg::Out(5)),
        Step::Load(mask_amb),
        Step::Bin(BinOp::Mul, Reg::Out(0), Reg::Out(7)),
        Step::Load(e_lo),
        Step::Bin(BinOp::Mul, Reg::Out(8), Reg::Out(9)),
        Step::SumAll(Reg::Out(10)),
        Step::Bin(BinOp::Mul, Reg::Out(2), Reg::Out(7)),
        Step::Load(e_hi),
        Step::Bin(BinOp::Mul, Reg::Out(12), Reg::Out(13)),
        Step::SumAll(Reg::Out(14)),
        Step::Bin(BinOp::Add, Reg::Out(11), Reg::Out(15)),
        Step::Load(zeros),
        Step::Load(Tensor::from_scalar(zero)),
    ];
    let outs: Vec<Reg> = vec![
        Reg::Out(17),
        Reg::Out(18),
        Reg::Out(4),
        Reg::Out(16),
        Reg::Out(6),
        Reg::Out(18),
    ];
    proof {
        let want = where_rule(cond@, x@, y@)->Ok_0;
        assert(value::program(steps@) =~= want.steps);
        assert(outs@ =~= want.outs);
    }
    Ok(Rule { steps, outs })
}

/// The steps that split the first input into its positive and its negative part.
pub open spec fn split_steps<S>() -> Seq<StepV<S>> {
    seq![
        StepV::Un(UnOpV::Relu, Reg::In(0)),
        StepV::Un(UnOpV::Neg, Reg::Out(0)),
        StepV::Bin(BinOpV::Add, Reg::In(0), Reg::Out(1)),
    ]
}

/// The product of the negative of a tensor with another.
pub open spec fn minus_product<S: Scalar>(a: TensorV<S>, b: TensorV<S>) -> Result<
    TensorV<S>,
    Fault,
> {
    match model::un_tensor(UnOpV::Neg, a) {
        Ok(n) => model::bin_tensor(BinOpV::Mul, n, b),
        Err(f) => Err(f),
    }
}

/// The program of a product: a plane below the products of the elements of two intervals.
#[verifier::opaque]
pub open spec fn mul_rule<S: Scalar>(x: IBPV<S>, y: IBPV<S>) -> Result<RuleV<S>, Fault> {
    match (minus_product(x.lb, y.lb), minus_product(x.lb, y.ub)) {
        (Ok(low), Ok(high)) => Ok(
            RuleV {
                steps: split_steps::<S>() + seq![
                    StepV::Load(y.lb),
                    StepV::Bin(BinOpV::Mul, Reg::Out(0), Reg::Out(3)),
                    StepV::Load(y.ub),
                    StepV::Bin(BinOpV::Mul, Reg::Out(2), Reg::Out(5)),
                    StepV::Bin(BinOpV::Add, Reg::Out(4), Reg::Out(6)),
                    StepV::Load(x.lb),
                    StepV::Bin(BinOpV::Mul, Reg::In(0), Reg::Out(8)),
                    StepV::Load(low),
                    StepV::Bin(BinOpV::Mul, Reg::Out(0), Reg::Out(10)),
                    StepV::SumAll(Reg::Out(11)),
                    StepV::Load(high),
                    StepV::Bin(BinOpV::Mul, Reg::Out(2), Reg::Out(13)),
                    StepV::SumAll(Reg::Out(14)),
                    StepV::Bin(BinOpV::Add, Reg::Out(12), Reg::Out(15)),
                    vjp::load_number(scalar::zero()),
                ],
                outs: seq![Reg::Out(7), Reg::Out(16), Reg::Out(9), Reg::Out(17)],
            },
        ),
        (Err(f), _) => Err(f),
        (_, Err(f)) => Err(f),
    }
}

/// The steps that split the first input.
fn split_list<S: Scalar>() -> (r: Vec<Step<S>>)
    ensures
        value::program(r@) == split_steps::<S>(),
        r@.len() == 3,
{
    let steps: Vec<Step<S>> = vec![
        Step::Un(UnOp::Relu, Reg::In(0)),
        Step::Un(UnOp::Neg, Reg::Out(0)),
        Step::Bin(BinOp::Add, Reg::In(0), Reg::Out(1)),
    ];
    assert(value::program(steps@) =~= split_steps::<S>());
    steps
}

/// Appends steps to a program.
fn append_steps<S: Scalar>(steps: &mut Vec<Step<S>>, more: Vec<Step<S>>)
    ensures
        value::program(final(steps)@) == value::program(old(steps)@) + value::program(more@),
        final(steps)@.len() == old(steps)@.len() + more@.len(),
{
    let mut rest = more;
    let ghost (a, b) = (steps@, more@);
    steps.append(&mut rest);
    assert(value::program(steps@) =~= value::program(a) + value::program(b));
}

/// The program of a product.
pub fn crown_mul<S: Scalar>(x: &IBPTensor<S>, y: &IBPTensor<S>) -> (r: Result<Rule<S>, EvalError>)
    ensures
        vjp::rule_is(r, mul_rule(x@, y@)),
        r matches Ok(rule) ==> rule.outs@.len() == 4,
{
    proof {
        reveal(mul_rule);
    }
    let minus = x.lb().unary(&UnOp::Neg)?;
    let low = minus.pairwise(&BinOp::Mul, y.lb())?;
    let high = minus.pairwise(&BinOp::Mul, y.ub())?;
    let mut steps = split_list::<S>();
    let more: Vec<Step<S>> = vec![
        Step::Load(y.lb().dup()),
        Step::Bin(BinOp::Mul, Reg::Out(0), Reg::Out(3)),
        Step::Load(y.ub().dup()),
        Step::Bin(BinOp::Mul, Reg::Out(2), Reg::Out(5)),
        Step::Bin(BinOp::Add, Reg::Out(4), Reg::Out(6)),
        Step::Load(x.lb().dup()),
        Step::Bin(BinOp::Mul, Reg::In(0), Reg::Out(8)),
        Step::Load(low),
        Step::Bin(BinOp::Mul, Reg::Out(0), Reg::Out(10)),
        Step::SumAll(Reg::Out(11)),
        Step::Load(high),
        Step::Bin(BinOp::Mul, Reg::Out(2), Reg::Out(13)),
        Step::SumAll(Reg::Out(14)),
        Step::Bin(BinOp::Add, Reg::Out(12), Reg::Out(15)),
        Step::Load(Tensor::from_scalar(scalar::number::<S>(0))),
    ];
    let ghost tail = value::program(more@);
    append_steps(&mut steps, more);
    let outs: Vec<Reg> = vec![Reg::Out(7), Reg::Out(16), Reg::Out(9), Reg::Out(17)];
    proof {
        let want = mul_rule(x@, y@)->Ok_0;
        assert(want.steps =~= split_steps::<S>() + tail);
        assert(outs@ =~= want.outs);
    }
    Ok(Rule { steps, outs })
}

// ---- contraction ----
/// The constants that the program of a contraction loads: two that multiply the weight of the
/// result towards the left operand, one towards the right operand, and the products of the lower
/// end of the left operand with both ends of the right one.
pub struct DotV<S> {
    pub low: TensorV<S>,
    pub high: TensorV<S>,
    pub left: TensorV<S>,
    pub low_c: TensorV<S>,
    pub high_c: TensorV<S>,
}

/// How a contraction pairs its operands.
#[derive(Debug, Clone, Copy, PartialEq, Eq)]
pub enum DotForm {
    VectorMatrix,
    MatrixVector,
    Matrices,
}

/// How a contraction of operands of ranks `a` and `b` pairs them.
pub open spec fn dot_form(a: nat, b: nat) -> DotForm {
    if a == 1 && b == 2 {
        DotForm::VectorMatrix
    } else if b == 1 {
        DotForm::MatrixVector
    } else {
        DotForm::Matrices
    }
}

/// The result of an operation on one tensor, then on that and another.
pub open spec fn then_dot<S: Scalar>(op: UnOpV<S>, a: TensorV<S>, b: TensorV<S>) -> Result<
    TensorV<S>,
    Fault,
> {
    match model::un_tensor(op, a) {
        Ok(n) => model::bin_tensor(BinOpV::Dot, n, b),
        Err(f) => Err(f),
    }
}

/// The constants that the program of a contraction loads.
pub open spec fn dot_constants<S: Scalar>(form: DotForm, x: IBPV<S>, y: IBPV<S>) -> Result<
    DotV<S>,
    Fault,
> {
    let turn = UnOpV::<S>::MoveAxis(0, 1);
    let (low, high, left, low_c, high_c) = match form {
        DotForm::VectorMatrix => (
            Ok(y.lb),
            Ok(y.ub),
            model::un_tensor(UnOpV::ExpandDims(seq![1isize]), x.lb),
            then_dot(turn, y.lb, x.lb),
            then_dot(turn, y.ub, x.lb),
        ),
        DotForm::MatrixVector => (
            model::un_tensor(UnOpV::ExpandDims(seq![0isize]), y.lb),
            model::un_tensor(UnOpV::ExpandDims(seq![0isize]), y.ub),
            model::un_tensor(turn, x.lb),
            model::bin_tensor(BinOpV::Dot, x.lb, y.lb),
            model::bin_tensor(BinOpV::Dot, x.lb, y.ub),
        ),
        DotForm::Matrices => (
            model::un_tensor(turn, y.lb),
            model::un_tensor(turn, y.ub),
            model::un_tensor(turn, x.lb),
            model::bin_tensor(BinOpV::Dot, x.lb, y.lb),
            model::bin_tensor(BinOpV::Dot, x.lb, y.ub),
        ),
    };
    match (low, high, left, low_c, high_c) {
        (Ok(a), Ok(b), Ok(c), Ok(d), Ok(e)) => Ok(
            DotV { low: a, high: b, left: c, low_c: d, high_c: e },
        ),
        (Err(f), _, _, _, _) => Err(f),
        (_, Err(f), _, _, _) => Err(f),
        (_, _, Err(f), _, _) => Err(f),
        (_, _, _, Err(f), _) => Err(f),
        (_, _, _, _, Err(f)) => Err(f),
    }
}

/// The steps for the weights of both operands; the last two of them hold these.
pub open spec fn dot_weights<S>(form: DotForm, k: DotV<S>) -> Seq<StepV<S>> {
    match form {
        DotForm::VectorMatrix => seq![
            StepV::Load(k.low),
            StepV::Bin(BinOpV::Dot, Reg::Out(3), Reg::Out(0)),
            StepV::Load(k.high),
            StepV::Bin(BinOpV::Dot, Reg::Out(5), Reg::Out(2)),
            StepV::Load(k.left),
            StepV::Un(UnOpV::ExpandDims(seq![0isize]), Reg::In(0)),
            StepV::Bin(BinOpV::Add, Reg::Out(4), Reg::Out(6)),
            StepV::Bin(BinOpV::Mul, Reg::Out(7), Reg::Out(8)),
        ],
        DotForm::MatrixVector => seq![
            StepV::Un(UnOpV::ExpandDims(seq![(-1) as isize]), Reg::Out(0)),
            StepV::Load(k.low),
            StepV::Bin(BinOpV::Mul, Reg::Out(3), Reg::Out(4)),
            StepV::Un(UnOpV::ExpandDims(seq![(-1) as isize]), Reg::Out(2)),
            StepV::Load(k.high),
            StepV::Bin(BinOpV::Mul, Reg::Out(6), Reg::Out(7)),
            StepV::Load(k.left),
            StepV::Bin(BinOpV::Add, Reg::Out(5), Reg::Out(8)),
            StepV::Bin(BinOpV::Dot, Reg::Out(9), Reg::In(0)),
        ],
        DotForm::Matrices => seq![
            StepV::Load(k.low),
            StepV::Bin(BinOpV::Dot, Reg::Out(0), Reg::Out(3)),
            StepV::Load(k.high),
            StepV::Bin(BinOpV::Dot, Reg::Out(2), Reg::Out(5)),
            StepV::Load(k.left),
            StepV::Bin(BinOpV::Add, Reg::Out(4), Reg::Out(6)),
            StepV::Bin(BinOpV::Dot, Reg::Out(7), Reg::In(0)),
        ],
    }
}

/// The steps for the bias of a contraction, behind `n` others.
pub open spec fn dot_bias<S: Scalar>(k: DotV<S>, n: int) -> Seq<StepV<S>> {
    seq![
        StepV::Load(k.low_c),
        StepV::Load(k.high_c),
        StepV::Un(UnOpV::Neg, Reg::Out(n as usize)),
        StepV::Bin(BinOpV::Mul, Reg::Out(0), Reg::Out((n + 2) as usize)),
        StepV::SumAll(Reg::Out((n + 3) as usize)),
        StepV::Un(UnOpV::Neg, Reg::Out((n + 1) as usize)),
        StepV::Bin(BinOpV::Mul, Reg::Out(2), Reg::Out((n + 5) as usize)),
        StepV::SumAll(Reg::Out((n + 6) as usize)),
        StepV::Bin(BinOpV::Add, Reg::Out((n + 4) as usize), Reg::Out((n + 7) as usize)),
        vjp::load_number(scalar::zero()),
    ]
}

/// Whether a contraction is a product of elements as far as its bounds go: one operand has no
/// axes, or both have one.
pub open spec fn dot_is_product(a: nat, b: nat) -> bool {
    a == 0 || b == 0 || (a == 1 && b == 1)
}

/// The program of a contraction with the given constants.
#[verifier::opaque]
pub open spec fn dot_program<S: Scalar>(form: DotForm, k: DotV<S>) -> RuleV<S> {
    let head = split_steps::<S>() + dot_weights(form, k);
    let n = head.len() as int;
    RuleV {
        steps: head + dot_bias(k, n),
        outs: seq![
            Reg::Out((n - 2) as usize),
            Reg::Out((n + 8) as usize),
            Reg::Out((n - 1) as usize),
            Reg::Out((n + 9) as usize),
        ],
    }
}

/// The program of a contraction.
#[verifier::opaque]
pub open spec fn dot_rule<S: Scalar>(x: IBPV<S>, y: IBPV<S>) -> Result<RuleV<S>, Fault> {
    let (a, b) = (x.lb.shape.len(), y.lb.shape.len());
    if dot_is_product(a, b) {
        mul_rule(x, y)
    } else {
        match dot_constants(dot_form(a, b), x, y) {
            Err(f) => Err(f),
            Ok(k) => Ok(dot_program(dot_form(a, b), k)),
        }
    }
}

/// The constants that the program of a contraction loads.
struct DotConstants<S> {
    low: Tensor<S>,
    high: Tensor<S>,
    left: Tensor<S>,
    low_c: Tensor<S>,
    high_c: Tensor<S>,
}

/// The mathematical constants.
spec fn dot_view<S>(k: DotConstants<S>) -> DotV<S> {
    DotV { low: k.low@, high: k.high@, left: k.left@, low_c: k.low_c@, high_c: k.high_c@ }
}

/// The constants that the program of a contraction loads.
fn dot_tensors<S: Scalar>(form: DotForm, x: &IBPTensor<S>, y: &IBPTensor<S>) -> (r: Result<
    DotConstants<S>,
    EvalError,
>)
    ensures
        match (r, dot_constants(form, x@, y@)) {
            (Ok(k), Ok(m)) => dot_view(k) == m,
            (Err(e), Err(f)) => e@ == f,
            _ => false,
        },
{
    let turn: UnOp<S> = UnOp::MoveAxis(0, 1);
    let (xl, yl, yu) = (x.lb(), y.lb(), y.ub());
    match form {
        DotForm::VectorMatrix => {
            let left = xl.unary(&UnOp::ExpandDims(vjp::one_axis(1)))?;
            let low_c = yl.unary(&turn)?.pairwise(&BinOp::Dot, xl)?;
            let high_c = yu.unary(&turn)?.pairwise(&BinOp::Dot, xl)?;
            Ok(DotConstants { low: yl.dup(), high: yu.dup(), left, low_c, high_c })
        },
        DotForm::MatrixVector => {
            let low = yl.unary(&UnOp::ExpandDims(vjp::one_axis(0)))?;
            let high = yu.unary(&UnOp::ExpandDims(vjp::one_axis(0)))?;
            let left = xl.unary(&turn)?;
            let low_c = xl.pairwise(&BinOp::Dot, yl)?;
            let high_c = xl.pairwise(&BinOp::Dot, yu)?;
            Ok(DotConstants { low, high, left, low_c, high_c })
        },
        DotForm::Matrices => {
            let low = yl.unary(&turn)?;
            let high = yu.unary(&turn)?;
            let left = xl.unary(&turn)?;
            let low_c = xl.pairwise(&BinOp::Dot, yl)?;
            let high_c = xl.pairwise(&BinOp::Dot, yu)?;
            Ok(DotConstants { low, high, left, low_c, high_c })
        },
    }
}

/// The steps for the weights of both operands.
fn dot_weight_list<S: Scalar>(form: DotForm, low: Tensor<S>, high: Tensor<S>, left: Tensor<S>, Ghost(
    k,
): Ghost<DotV<S>>) -> (r: Vec<Step<S>>)
    requires
        k.low == low@,
        k.high == high@,
        k.left == left@,
    ensures
        value::program(r@) == dot_weights(form, k),
        7 <= r@.len() <= 9,
{
    let weights: Vec<Step<S>> = match form {
        DotForm::VectorMatrix => vec![
            Step::Load(low),
            Step::Bin(BinOp::Dot, Reg::Out(3), Reg::Out(0)),
            Step::Load(high),
            Step::Bin(BinOp::Dot, Reg::Out(5), Reg::Out(2)),
            Step::Load(left),
            Step::Un(UnOp::ExpandDims(vjp::one_axis(0)), Reg::In(0)),
            Step::Bin(BinOp::Add, Reg::Out(4), Reg::Out(6)),
            Step::Bin(BinOp::Mul, Reg::Out(7), Reg::Out(8)),
        ],
        DotForm::MatrixVector => vec![
            Step::Un(UnOp::ExpandDims(vjp::one_axis(-1)), Reg::Out(0)),
            Step::Load(low),
            Step::Bin(BinOp::Mul, Reg::Out(3), Reg::Out(4)),
            Step::Un(UnOp::ExpandDims(vjp::one_axis(-1)), Reg::Out(2)),
            Step::Load(high),
            Step::Bin(BinOp::Mul, Reg::Out(6), Reg::Out(7)),
            Step::Load(left),
            Step::Bin(BinOp::Add, Reg::Out(5), Reg::Out(8)),
            Step::Bin(BinOp::Dot, Reg::Out(9), Reg::In(0)),
        ],
        DotForm::Matrices => vec![
            Step::Load(low),
            Step::Bin(BinOp::Dot, Reg::Out(0), Reg::Out(3)),
            Step::Load(high),
            Step::Bin(BinOp::Dot, Reg::Out(2), Reg::Out(5)),
            Step::Load(left),
            Step::Bin(BinOp::Add, Reg::Out(4), Reg::Out(6)),
            Step::Bin(BinOp::Dot, Reg::Out(7), Reg::In(0)),
        ],
    };
    assert(value::program(weights@) =~= dot_weights(form, k));
    weights
}

/// The steps for the bias of a contraction, behind `n` others.
fn dot_bias_list<S: Scalar>(n: usize, low_c: Tensor<S>, high_c: Tensor<S>, Ghost(k): Ghost<
    DotV<S>,
>) -> (r: Vec<Step<S>>)
    requires
        n <= 100,
        k.low_c == low_c@,
        k.high_c == high_c@,
    ensures
        value::program(r@) == dot_bias(k, n as int),
{
    let bias: Vec<Step<S>> = vec![
        Step::Load(low_c),
        Step::Load(high_c),
        Step::Un(UnOp::Neg, Reg::Out(n)),
        Step::Bin(BinOp::Mul, Reg::Out(0), Reg::Out(n + 2)),
        Step::SumAll(Reg::Out(n + 3)),
        Step::Un(UnOp::Neg, Reg::Out(n + 1)),
        Step::Bin(BinOp::Mul, Reg::Out(2), Reg::Out(n + 5)),
        Step::SumAll(Reg::Out(n + 6)),
        Step::Bin(BinOp::Add, Reg::Out(n + 4), Reg::Out(n + 7)),
        Step::Load(Tensor::from_scalar(scalar::number::<S>(0))),
    ];
    assert(value::program(bias@) =~= dot_bias(k, n as int));
    bias
}

/// The program of a contraction with the given constants.
fn assemble_dot<S: Scalar>(form: DotForm, constants: DotConstants<S>) -> (r: Rule<S>)
    ensures
        r@ == dot_program(form, dot_view(constants)),
        r.outs@.len() == 4,
{
    proof {
        reveal(dot_program);
    }
    let ghost k = dot_view(constants);
    let DotConstants { low, high, left, low_c, high_c } = constants;
    let mut steps = split_list::<S>();
    let weights = dot_weight_list(form, low, high, left, Ghost(k));
    append_steps(&mut steps, weights);
    let n = steps.len();
    assert(value::program(steps@) == split_steps::<S>() + dot_weights(form, k));
    let bias = dot_bias_list(n, low_c, high_c, Ghost(k));
    append_steps(&mut steps, bias);
    let outs: Vec<Reg> = vec![Reg::Out(n - 2), Reg::Out(n + 8), Reg::Out(n - 1), Reg::Out(n + 9)];
    assert(outs@ =~= dot_program(form, k).outs);
    Rule { steps, outs }
}

/// The program of a contraction.
pub fn crown_dot<S: Scalar>(x: &IBPTensor<S>, y: &IBPTensor<S>) -> (r: Result<Rule<S>, EvalError>)
    ensures
        vjp::rule_is(r, dot_rule(x@, y@)),
        r matches Ok(rule) ==> rule.outs@.len() == 4,
{
    proof {
        reveal(dot_rule);
    }
    let (a, b) = (x.lb().ndim(), y.lb().ndim());
    // If either operand is 0-D, it is equivalent to multiply; if both are 1-D arrays, it is the
    // inner product of vectors.
    if a == 0 || b == 0 || (a == 1 && b == 1) {
        return crown_mul(x, y);
    }
    let form = if a == 1 && b == 2 {
        DotForm::VectorMatrix
    } else if b == 1 {
        DotForm::MatrixVector
    } else {
        DotForm::Matrices
    };
    let constants = dot_tensors(form, x, y)?;
    Ok(assemble_dot(form, constants))
}

// ---- padding ----
/// The program of a padding of an operand of shape `s`: slices lead back to the operand, and the
/// fill goes to the bias.
#[verifier::opaque]
pub open spec fn pad_rule<S: Scalar>(p: PadV<S>, s: Seq<usize>) -> Result<RuleV<S>, Fault> {
    if !shape::fits(s) || p.axes.len() > isize::MAX {
        Err(Fault::Size)
    } else {
        match vjp::unpad_ok(p, s) {
            Err(f) => Err(f),
            Ok(_) => {
                let n = p.axes.len();
                Ok(
                    RuleV {
                        steps: vjp::chain(vjp::unpad_ops(p, s), Reg::In(0), 0) + seq![
                            vjp::load_zeros(s),
                            StepV::Un(UnOpV::Pad(p), Reg::Out(n as usize)),
                            StepV::Bin(BinOpV::Mul, Reg::In(0), Reg::Out((n + 1) as usize)),
                            StepV::SumAll(Reg::Out((n + 2) as usize)),
                        ],
                        outs: seq![
                            vjp::chain_end(n, Reg::In(0), 0),
                            Reg::Out((n + 3) as usize),
                        ],
                    },
                )
            },
        }
    }
}

/// The program of a padding.
pub fn crown_pad<S: Scalar>(options: &PaddingOptions<S>, operand_shape: &[usize]) -> (r: Result<
    Rule<S>,
    EvalError,
>)
    ensures
        vjp::rule_is(r, pad_rule(options@, operand_shape@)),
        r matches Ok(rule) ==> rule.outs@.len() == 2,
{
    proof {
        reveal(pad_rule);
    }
    let zeros = Tensor::from_elem(tensor::copy_of(operand_shape), scalar::number::<S>(0))?;
    let n = options.axes.len();
    if n > isize::MAX as usize {
        return Err(EvalError::Size);
    }
    let ops = vjp::unpad_list(options, operand_shape)?;
    let mut steps: Vec<Step<S>> = Vec::new();
    assert(value::program(steps@) =~= Seq::<StepV<S>>::empty());
    let end = vjp::append_chain(&mut steps, ops, Reg::In(0));
    let ghost head = vjp::chain(vjp::unpad_ops(options@, operand_shape@), Reg::In(0), 0);
    assert(value::program(steps@) =~= head);
    let fill: Vec<Step<S>> = vec![
        Step::Load(zeros),
        Step::Un(UnOp::Pad(options.clone()), Reg::Out(n)),
        Step::Bin(BinOp::Mul, Reg::In(0), Reg::Out(n + 1)),
        Step::SumAll(Reg::Out(n + 2)),
    ];
    let ghost tail = value::program(fill@);
    append_steps(&mut steps, fill);
    let outs: Vec<Reg> = vec![end, Reg::Out(n + 3)];
    proof {
        let want = pad_rule(options@, operand_shape@)->Ok_0;
        assert(want.steps =~= head + tail);
        assert(outs@ =~= want.outs);
    }
    Ok(Rule { steps, outs })
}

} // verus!
