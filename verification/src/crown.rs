//! Backward bound propagation: an affine function of the input of a graph below its output.

use vstd::prelude::*;
use crate::affine;
use crate::affine::{AffineBounds, AffineV};
use crate::env;
use crate::env::Env;
use crate::error::EvalError;
use crate::interval;
use crate::interval::{IBPTensor, IBPV};
use crate::lines::Curve;
use crate::model;
use crate::model::{BinOpV, Fault, TensorV, UnOpV};
use crate::nn;
use crate::nn::{Atom, AtomKind, AtomV, ComputeGraph, EqnV, Equation, Form, GraphV, PrimV};
use crate::op::{BinOp, UnOp};
use crate::scalar;
use crate::scalar::Scalar;
use crate::shape;
use crate::tensor;
use crate::tensor::Tensor;
use crate::value;
use crate::value::{Reg, Step, StepV, Value};
use crate::vjp;
use crate::vjp::{Rule, RuleV};

verus! {

// ---- the parameters of a relaxation ----
/// The constraints that fix the phases of some neurons, with their multipliers.
pub struct Splitting<'a, S, T> {
    /// For each activation, the multipliers of its constraints
    pub betas: &'a Env<T>,
    /// For each activation, the signs of the fixed inputs, zero where nothing is fixed
    pub splits: &'a Env<Tensor<S>>,
    /// For each rectifier, the bias of the layer that feeds it
    pub biases: &'a Env<Tensor<S>>,
}

/// What the relaxation of the activations depends on.
pub struct Relaxation<'a, S, T> {
    /// For each activation, the slopes of the lines below
    pub alphas: &'a Env<T>,
    pub splitting: Option<Splitting<'a, S, T>>,
}

/// Mathematical constraints with their multipliers.
pub struct SplittingV<S, M> {
    pub betas: Map<Seq<char>, M>,
    pub splits: Map<Seq<char>, TensorV<S>>,
    pub biases: Map<Seq<char>, TensorV<S>>,
}

/// What the relaxation of the activations depends on, mathematically.
pub struct ParamsV<S, M> {
    pub alphas: Map<Seq<char>, M>,
    pub splitting: Option<SplittingV<S, M>>,
}

/// The mathematical tensors that names stand for.
pub open spec fn tensors<S: Scalar>(e: Env<Tensor<S>>) -> Map<Seq<char>, TensorV<S>> {
    env::scope::<S, Tensor<S>>(e@)
}

/// The mathematical parameters.
pub open spec fn params<S: Scalar, T: Value<S>>(p: Relaxation<'_, S, T>) -> ParamsV<S, T::M> {
    ParamsV {
        alphas: env::scope::<S, T>(p.alphas@),
        splitting: match p.splitting {
            Some(s) => Some(
                SplittingV {
                    betas: env::scope::<S, T>(s.betas@),
                    splits: tensors(*s.splits),
                    biases: tensors(*s.biases),
                },
            ),
            None => None,
        },
    }
}

/// The tensor that a name stands for, or zeros of the given shape.
pub open spec fn or_zeros<S: Scalar>(
    e: Map<Seq<char>, TensorV<S>>,
    name: Seq<char>,
    s: Seq<usize>,
) -> TensorV<S> {
    if e.dom().contains(name) {
        e[name]
    } else {
        model::filled(s, scalar::zero())
    }
}

/// The tensor that a name stands for, or zeros of the shape of `like`.
fn get_or_zeros<S: Scalar>(e: &Env<Tensor<S>>, name: &str, like: &Tensor<S>) -> (r: Tensor<S>)
    ensures
        r@ == or_zeros(tensors(*e), name@, like@.shape),
{
    match e.get(name) {
        Some(t) => t.dup(),
        None => {
            let s = tensor::copy_of(like.shape());
            match Tensor::from_elem(s, scalar::number::<S>(0)) {
                Ok(t) => t,
                Err(_) => {
                    assert(false);
                    like.dup()
                },
            }
        },
    }
}

// ---- the programs ----
/// A program with one result, which adds nothing to the bias.
pub open spec fn without_bias<S: Scalar>(rule: Result<RuleV<S>, Fault>) -> Result<RuleV<S>, Fault> {
    match rule {
        Ok(r) => Ok(
            RuleV {
                steps: r.steps.push(vjp::load_number(scalar::zero())),
                outs: seq![r.outs[0], Reg::Out(r.steps.len() as usize)],
            },
        ),
        Err(f) => Err(f),
    }
}

/// A program with one result, which adds nothing to the bias.
fn drop_bias<S: Scalar>(rule: Rule<S>) -> (r: Rule<S>)
    requires
        rule.outs@.len() > 0,
    ensures
        without_bias(Ok(rule@)) == Ok::<RuleV<S>, Fault>(r@),
{
    let Rule { mut steps, outs } = rule;
    let n = steps.len();
    let ghost before = value::program(steps@);
    steps.push(Step::Load(Tensor::from_scalar(scalar::number::<S>(0))));
    assert(value::program(steps@) =~= before.push(vjp::load_number(scalar::zero())));
    let places: Vec<Reg> = vec![outs[0], Reg::Out(n)];
    assert(places@ =~= seq![outs@[0], Reg::Out(n)]);
    Rule { steps, outs: places }
}

/// The function whose lines relax an elementwise operation.
pub open spec fn curve_of<S>(op: UnOpV<S>) -> Option<Curve<S>> {
    match op {
        UnOpV::Reciprocal => Some(Curve::Reciprocal),
        UnOpV::Square => Some(Curve::Square),
        UnOpV::Sqrt => Some(Curve::Sqrt),
        UnOpV::Exp => Some(Curve::Exp),
        UnOpV::NormalCdf => Some(Curve::NormalCdf),
        UnOpV::Elu(slope) => Some(Curve::Elu(slope)),
        UnOpV::Gelu => Some(Curve::Gelu),
        _ => None,
    }
}

/// The program of an activation function. The second input holds the slopes below; exponential
/// and Gaussian units use fixed lines.
pub open spec fn activation_rule<S: Scalar>(op: UnOpV<S>, x: IBPV<S>) -> Result<RuleV<S>, Fault> {
    match op {
        UnOpV::Relu => Ok(affine::relu_rule(scalar::zero(), x)),
        UnOpV::LeakyRelu(slope) => Ok(affine::relu_rule(slope, x)),
        UnOpV::Elu(slope) => affine::convex_rule(Curve::Elu(slope), x),
        UnOpV::Gelu => affine::convex_rule(Curve::Gelu, x),
        _ => Err(Fault::NotActivation),
    }
}

/// The program of an activation function.
pub(crate) fn crown_activation<S: Scalar>(op: &UnOp<S>, x: &IBPTensor<S>) -> (r: Result<
    Rule<S>,
    EvalError,
>)
    ensures
        vjp::rule_is(r, activation_rule(op@, x@)),
        r matches Ok(rule) ==> rule.outs@.len() == 2 && rule.steps@.len() < 1000,
{
    match op {
        UnOp::Relu => Ok(affine::crown_relu(scalar::number::<S>(0), x)),
        UnOp::LeakyRelu(slope) => Ok(affine::crown_relu(*slope, x)),
        UnOp::Elu(slope) => affine::bound_convex(&Curve::Elu(*slope), x),
        UnOp::Gelu => affine::bound_convex(&Curve::Gelu, x),
        _ => Err(EvalError::NotActivation),
    }
}

/// A program with the contribution of constraints taken off its weight: the third input, times
/// the signs `s`.
pub open spec fn constrained<S: Scalar>(rule: Result<RuleV<S>, Fault>, s: TensorV<S>) -> Result<
    RuleV<S>,
    Fault,
> {
    match rule {
        Ok(r) => {
            let n = r.steps.len() as int;
            Ok(
                RuleV {
                    steps: r.steps + seq![
                        StepV::Load(s),
                        StepV::Bin(BinOpV::Mul, Reg::In(2), Reg::Out(n as usize)),
                        StepV::Un(UnOpV::Neg, Reg::Out((n + 1) as usize)),
                        StepV::Bin(BinOpV::Add, r.outs[0], Reg::Out((n + 2) as usize)),
                    ],
                    outs: seq![Reg::Out((n + 3) as usize), r.outs[1]],
                },
            )
        },
        Err(f) => Err(f),
    }
}

/// A program with the contribution of constraints taken off its weight.
fn constrain<S: Scalar>(rule: Rule<S>, s: Tensor<S>) -> (r: Rule<S>)
    requires
        rule.outs@.len() == 2,
        rule.steps@.len() < 1000,
    ensures
        constrained(Ok(rule@), s@) == Ok::<RuleV<S>, Fault>(r@),
{
    let Rule { mut steps, outs } = rule;
    let n = steps.len();
    let ghost before = value::program(steps@);
    steps.push(Step::Load(s));
    steps.push(Step::Bin(BinOp::Mul, Reg::In(2), Reg::Out(n)));
    steps.push(Step::Un(UnOp::Neg, Reg::Out(n + 1)));
    steps.push(Step::Bin(BinOp::Add, outs[0], Reg::Out(n + 2)));
    let places: Vec<Reg> = vec![Reg::Out(n + 3), outs[1]];
    proof {
        let want = constrained(Ok(rule@), s@)->Ok_0;
        assert(value::program(steps@) =~= want.steps);
        assert(places@ =~= want.outs);
    }
    Rule { steps, outs: places }
}

/// What an interval environment gives for an operand.
pub open spec fn bounds_of<S: Scalar>(e: Map<Seq<char>, IBPV<S>>, a: AtomV<S>) -> Result<
    IBPV<S>,
    Fault,
> {
    env::resolved::<S, IBPTensor<S>>(e, a)
}

/// The program of an operation on one operand `a` with the result `out`, whose weight has shape
/// `t`; `e` holds the bounds of the variables.
pub open spec fn unary_rule<S: Scalar, M>(
    op: UnOpV<S>,
    a: AtomV<S>,
    out: AtomV<S>,
    t: Seq<usize>,
    e: Map<Seq<char>, IBPV<S>>,
    p: ParamsV<S, M>,
) -> Result<RuleV<S>, Fault> {
    match op {
        UnOpV::Neg => without_bias(
            Ok(RuleV { steps: seq![StepV::Un(UnOpV::Neg, Reg::In(0))], outs: seq![Reg::Out(0)] }),
        ),
        UnOpV::Log => Err(Fault::Unsupported),
        UnOpV::Reciprocal
        | UnOpV::Square
        | UnOpV::Sqrt
        | UnOpV::Exp
        | UnOpV::NormalCdf => match bounds_of(e, a) {
            Ok(x) => affine::convex_rule(curve_of(op)->Some_0, x),
            Err(f) => Err(f),
        },
        UnOpV::Relu | UnOpV::LeakyRelu(_) | UnOpV::Elu(_) | UnOpV::Gelu => match bounds_of(e, a) {
            Ok(x) => match p.splitting {
                Some(s) if s.splits.dom().contains(out.name) => constrained(
                    activation_rule(op, x),
                    s.splits[out.name],
                ),
                _ => activation_rule(op, x),
            },
            Err(f) => Err(f),
        },
        UnOpV::Reshape(_) => match bounds_of(e, a) {
            Ok(x) => without_bias(vjp::moving_rule(op, t, x.lb.shape)),
            Err(f) => Err(f),
        },
        UnOpV::Pad(options) => affine::pad_rule(options, a.shape),
        UnOpV::Pool(window, stride, average) => if a.shape.len() > isize::MAX {
            Err(Fault::Size)
        } else {
            without_bias(vjp::pool_rule(t, a.shape, window, stride, average))
        },
        UnOpV::ReduceSum(_)
        | UnOpV::ExpandDims(_)
        | UnOpV::MoveAxis(_, _)
        | UnOpV::Slice(_, _, _, _) => if a.shape.len() > isize::MAX {
            Err(Fault::Size)
        } else {
            without_bias(vjp::moving_rule(op, t, a.shape))
        },
    }
}

/// The program of an operation on two operands. A convolution needs a constant kernel.
pub open spec fn binary_rule<S: Scalar>(
    op: BinOpV,
    a: AtomV<S>,
    b: AtomV<S>,
    e: Map<Seq<char>, IBPV<S>>,
) -> Result<RuleV<S>, Fault> {
    match op {
        BinOpV::Add => Ok(
            RuleV {
                steps: seq![vjp::load_number(scalar::zero())],
                outs: seq![Reg::In(0), Reg::Out(0), Reg::In(0), Reg::Out(0)],
            },
        ),
        BinOpV::Mul | BinOpV::Dot => match bounds_of(e, a) {
            Err(f) => Err(f),
            Ok(x) => match bounds_of(e, b) {
                Err(f) => Err(f),
                Ok(y) => if op == BinOpV::Mul {
                    affine::mul_rule(x, y)
                } else {
                    affine::dot_rule(x, y)
                },
            },
        },
        BinOpV::Conv(stride) => match b.value {
            None => Err(Fault::Unsupported),
            Some(k) => if !shape::fits(a.shape) {
                Err(Fault::Size)
            } else {
                without_bias(vjp::conv_rule(a.shape, k.shape, stride))
            },
        },
        BinOpV::ConvKernelGrad(_, _) => Err(Fault::Unsupported),
    }
}

/// The program of an operation.
pub open spec fn crown_rule<S: Scalar, M>(
    prim: PrimV<S>,
    out: AtomV<S>,
    t: Seq<usize>,
    e: Map<Seq<char>, IBPV<S>>,
    p: ParamsV<S, M>,
) -> Result<RuleV<S>, Fault> {
    match prim {
        PrimV::Un(op, a) => unary_rule(op, a, out, t, e, p),
        PrimV::Bin(op, a, b) => binary_rule(op, a, b, e),
        PrimV::Select(c, a, b) => match bounds_of(e, c) {
            Err(f) => Err(f),
            Ok(q) => match bounds_of(e, a) {
                Err(f) => Err(f),
                Ok(x) => match bounds_of(e, b) {
                    Err(f) => Err(f),
                    Ok(y) => affine::where_rule(q, x, y),
                },
            },
        },
    }
}

/// The program of an operation on one operand.
fn unary_program<S: Scalar, T: Value<S>>(
    op: &UnOp<S>,
    a: &Atom<S>,
    out: &Atom<S>,
    t: &[usize],
    bounds: &Env<IBPTensor<S>>,
    p: &Relaxation<'_, S, T>,
) -> (r: Result<Rule<S>, EvalError>)
    ensures
        vjp::rule_is(
            r,
            unary_rule(
                op@,
                a@,
                out@,
                t@,
                env::scope::<S, IBPTensor<S>>(bounds@),
                params::<S, T>(*p),
            ),
        ),
        r matches Ok(rule) ==> rule.outs@.len() == 2,
{
    match op {
        UnOp::Neg => {
            let steps: Vec<Step<S>> = vec![Step::Un(UnOp::Neg, Reg::In(0))];
            let outs: Vec<Reg> = vec![Reg::Out(0)];
            assert(value::program(steps@) =~= seq![StepV::Un(UnOpV::<S>::Neg, Reg::In(0))]);
            assert(outs@ =~= seq![Reg::Out(0)]);
            Ok(drop_bias(Rule { steps, outs }))
        },
        UnOp::Log => Err(EvalError::Unsupported),
        UnOp::Reciprocal => affine::bound_convex(&Curve::Reciprocal, &bounds.resolve(a)?),
        UnOp::Square => affine::bound_convex(&Curve::Square, &bounds.resolve(a)?),
        UnOp::Sqrt => affine::bound_convex(&Curve::Sqrt, &bounds.resolve(a)?),
        UnOp::Exp => affine::bound_convex(&Curve::Exp, &bounds.resolve(a)?),
        UnOp::NormalCdf => affine::bound_convex(&Curve::NormalCdf, &bounds.resolve(a)?),
        UnOp::Relu | UnOp::LeakyRelu(_) | UnOp::Elu(_) | UnOp::Gelu => {
            let x = bounds.resolve(a)?;
            let rule = crown_activation(op, &x)?;
            match &p.splitting {
                Some(s) => {
                    // without constraints nothing is taken off the weight
                    match s.splits.get(out.name.as_str()) {
                        Some(signs) => {
                            assert(rule.steps@.len() == rule@.steps.len());
                            Ok(constrain(rule, signs.dup()))
                        },
                        None => Ok(rule),
                    }
                },
                None => Ok(rule),
            }
        },
        UnOp::Reshape(_) => {
            let x = bounds.resolve(a)?;
            let rule = vjp::moving_vjp(op, t, x.lb().shape())?;
            assert(rule.outs@ == rule@.outs);
            Ok(drop_bias(rule))
        },
        UnOp::Pad(options) => affine::crown_pad(options, &a.shape),
        UnOp::Pool(options, average) => {
            if a.shape.len() > isize::MAX as usize {
                return Err(EvalError::Size);
            }
            let rule = vjp::pool_vjp(t, &a.shape, options, *average)?;
            assert(rule.outs@ == rule@.outs);
            Ok(drop_bias(rule))
        },
        UnOp::ReduceSum(_) | UnOp::ExpandDims(_) | UnOp::MoveAxis(_, _) | UnOp::Slice(
            _,
            _,
            _,
            _,
        ) => {
            if a.shape.len() > isize::MAX as usize {
                return Err(EvalError::Size);
            }
            let rule = vjp::moving_vjp(op, t, &a.shape)?;
            assert(rule.outs@ == rule@.outs);
            Ok(drop_bias(rule))
        },
    }
}

/// The program of an operation on two operands.
fn binary_program<S: Scalar>(
    op: &BinOp,
    a: &Atom<S>,
    b: &Atom<S>,
    bounds: &Env<IBPTensor<S>>,
) -> (r: Result<Rule<S>, EvalError>)
    ensures
        vjp::rule_is(
            r,
            binary_rule(op@, a@, b@, env::scope::<S, IBPTensor<S>>(bounds@)),
        ),
        r matches Ok(rule) ==> rule.outs@.len() == 4 || rule.outs@.len() == 2,
{
    match op {
        BinOp::Add => {
            let steps: Vec<Step<S>> = vec![Step::Load(Tensor::from_scalar(scalar::number::<S>(0)))];
            let outs: Vec<Reg> = vec![Reg::In(0), Reg::Out(0), Reg::In(0), Reg::Out(0)];
            proof {
                assert(value::program(steps@) =~= seq![vjp::load_number(scalar::zero::<S>())]);
                assert(outs@ =~= seq![Reg::In(0), Reg::Out(0), Reg::In(0), Reg::Out(0)]);
            }
            Ok(Rule { steps, outs })
        },
        BinOp::Mul => affine::crown_mul(&bounds.resolve(a)?, &bounds.resolve(b)?),
        BinOp::Dot => affine::crown_dot(&bounds.resolve(a)?, &bounds.resolve(b)?),
        BinOp::Conv(stride) => match &b.kind {
            AtomKind::Var => Err(EvalError::Unsupported),
            AtomKind::Const(k) => {
                if !shape::check_fits(&a.shape) {
                    return Err(EvalError::Size);
                }
                let rule = vjp::conv_vjp(&a.shape, k.shape(), *stride)?;
                assert(rule.outs@ == rule@.outs);
                Ok(drop_bias(rule))
            },
        },
        BinOp::ConvKernelGrad(_, _) => Err(EvalError::Unsupported),
    }
}

/// The program of an operation.
fn crown_program<S: Scalar, T: Value<S>>(
    form: &Form<'_, S>,
    out: &Atom<S>,
    t: &[usize],
    bounds: &Env<IBPTensor<S>>,
    p: &Relaxation<'_, S, T>,
) -> (r: Result<Rule<S>, EvalError>)
    ensures
        vjp::rule_is(
            r,
            crown_rule(
                form@,
                out@,
                t@,
                env::scope::<S, IBPTensor<S>>(bounds@),
                params::<S, T>(*p),
            ),
        ),
        r matches Ok(rule) ==> rule.outs@.len() <= 2 * nn::operands_of(form@).len(),
{
    match form {
        Form::Un(op, a) => unary_program::<S, T>(op, a, out, t, bounds, p),
        Form::Bin(op, a, b) => binary_program(op, a, b, bounds),
        Form::Select(c, a, b) => affine::crown_where(
            &bounds.resolve(c)?,
            &bounds.resolve(a)?,
            &bounds.resolve(b)?,
        ),
    }
}

/// The inputs of the program of an operation: the weight of its result, then the parameters of an
/// activation, or the operands of a convolution.
pub open spec fn crown_inputs<S: Scalar, T: Value<S>>(
    prim: PrimV<S>,
    out: AtomV<S>,
    w: T::M,
    p: ParamsV<S, T::M>,
) -> Result<Seq<T::M>, Fault> {
    match prim {
        PrimV::Un(UnOpV::Relu, _)
        | PrimV::Un(UnOpV::LeakyRelu(_), _)
        | PrimV::Un(UnOpV::Elu(_), _)
        | PrimV::Un(UnOpV::Gelu, _) => match env::resolved::<S, T>(p.alphas, out) {
            Err(f) => Err(f),
            Ok(alpha) => match p.splitting {
                None => Ok(seq![w, alpha]),
                Some(s) => match env::resolved::<S, T>(s.betas, out) {
                    Err(f) => Err(f),
                    Ok(beta) => Ok(seq![w, alpha, beta]),
                },
            },
        },
        PrimV::Bin(BinOpV::Conv(_), a, b) => match b.value {
            Some(k) => Ok(
                seq![w, T::constant(model::filled(a.shape, scalar::zero())), T::constant(k)],
            ),
            None => Err(Fault::Unsupported),
        },
        _ => Ok(seq![w]),
    }
}

/// The inputs of the program of an operation.
fn program_inputs<S: Scalar, T: Value<S>>(
    form: &Form<'_, S>,
    out: &Atom<S>,
    w: &T,
    p: &Relaxation<'_, S, T>,
) -> (r: Result<Vec<T>, EvalError>)
    requires
        form@ matches PrimV::Bin(BinOpV::Conv(_), a, _) ==> shape::fits(a.shape),
    ensures
        value::results::<S, T>(r) == crown_inputs::<S, T>(form@, out@, w.m(), params::<S, T>(*p)),
{
    match form {
        Form::Un(op, _) => match op {
            UnOp::Relu | UnOp::LeakyRelu(_) | UnOp::Elu(_) | UnOp::Gelu => {
                let alpha: T = p.alphas.resolve(out)?;
                match &p.splitting {
                    None => {
                        let v: Vec<T> = vec![w.copy(), alpha];
                        assert(value::models::<S, T>(v@) =~= seq![w.m(), alpha.m()]);
                        Ok(v)
                    },
                    Some(s) => {
                        let beta: T = s.betas.resolve(out)?;
                        let v: Vec<T> = vec![w.copy(), alpha, beta];
                        assert(value::models::<S, T>(v@) =~= seq![w.m(), alpha.m(), beta.m()]);
                        Ok(v)
                    },
                }
            },
            _ => {
                let v: Vec<T> = vec![w.copy()];
                assert(value::models::<S, T>(v@) =~= seq![w.m()]);
                Ok(v)
            },
        },
        Form::Bin(BinOp::Conv(_), a, b) => match &b.kind {
            AtomKind::Const(k) => {
                let zeros = Tensor::from_elem(tensor::copy_of(&a.shape), scalar::number::<S>(0))?;
                let v: Vec<T> = vec![w.copy(), T::lift(zeros), T::lift(k.dup())];
                assert(value::models::<S, T>(v@) =~= seq![
                    w.m(),
                    T::constant(model::filled(a.shape@, scalar::zero())),
                    T::constant(k@),
                ]);
                Ok(v)
            },
            AtomKind::Var => Err(EvalError::Unsupported),
        },
        _ => {
            let v: Vec<T> = vec![w.copy()];
            assert(value::models::<S, T>(v@) =~= seq![w.m()]);
            Ok(v)
        },
    }
}

// ---- branching scores ----
/// How much fixing the phase of a neuron with bounds `l` and `u`, weight `pre` and bias `b` is
/// estimated to gain.
pub open spec fn gain<S: Scalar>(pre: S, l: S, u: S, b: S) -> S {
    if !(l.less(scalar::zero()) && scalar::zero::<S>().less(u)) {
        scalar::zero()
    } else {
        let span = u.minus(l);
        let slope = u.over(span);
        let term_a = slope.times(pre).times(b);
        let term_b = slope.minus(scalar::one()).times(pre).times(b);
        term_a.smaller(term_b).minus(
            u.times(l).over(span).times(pre.larger(scalar::zero())),
        ).magnitude()
    }
}

/// The estimated gains of all neurons of a layer.
pub open spec fn gains<S: Scalar>(pre: TensorV<S>, x: IBPV<S>, b: TensorV<S>) -> Result<
    TensorV<S>,
    Fault,
> {
    if pre.shape == x.lb.shape && b.shape == x.lb.shape {
        Ok(
            TensorV {
                shape: pre.shape,
                data: Seq::new(
                    pre.data.len(),
                    |k: int| gain(pre.data[k], x.lb.data[k], x.ub.data[k], b.data[k]),
                ),
            },
        )
    } else {
        Err(Fault::Broadcast)
    }
}

/// The estimated gains of all neurons of a layer.
pub fn bunel_score<S: Scalar>(out_w: &Tensor<S>, x: &IBPTensor<S>, bias: &Tensor<S>) -> (r: Result<
    Tensor<S>,
    EvalError,
>)
    ensures
        tensor::outcome(r) == gains(out_w@, x@, bias@),
{
    let s = out_w.shape();
    if !interval::same_shape(s, x.lb().shape()) || !interval::same_shape(
        bias.shape(),
        x.lb().shape(),
    ) {
        return Err(EvalError::Broadcast);
    }
    let (pre, lb, ub, b) = (out_w.values(), x.lb().values(), x.ub().values(), bias.values());
    let zero = scalar::number::<S>(0);
    let one = scalar::number::<S>(1);
    let mut data: Vec<S> = Vec::new();
    for i in 0..pre.len()
        invariant
            pre@ == out_w@.data,
            lb@ == x@.lb.data,
            ub@ == x@.ub.data,
            b@ == bias@.data,
            lb@.len() == pre@.len(),
            ub@.len() == pre@.len(),
            b@.len() == pre@.len(),
            zero == scalar::zero::<S>(),
            one == scalar::one::<S>(),
            data@.len() == i,
            forall|k: int|
                0 <= k < i ==> #[trigger] data@[k] == gain(pre@[k], lb@[k], ub@[k], b@[k]),
    {
        let (l, u) = (lb[i], ub[i]);
        let score = if !(l.is_lt(zero) && zero.is_lt(u)) {
            zero  // stable neuron: nothing to gain from splitting

        } else {
            let span = u.sub(l);
            let slope = u.div(span);
            let term_a = slope.mul(pre[i]).mul(b[i]);
            let term_b = slope.sub(one).mul(pre[i]).mul(b[i]);
            let m = term_a.min_of(term_b);
            m.sub(u.mul(l).div(span).mul(pre[i].max_of(zero))).abs()
        };
        data.push(score);
    }
    assert(data@ =~= gains(out_w@, x@, bias@)->Ok_0.data);
    Ok(Tensor::make(tensor::copy_of(s), data))
}

/// The scores after an operation: a rectifier under constraints whose weight is a tensor gets one.
pub open spec fn scored<S: Scalar, T: Value<S>>(
    prim: PrimV<S>,
    out: AtomV<S>,
    w: T::M,
    e: Map<Seq<char>, IBPV<S>>,
    p: ParamsV<S, T::M>,
    scores: Map<Seq<char>, TensorV<S>>,
) -> Result<Map<Seq<char>, TensorV<S>>, Fault> {
    match (prim, p.splitting, T::tensor_of(w)) {
        (PrimV::Un(UnOpV::Relu, a), Some(s), Some(pre)) => match bounds_of(e, a) {
            Err(f) => Err(f),
            Ok(x) => match gains(pre, x, or_zeros(s.biases, out.name, x.lb.shape)) {
                Err(f) => Err(f),
                Ok(g) => Ok(scores.insert(out.name, g)),
            },
        },
        _ => Ok(scores),
    }
}

/// The score of a rectifier under constraints whose weight is a tensor.
fn score<S: Scalar, T: Value<S>>(
    form: &Form<'_, S>,
    out: &Atom<S>,
    w: &T,
    bounds: &Env<IBPTensor<S>>,
    p: &Relaxation<'_, S, T>,
    scores: &mut Env<Tensor<S>>,
) -> (r: Result<(), EvalError>)
    ensures
        match (
            r,
            scored::<S, T>(
                form@,
                out@,
                w.m(),
                env::scope::<S, IBPTensor<S>>(bounds@),
                params::<S, T>(*p),
                tensors(*old(scores)),
            ),
        ) {
            (Ok(_), Ok(m)) => tensors(*final(scores)) == m,
            (Err(e), Err(f)) => e@ == f,
            _ => false,
        },
{
    match (form, &p.splitting, w.as_tensor()) {
        (Form::Un(UnOp::Relu, a), Some(s), Some(pre)) => {
            let x = bounds.resolve(a)?;
            let bias = get_or_zeros(s.biases, out.name.as_str(), x.lb());
            let g = bunel_score(pre, &x, &bias)?;
            proof {
                env::lemma_scope_insert::<S, Tensor<S>>(scores@, out.name@, g);
            }
            scores.insert(out.name.clone(), g);
            Ok(())
        },
        _ => Ok(()),
    }
}

// ---- the walk ----
/// How far the walk has come: the bias, the weights of the variables met, and the scores.
pub struct WalkV<S, M> {
    pub bias: M,
    pub weights: Map<Seq<char>, M>,
    pub scores: Map<Seq<char>, TensorV<S>>,
}

/// The program that adds the inner product of the first two inputs to the third.
pub open spec fn absorb_steps<S>() -> Seq<StepV<S>> {
    seq![
        StepV::Bin(BinOpV::Mul, Reg::In(0), Reg::In(1)),
        StepV::SumAll(Reg::Out(0)),
        StepV::Bin(BinOpV::Add, Reg::In(2), Reg::Out(1)),
    ]
}

/// The walk after operand `a` has got the weight `w` and added `b` to the bias. The weight of a
/// constant goes to the bias at once.
pub open spec fn absorbed<S: Scalar, T: Value<S>>(
    c: T::C,
    at: WalkV<S, T::M>,
    a: AtomV<S>,
    w: T::M,
    b: T::M,
) -> (T::C, Result<WalkV<S, T::M>, Fault>) {
    match vjp::unbroadcasted::<S, T>(c, w, a.shape) {
        (c1, Err(f)) => (c1, Err(f)),
        (c1, Ok(in_w)) => match T::binary(c1, BinOpV::Add, at.bias, b) {
            (c2, Err(f)) => (c2, Err(f)),
            (c2, Ok(bias)) => match a.value {
                Some(k) => {
                    let inputs = seq![T::constant(k), in_w, bias];
                    match vjp::picked::<S, T>(
                        value::run_steps::<S, T>(c2, absorb_steps(), inputs),
                        inputs,
                        Reg::Out(2),
                    ) {
                        (c3, Ok(more)) => (c3, Ok(WalkV { bias: more, ..at })),
                        (c3, Err(f)) => (c3, Err(f)),
                    }
                },
                None => if at.weights.dom().contains(a.name) {
                    match T::binary(c2, BinOpV::Add, at.weights[a.name], in_w) {
                        (c3, Ok(sum)) => (
                            c3,
                            Ok(WalkV { bias, weights: at.weights.insert(a.name, sum), ..at }),
                        ),
                        (c3, Err(f)) => (c3, Err(f)),
                    }
                } else {
                    (c2, Ok(WalkV { bias, weights: at.weights.insert(a.name, in_w), ..at }))
                },
            },
        },
    }
}

/// The walk after the first `k` operands have got their weights; `parts` holds a weight and a
/// bias for each.
pub open spec fn absorbed_all<S: Scalar, T: Value<S>>(
    c: T::C,
    at: WalkV<S, T::M>,
    atoms: Seq<AtomV<S>>,
    parts: Seq<T::M>,
    k: nat,
) -> (T::C, Result<WalkV<S, T::M>, Fault>)
    decreases k,
{
    if k == 0 {
        (c, Ok(at))
    } else {
        match absorbed_all::<S, T>(c, at, atoms, parts, (k - 1) as nat) {
            (c1, Ok(next)) => absorbed::<S, T>(
                c1,
                next,
                atoms[k - 1],
                parts[2 * (k - 1)],
                parts[2 * (k - 1) + 1],
            ),
            (c1, Err(f)) => (c1, Err(f)),
        }
    }
}

/// The walk after an equation. One whose result has no weight changes nothing.
pub open spec fn stepped<S: Scalar, T: Value<S>>(
    c: T::C,
    at: WalkV<S, T::M>,
    eqn: EqnV<S>,
    e: Map<Seq<char>, IBPV<S>>,
    p: ParamsV<S, T::M>,
) -> (T::C, Result<WalkV<S, T::M>, Fault>) {
    let (prim, out) = (eqn.prim, eqn.out);
    if !at.weights.dom().contains(out.name) {
        (c, Ok(at))
    } else {
        match env::resolved::<S, T>(at.weights, out) {
            Err(f) => (c, Err(f)),
            Ok(w) => match crown_rule(prim, out, T::shape_of(w), e, p) {
                Err(f) => (c, Err(f)),
                Ok(rule) => match crown_inputs::<S, T>(prim, out, w, p) {
                    Err(f) => (c, Err(f)),
                    Ok(inputs) => match vjp::applied::<S, T>(c, rule, inputs) {
                        (c1, Err(f)) => (c1, Err(f)),
                        (c1, Ok(parts)) => match scored::<S, T>(prim, out, w, e, p, at.scores) {
                            Err(f) => (c1, Err(f)),
                            Ok(scores) => absorbed_all::<S, T>(
                                c1,
                                WalkV { scores, ..at },
                                nn::operands_of(prim),
                                parts,
                                parts.len() / 2,
                            ),
                        },
                    },
                },
            },
        }
    }
}

/// The walk after equations `k - 1` down to the first.
pub open spec fn walked<S: Scalar, T: Value<S>>(
    c: T::C,
    at: WalkV<S, T::M>,
    eqns: Seq<EqnV<S>>,
    k: nat,
    e: Map<Seq<char>, IBPV<S>>,
    p: ParamsV<S, T::M>,
) -> (T::C, Result<WalkV<S, T::M>, Fault>)
    decreases k,
{
    if k == 0 {
        (c, Ok(at))
    } else {
        match stepped::<S, T>(c, at, eqns[k - 1], e, p) {
            (c1, Ok(next)) => walked::<S, T>(c1, next, eqns, (k - 1) as nat, e, p),
            (c1, Err(f)) => (c1, Err(f)),
        }
    }
}

/// The number of the first equation from `k` on whose result is called `name`.
pub open spec fn first_named<S>(eqns: Seq<EqnV<S>>, name: Seq<char>, k: nat) -> Option<nat>
    decreases eqns.len() - k,
{
    if k >= eqns.len() {
        None
    } else if eqns[k as int].out.name == name {
        Some(k)
    } else {
        first_named(eqns, name, k + 1)
    }
}

/// Where a walk starts.
#[derive(Debug, PartialEq, Eq)]
pub enum Start {
    /// At the result of the last equation
    Last,
    /// At the result of the first equation whose result has the given name
    Named(String),
    /// At the output of the graph
    Output,
}

/// Where a walk starts, mathematically.
pub enum StartV {
    Last,
    Named(Seq<char>),
    Output,
}

impl View for Start {
    type V = StartV;

    open spec fn view(&self) -> StartV {
        match self {
            Start::Last => StartV::Last,
            Start::Named(name) => StartV::Named(name@),
            Start::Output => StartV::Output,
        }
    }
}

/// The variable that a walk starts from, with the number of equations before it and its own.
pub open spec fn start_of<S>(g: GraphV<S>, start: StartV) -> Option<(AtomV<S>, nat)> {
    let n = g.equations.len();
    match start {
        StartV::Last => if n == 0 {
            None
        } else {
            Some((g.equations[n - 1].out, n))
        },
        StartV::Named(name) => match first_named(g.equations, name, 0) {
            Some(i) => Some((g.equations[i as int].out, i + 1)),
            None => None,
        },
        StartV::Output => Some((g.outvars[0], n)),
    }
}

/// The walk before the first equation: the result of interest has weight one.
pub open spec fn departed<S: Scalar, T: Value<S>>(out: AtomV<S>) -> WalkV<S, T::M> {
    WalkV {
        bias: T::constant(model::scalar_tensor(scalar::zero())),
        weights: Map::<Seq<char>, T::M>::empty().insert(
            out.name,
            T::constant(model::filled(out.shape, scalar::one())),
        ),
        scores: Map::empty(),
    }
}

/// The whole walk, from the variable `out` through the first `k` equations.
pub open spec fn travelled<S: Scalar, T: Value<S>>(
    c: T::C,
    eqns: Seq<EqnV<S>>,
    out: AtomV<S>,
    k: nat,
    e: Map<Seq<char>, IBPV<S>>,
    p: ParamsV<S, T::M>,
) -> (T::C, Result<WalkV<S, T::M>, Fault>) {
    if !shape::fits(out.shape) {
        (c, Err(Fault::Size))
    } else {
        walked::<S, T>(c, departed::<S, T>(out), eqns, k, e, p)
    }
}

/// The weight of a variable, zeros if it has none.
pub open spec fn weight_of<S: Scalar, T: Value<S>>(w: Map<Seq<char>, T::M>, a: AtomV<S>) -> Result<
    T::M,
    Fault,
> {
    if w.dom().contains(a.name) {
        Ok(w[a.name])
    } else if shape::fits(a.shape) {
        Ok(T::constant(model::filled(a.shape, scalar::zero())))
    } else {
        Err(Fault::Size)
    }
}

/// The affine function below the sum of the output of a graph with one input and one output, for
/// the variable bounds `e`, with the branching scores.
pub open spec fn lower_bound<S: Scalar, T: Value<S>>(
    c: T::C,
    g: GraphV<S>,
    e: Map<Seq<char>, IBPV<S>>,
    p: ParamsV<S, T::M>,
    start: StartV,
) -> (T::C, Result<(AffineV<T::M>, Map<Seq<char>, TensorV<S>>), Fault>) {
    if g.outvars.len() != 1 || g.invars.len() != 1 {
        (c, Err(Fault::Graph))
    } else {
        match start_of(g, start) {
            None => (c, Err(Fault::Graph)),
            Some((out, k)) => match travelled::<S, T>(c, g.equations, out, k, e, p) {
                (c1, Err(f)) => (c1, Err(f)),
                (c1, Ok(at)) => (
                    c1,
                    match weight_of::<S, T>(at.weights, g.invars[0]) {
                        Ok(w) => Ok((AffineV { weights: w, biases: at.bias }, at.scores)),
                        Err(f) => Err(f),
                    },
                ),
            },
        }
    }
}

/// How far the walk has come.
struct Walk<S, T> {
    bias: T,
    weights: Env<T>,
    scores: Env<Tensor<S>>,
}

/// The mathematical state of a walk.
spec fn walk<S: Scalar, T: Value<S>>(w: Walk<S, T>) -> WalkV<S, T::M> {
    WalkV {
        bias: w.bias.m(),
        weights: env::scope::<S, T>(w.weights@),
        scores: tensors(w.scores),
    }
}

/// The outcome of a part of the walk, mathematically.
spec fn walk_result<S: Scalar, T: Value<S>>(r: Result<Walk<S, T>, EvalError>) -> Result<
    WalkV<S, T::M>,
    Fault,
> {
    match r {
        Ok(w) => Ok(walk::<S, T>(w)),
        Err(e) => Err(e@),
    }
}

/// Gives operand `a` the weight `w`, and adds `b` to the bias.
fn absorb<S: Scalar, T: Value<S>>(at: Walk<S, T>, a: &Atom<S>, w: &T, b: &T, cx: &mut T::Cx) -> (r:
    Result<Walk<S, T>, EvalError>)
    ensures
        (T::c(final(cx)), walk_result::<S, T>(r)) == absorbed::<S, T>(
            T::c(old(cx)),
            walk::<S, T>(at),
            a@,
            w.m(),
            b.m(),
        ),
{
    let ghost start = walk::<S, T>(at);
    let Walk { bias: old_bias, mut weights, scores } = at;
    let in_w = vjp::unbroadcast::<S, T>(w, &a.shape, cx)?;
    let bias = old_bias.apply2(&BinOp::Add, b, cx)?;
    match &a.kind {
        AtomKind::Const(k) => {
            let steps: Vec<Step<S>> = vec![
                Step::Bin(BinOp::Mul, Reg::In(0), Reg::In(1)),
                Step::SumAll(Reg::Out(0)),
                Step::Bin(BinOp::Add, Reg::In(2), Reg::Out(1)),
            ];
            assert(value::program(steps@) =~= absorb_steps::<S>());
            let ghost ins = seq![T::constant(k@), in_w.m(), bias.m()];
            let inputs: Vec<T> = vec![T::lift(k.dup()), in_w, bias];
            assert(value::models::<S, T>(inputs@) =~= ins);
            let done = value::perform::<S, T>(&steps, &inputs, cx)?;
            let more = vjp::pick::<S, T>(&inputs, &done, Reg::Out(2))?;
            Ok(Walk { bias: more, weights, scores })
        },
        AtomKind::Var => {
            let new_weight = match weights.get(a.name.as_str()) {
                Some(existing) => existing.apply2(&BinOp::Add, &in_w, cx)?,
                None => in_w,
            };
            proof {
                env::lemma_scope_insert::<S, T>(weights@, a.name@, new_weight);
            }
            weights.insert(a.name.clone(), new_weight);
            Ok(Walk { bias, weights, scores })
        },
    }
}

/// A failure decides the outcome.
proof fn lemma_absorb_fails<S: Scalar, T: Value<S>>(
    c: T::C,
    at: WalkV<S, T::M>,
    atoms: Seq<AtomV<S>>,
    parts: Seq<T::M>,
    i: nat,
    k: nat,
)
    requires
        i <= k,
        absorbed_all::<S, T>(c, at, atoms, parts, i).1 is Err,
    ensures
        absorbed_all::<S, T>(c, at, atoms, parts, k) == absorbed_all::<S, T>(
            c,
            at,
            atoms,
            parts,
            i,
        ),
    decreases k,
{
    if i < k {
        lemma_absorb_fails::<S, T>(c, at, atoms, parts, i, (k - 1) as nat);
    }
}

/// A finished program has as many results as its rule names.
proof fn lemma_applied_len<S: Scalar, T: Value<S>>(c: T::C, rule: RuleV<S>, inputs: Seq<T::M>)
    ensures
        vjp::applied::<S, T>(c, rule, inputs).1 matches Ok(v) ==> v.len() == rule.outs.len(),
{
    match value::run_steps::<S, T>(c, rule.steps, inputs).1 {
        Ok(d) => lemma_picked_len(rule.outs, inputs, d, rule.outs.len()),
        Err(_) => {},
    }
}

/// As many values are picked as places are named.
proof fn lemma_picked_len<M>(outs: Seq<Reg>, inputs: Seq<M>, done: Seq<M>, k: nat)
    ensures
        vjp::picked_all(outs, inputs, done, k) matches Ok(v) ==> v.len() == k,
    decreases k,
{
    if k > 0 {
        lemma_picked_len(outs, inputs, done, (k - 1) as nat);
    }
}

/// Goes one equation back.
fn step_back<S: Scalar, T: Value<S>>(
    at: Walk<S, T>,
    eqn: &Equation<S>,
    bounds: &Env<IBPTensor<S>>,
    p: &Relaxation<'_, S, T>,
    cx: &mut T::Cx,
) -> (r: Result<Walk<S, T>, EvalError>)
    ensures
        (T::c(final(cx)), walk_result::<S, T>(r)) == stepped::<S, T>(
            T::c(old(cx)),
            walk::<S, T>(at),
            eqn@,
            env::scope::<S, IBPTensor<S>>(bounds@),
            params::<S, T>(*p),
        ),
{
    let ghost e = env::scope::<S, IBPTensor<S>>(bounds@);
    let ghost ps = params::<S, T>(*p);
    if at.weights.get(eqn.outvar.name.as_str()).is_none() {
        return Ok(at);
    }
    let out_w: T = at.weights.resolve(&eqn.outvar)?;
    let form = eqn.primitive.form();
    let rule = crown_program::<S, T>(&form, &eqn.outvar, out_w.dims(), bounds, p)?;
    let inputs = program_inputs::<S, T>(&form, &eqn.outvar, &out_w, p)?;
    let parts = vjp::apply_rule::<S, T>(&rule, &inputs, cx)?;
    let Walk { bias, weights, mut scores } = at;
    score::<S, T>(&form, &eqn.outvar, &out_w, bounds, p, &mut scores)?;
    let operands = eqn.primitive.operands();
    let ghost atoms = nn::operands_of(eqn.primitive@);
    let ghost pm = value::models::<S, T>(parts@);
    proof {
        lemma_applied_len::<S, T>(
            T::c(old(cx)),
            rule@,
            value::models::<S, T>(inputs@),
        );
    }
    let mut now = Walk { bias, weights, scores };
    let ghost c1 = T::c(cx);
    let ghost first = walk::<S, T>(now);
    let n = parts.len() / 2;
    for i in 0..n
        invariant
            n <= operands@.len(),
            nn::ref_views(operands@) == atoms,
            pm == value::models::<S, T>(parts@),
            2 * n <= parts@.len(),
            stepped::<S, T>(T::c(old(cx)), walk::<S, T>(at), eqn@, e, ps) == absorbed_all::<S, T>(
                c1,
                first,
                atoms,
                pm,
                n as nat,
            ),
            absorbed_all::<S, T>(c1, first, atoms, pm, i as nat) == (
                T::c(cx),
                Ok::<WalkV<S, T::M>, Fault>(walk::<S, T>(now)),
            ),
            e == env::scope::<S, IBPTensor<S>>(bounds@),
            ps == params::<S, T>(*p),
    {
        assert(atoms[i as int] == operands@[i as int]@);
        assert(pm[2 * i] == parts@[2 * i].m());
        assert(pm[2 * i + 1] == parts@[2 * i + 1].m());
        assert(2 * i + 1 < parts.len());
        match absorb::<S, T>(now, operands[i], &parts[2 * i], &parts[2 * i + 1], cx) {
            Ok(next) => {
                now = next;
            },
            Err(err) => {
                proof {
                    lemma_absorb_fails::<S, T>(
                        c1,
                        first,
                        atoms,
                        pm,
                        (i + 1) as nat,
                        n as nat,
                    );
                }
                return Err(err);
            },
        }
    }
    Ok(now)
}

/// The number of the first equation whose result is called `name`.
pub(crate) fn find_named<S: Scalar>(eqns: &Vec<Equation<S>>, name: &String) -> (r: Option<usize>)
    ensures
        match r {
            Some(i) => first_named(nn::eqn_views(eqns@), name@, 0) == Some(i as nat) && i
                < eqns@.len(),
            None => first_named(nn::eqn_views(eqns@), name@, 0) is None,
        },
{
    for i in 0..eqns.len()
        invariant
            first_named(nn::eqn_views(eqns@), name@, 0) == first_named(
                nn::eqn_views(eqns@),
                name@,
                i as nat,
            ),
    {
        assert(nn::eqn_views(eqns@)[i as int].out.name == eqns@[i as int].outvar.name@);
        if eqns[i].outvar.name == *name {
            return Some(i);
        }
    }
    None
}

/// The outcome of backward propagation, mathematically.
pub open spec fn bound_result<S: Scalar, T: Value<S>>(
    r: Result<(AffineBounds<T>, Env<Tensor<S>>), EvalError>,
) -> Result<(AffineV<T::M>, Map<Seq<char>, TensorV<S>>), Fault> {
    match r {
        Ok((a, scores)) => Ok((affine::affine::<S, T>(a), tensors(scores))),
        Err(e) => Err(e@),
    }
}

/// Walks from the variable `out` through the first `count` equations.
fn walk_back<S: Scalar, T: Value<S>>(
    graph: &ComputeGraph<S>,
    var_bounds: &Env<IBPTensor<S>>,
    relaxation: &Relaxation<'_, S, T>,
    out: &Atom<S>,
    count: usize,
    cx: &mut T::Cx,
) -> (r: Result<Walk<S, T>, EvalError>)
    requires
        count <= graph.equations@.len(),
    ensures
        (T::c(final(cx)), walk_result::<S, T>(r)) == travelled::<S, T>(
            T::c(old(cx)),
            graph@.equations,
            out@,
            count as nat,
            env::scope::<S, IBPTensor<S>>(var_bounds@),
            params::<S, T>(*relaxation),
        ),
{
    let ghost e = env::scope::<S, IBPTensor<S>>(var_bounds@);
    let ghost ps = params::<S, T>(*relaxation);
    let ghost eqns = graph@.equations;
    let ghost all = travelled::<S, T>(T::c(cx), eqns, out@, count as nat, e, ps);
    let ones = Tensor::from_elem(tensor::copy_of(&out.shape), scalar::number::<S>(1))?;
    let seed = T::lift(ones);
    let mut weights: Env<T> = Env::new();
    proof {
        env::lemma_scope_insert::<S, T>(weights@, out.name@, seed);
        assert(env::scope::<S, T>(weights@) =~= Map::<Seq<char>, T::M>::empty());
    }
    weights.insert(out.name.clone(), seed);
    let bias = T::lift(Tensor::from_scalar(scalar::number::<S>(0)));
    let mut at = Walk { bias, weights, scores: Env::new() };
    assert(tensors(at.scores) =~= Map::<Seq<char>, TensorV<S>>::empty());
    let ghost goal = walked::<S, T>(
        T::c(cx),
        departed::<S, T>(out@),
        eqns,
        count as nat,
        e,
        ps,
    );
    let mut k: usize = count;
    while k > 0
        invariant
            k <= graph.equations@.len(),
            eqns == nn::eqn_views(graph.equations@),
            e == env::scope::<S, IBPTensor<S>>(var_bounds@),
            ps == params::<S, T>(*relaxation),
            goal == walked::<S, T>(T::c(cx), walk::<S, T>(at), eqns, k as nat, e, ps),
            all == goal,
            all == travelled::<S, T>(T::c(old(cx)), eqns, out@, count as nat, e, ps),
        decreases k,
    {
        assert(eqns[k - 1] == graph.equations@[k - 1]@);
        match step_back::<S, T>(at, &graph.equations[k - 1], var_bounds, relaxation, cx) {
            Ok(next) => {
                at = next;
            },
            Err(err) => {
                return Err(err);
            },
        }
        k = k - 1;
    }
    Ok(at)
}

/// The affine function below the sum of the output of a graph with one input and one output, for
/// the given bounds of its variables, with the branching scores.
pub fn linear_lower_bound<S: Scalar, T: Value<S>>(
    graph: &ComputeGraph<S>,
    var_bounds: &Env<IBPTensor<S>>,
    relaxation: &Relaxation<'_, S, T>,
    start: &Start,
    cx: &mut T::Cx,
) -> (r: Result<(AffineBounds<T>, Env<Tensor<S>>), EvalError>)
    ensures
        (T::c(final(cx)), bound_result::<S, T>(r)) == lower_bound::<S, T>(
            T::c(old(cx)),
            graph@,
            env::scope::<S, IBPTensor<S>>(var_bounds@),
            params::<S, T>(*relaxation),
            start@,
        ),
{
    // checks
    if graph.outvars.len() != 1 || graph.invars.len() != 1 {
        return Err(EvalError::Graph);
    }
    // optionally start from other outvar
    assert(graph@.outvars[0] == graph.outvars@[0]@);
    let n = graph.equations.len();
    let (out, count) = match start {
        Start::Last => {
            if n == 0 {
                return Err(EvalError::Graph);
            }
            assert(graph@.equations[n - 1] == graph.equations@[n - 1]@);
            (&graph.equations[n - 1].outvar, n)
        },
        Start::Named(name) => match find_named(&graph.equations, name) {
            Some(i) => {
                assert(graph@.equations[i as int] == graph.equations@[i as int]@);
                (&graph.equations[i].outvar, i + 1)
            },
            None => {
                return Err(EvalError::Graph);
            },
        },
        Start::Output => (&graph.outvars[0], n),
    };
    let at = walk_back::<S, T>(graph, var_bounds, relaxation, out, count, cx)?;
    let Walk { bias, weights, scores } = at;
    let invar = &graph.invars[0];
    assert(graph@.invars[0] == invar@);
    let w = match weights.get(invar.name.as_str()) {
        Some(v) => v.copy(),
        None => T::lift(
            Tensor::from_elem(tensor::copy_of(&invar.shape), scalar::number::<S>(0))?,
        ),
    };
    Ok((AffineBounds { weights: w, biases: bias }, scores))
}

} // verus!
