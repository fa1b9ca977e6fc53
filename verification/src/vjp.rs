//! Vector-Jacobian products of the operations, as programs over any kind of values.

use vstd::prelude::*;
use crate::env;
use crate::error::EvalError;
use crate::manipulate;
use crate::model;
use crate::model::{BinOpV, Fault, PadV, UnOpV};
use crate::nn::{Atom, AtomV, Form, PrimV};
use crate::op;
use crate::op::{BinOp, PaddingOptionConfig, PaddingOptions, PoolOptions, UnOp};
use crate::scalar;
use crate::scalar::Scalar;
use crate::shape;
use crate::tensor;
use crate::tensor::Tensor;
use crate::value;
use crate::value::{Reg, Step, StepV, Value};

verus! {

/// A program with the places of its results. The inputs of a product program are the cotangent
/// of the result and the values of some operands.
pub struct Rule<S> {
    pub steps: Vec<Step<S>>,
    pub outs: Vec<Reg>,
}

/// A mathematical program with the places of its results.
#[verifier::ext_equal]
pub struct RuleV<S> {
    pub steps: Seq<StepV<S>>,
    pub outs: Seq<Reg>,
}

impl<S> View for Rule<S> {
    type V = RuleV<S>;

    open spec fn view(&self) -> RuleV<S> {
        RuleV { steps: value::program(self.steps@), outs: self.outs@ }
    }
}

/// The program of one operation after the other, from the value in `start` on, behind `n0` other
/// steps.
pub open spec fn chain<S>(ops: Seq<UnOpV<S>>, start: Reg, n0: nat) -> Seq<StepV<S>> {
    Seq::new(
        ops.len(),
        |i: int|
            StepV::Un(
                ops[i],
                if i == 0 {
                    start
                } else {
                    Reg::Out((n0 + i - 1) as usize)
                },
            ),
    )
}

/// Where the result of such a program stands.
pub open spec fn chain_end(n: nat, start: Reg, n0: nat) -> Reg {
    if n == 0 {
        start
    } else {
        Reg::Out((n0 + n - 1) as usize)
    }
}

/// The views of a list of operations.
pub open spec fn op_views<S>(v: Seq<UnOp<S>>) -> Seq<UnOpV<S>> {
    Seq::new(v.len(), |i: int| v[i]@)
}

/// Appends the program of one operation after the other.
pub fn append_chain<S: Scalar>(steps: &mut Vec<Step<S>>, ops: Vec<UnOp<S>>, start: Reg) -> (r: Reg)
    ensures
        value::program(final(steps)@) == value::program(old(steps)@) + chain(
            op_views(ops@),
            start,
            old(steps)@.len(),
        ),
        r == chain_end(ops@.len(), start, old(steps)@.len()),
{
    let ghost base = value::program(steps@);
    let ghost n0 = steps@.len();
    let ghost all = chain(op_views(ops@), start, n0);
    let mut place: Reg = start;
    let mut i: usize = 0;
    while i < ops.len()
        invariant
            i <= ops@.len(),
            n0 == old(steps)@.len(),
            base == value::program(old(steps)@),
            all == chain(op_views(ops@), start, n0),
            steps@.len() == n0 + i,
            value::program(steps@) == base + all.subrange(0, i as int),
            place == chain_end(i as nat, start, n0),
        decreases ops@.len() - i,
    {
        let n = steps.len();
        let ghost before = value::program(steps@);
        steps.push(Step::Un(ops[i].clone(), place));
        proof {
            assert(op_views(ops@)[i as int] == ops@[i as int]@);
            assert(all[i as int] == StepV::Un(ops@[i as int]@, place));
            assert(value::program(steps@) =~= before.push(all[i as int]));
            assert(before.push(all[i as int]) =~= base + all.subrange(0, i + 1));
        }
        place = Reg::Out(n);
        i = i + 1;
    }
    assert(all.subrange(0, all.len() as int) =~= all);
    place
}

/// The operations that sum a value of shape `from` over the axes `i` below `k` that were
/// expanded from length one in `to`, behind `d` leading axes.
pub open spec fn squeeze<S>(from: Seq<usize>, to: Seq<usize>, d: int, k: nat) -> Seq<UnOpV<S>>
    decreases k,
{
    if k == 0 {
        Seq::empty()
    } else {
        let s = squeeze(from, to, d, (k - 1) as nat);
        if to[k - 1] == 1 && from[d + (k - 1)] > 1 {
            s.push(UnOpV::ReduceSum(seq![(k - 1) as isize])).push(
                UnOpV::ExpandDims(seq![(k - 1) as isize]),
            )
        } else {
            s
        }
    }
}

/// The operations that undo a broadcast to shape `from` of a value of shape `to`, by summation.
pub open spec fn unbroadcast_ops<S>(from: Seq<usize>, to: Seq<usize>) -> Result<
    Seq<UnOpV<S>>,
    Fault,
> {
    if from.len() >= to.len() {
        let d = from.len() - to.len();
        Ok(
            Seq::new(d as nat, |i: int| UnOpV::<S>::ReduceSum(seq![0isize])) + squeeze(
                from,
                to,
                d,
                to.len(),
            ),
        )
    } else if exists|i: int| from.len() <= i < to.len() && #[trigger] to[i] == 1 {
        Err(Fault::Axis)
    } else {
        Ok(squeeze(from, to, 0, from.len()))
    }
}

/// The operations that undo a broadcast.
pub fn unbroadcast_list<S: Scalar>(from: &[usize], to: &[usize]) -> (r: Result<
    Vec<UnOp<S>>,
    EvalError,
>)
    ensures
        match r {
            Ok(v) => unbroadcast_ops::<S>(from@, to@) == Ok::<Seq<UnOpV<S>>, Fault>(op_views(v@)),
            Err(e) => unbroadcast_ops::<S>(from@, to@) == Err::<Seq<UnOpV<S>>, Fault>(e@),
        },
{
    let (n, m) = (from.len(), to.len());
    let mut ops: Vec<UnOp<S>> = Vec::new();
    let d: usize = if n >= m {
        n - m
    } else {
        0
    };
    let k: usize = if n >= m {
        m
    } else {
        n
    };
    for i in k..m
        invariant
            n == from@.len(),
            m == to@.len(),
            k == (if n >= m {
                m
            } else {
                n
            }),
            n < m ==> forall|j: int| n <= j < i ==> #[trigger] to@[j] != 1,
    {
        if to[i] == 1 {
            return Err(EvalError::Axis);
        }
    }
    let ghost drops = Seq::new(d as nat, |i: int| UnOpV::<S>::ReduceSum(seq![0isize]));
    for i in 0..d
        invariant
            drops == Seq::new(d as nat, |i: int| UnOpV::<S>::ReduceSum(seq![0isize])),
            op_views(ops@) == drops.subrange(0, i as int),
    {
        let axes: Vec<isize> = vec![0isize];
        assert(axes@ =~= seq![0isize]);
        let ghost before = op_views(ops@);
        ops.push(UnOp::ReduceSum(axes));
        proof {
            assert(drops[i as int] == UnOpV::<S>::ReduceSum(seq![0isize]));
            assert(op_views(ops@) =~= before.push(drops[i as int]));
            assert(before.push(drops[i as int]) =~= drops.subrange(0, i + 1));
        }
    }
    assert(op_views(ops@) =~= drops + squeeze::<S>(from@, to@, d as int, 0));
    for i in 0..k
        invariant
            n == from@.len(),
            m == to@.len(),
            d + k <= n,
            k <= m,
            op_views(ops@) == drops + squeeze::<S>(from@, to@, d as int, i as nat),
    {
        let ghost before = op_views(ops@);
        if to[i] == 1 && from[d + i] > 1 {
            let a: Vec<isize> = vec![i as isize];
            let b: Vec<isize> = vec![i as isize];
            assert(a@ =~= seq![i as isize]);
            assert(b@ =~= seq![i as isize]);
            ops.push(UnOp::ReduceSum(a));
            let ghost middle = op_views(ops@);
            assert(middle =~= before.push(UnOpV::ReduceSum(seq![i as isize])));
            ops.push(UnOp::ExpandDims(b));
            assert(op_views(ops@) =~= middle.push(UnOpV::ExpandDims(seq![i as isize])));
            assert(op_views(ops@) =~= drops + squeeze::<S>(from@, to@, d as int, (i + 1) as nat));
        }
    }
    assert(drops + squeeze::<S>(from@, to@, d as int, k as nat) =~= (if n >= m {
        drops + squeeze::<S>(from@, to@, d as int, m as nat)
    } else {
        squeeze::<S>(from@, to@, 0, n as nat)
    }));
    Ok(ops)
}

/// The value with a broadcast to its shape of a value of shape `to` undone.
pub open spec fn unbroadcasted<S: Scalar, T: Value<S>>(c: T::C, g: T::M, to: Seq<usize>) -> (
    T::C,
    Result<T::M, Fault>,
) {
    match unbroadcast_ops::<S>(T::shape_of(g), to) {
        Err(f) => (c, Err(f)),
        Ok(ops) => picked::<S, T>(
            value::run_steps::<S, T>(c, chain(ops, Reg::In(0), 0), seq![g]),
            seq![g],
            chain_end(ops.len(), Reg::In(0), 0),
        ),
    }
}

/// One value of a finished program.
pub open spec fn picked<S: Scalar, T: Value<S>>(
    done: (T::C, Result<Seq<T::M>, Fault>),
    inputs: Seq<T::M>,
    r: Reg,
) -> (T::C, Result<T::M, Fault>) {
    match done {
        (c, Ok(d)) => (
            c,
            match value::fetched(r, inputs, d) {
                Some(v) => Ok(v),
                None => Err(Fault::Graph),
            },
        ),
        (c, Err(f)) => (c, Err(f)),
    }
}

/// Copies one value of a finished program.
pub fn pick<S: Scalar, T: Value<S>>(inputs: &Vec<T>, done: &Vec<T>, r: Reg) -> (o: Result<
    T,
    EvalError,
>)
    ensures
        match (
            o,
            value::fetched(r, value::models::<S, T>(inputs@), value::models::<S, T>(done@)),
        ) {
            (Ok(v), Some(m)) => v.m() == m,
            (Err(e), None) => e@ == Fault::Graph,
            _ => false,
        },
{
    match value::fetch::<S, T>(r, inputs, done) {
        Some(v) => Ok(v.copy()),
        None => Err(EvalError::Graph),
    }
}

/// Undoes a broadcast to the shape of `g` of a value of shape `target`, by summation.
pub fn unbroadcast<S: Scalar, T: Value<S>>(g: &T, target: &[usize], cx: &mut T::Cx) -> (r: Result<
    T,
    EvalError,
>)
    ensures
        (T::c(final(cx)), value::result::<S, T>(r)) == unbroadcasted::<S, T>(
            T::c(old(cx)),
            g.m(),
            target@,
        ),
{
    let ops = unbroadcast_list::<S>(g.dims(), target)?;
    let mut steps: Vec<Step<S>> = Vec::new();
    assert(value::program(steps@) =~= Seq::<StepV<S>>::empty());
    let place = append_chain(&mut steps, ops, Reg::In(0));
    assert(value::program(steps@) =~= chain(op_views(ops@), Reg::In(0), 0));
    let inputs: Vec<T> = vec![g.copy()];
    assert(value::models::<S, T>(inputs@) =~= seq![g.m()]);
    let done = value::perform::<S, T>(&steps, &inputs, cx)?;
    pick::<S, T>(&inputs, &done, place)
}

// ---- the product programs ----
/// The inputs of a product program beside the cotangent: operands, or the result itself.
pub open spec fn vjp_needs<S>(p: PrimV<S>, out: AtomV<S>) -> Result<Seq<AtomV<S>>, Fault> {
    match p {
        PrimV::Un(op, a) => match op {
            UnOpV::Neg | UnOpV::ExpandDims(_) | UnOpV::MoveAxis(_, _) => Ok(seq![]),
            UnOpV::Sqrt | UnOpV::Exp | UnOpV::Relu => Ok(seq![out]),
            _ => Ok(seq![a]),
        },
        PrimV::Bin(op, a, b) => match op {
            BinOpV::Add => Ok(seq![]),
            BinOpV::ConvKernelGrad(_, _) => Err(Fault::Unsupported),
            _ => Ok(seq![a, b]),
        },
        PrimV::Select(c, _, _) => Ok(seq![c]),
    }
}

/// A program with one result.
pub open spec fn single<S>(steps: Seq<StepV<S>>) -> RuleV<S> {
    RuleV { steps, outs: seq![Reg::Out((steps.len() - 1) as usize)] }
}

/// The step that loads one number.
pub open spec fn load_number<S>(x: S) -> StepV<S> {
    StepV::Load(model::scalar_tensor(x))
}

/// The step that loads zeros of the given shape.
pub open spec fn load_zeros<S: Scalar>(s: Seq<usize>) -> StepV<S> {
    StepV::Load(model::filled(s, scalar::zero()))
}

/// The height of the standard normal density at zero.
pub open spec fn density_peak<S: Scalar>() -> S {
    scalar::one::<S>().over(scalar::num::<S>(2).times(S::circle()).root())
}

/// The steps that compute the standard normal density of the first operand.
pub open spec fn density_steps<S: Scalar>() -> Seq<StepV<S>> {
    seq![
        StepV::Un(UnOpV::Square, Reg::In(1)),
        load_number(scalar::half()),
        StepV::Bin(BinOpV::Mul, Reg::Out(0), Reg::Out(1)),
        StepV::Un(UnOpV::Neg, Reg::Out(2)),
        StepV::Un(UnOpV::Exp, Reg::Out(3)),
        load_number(density_peak()),
        StepV::Bin(BinOpV::Mul, Reg::Out(4), Reg::Out(5)),
    ]
}

/// The product program of an elementwise operation; `t` is the shape of the cotangent.
pub open spec fn pointwise_rule<S: Scalar>(op: UnOpV<S>, t: Seq<usize>) -> Result<
    RuleV<S>,
    Fault,
> {
    match op {
        UnOpV::Neg => Ok(single(seq![StepV::Un(UnOpV::Neg, Reg::In(0))])),
        UnOpV::Reciprocal => Ok(
            single(
                seq![
                    StepV::Un(UnOpV::Square, Reg::In(1)),
                    StepV::Un(UnOpV::Reciprocal, Reg::Out(0)),
                    StepV::Un(UnOpV::Neg, Reg::Out(1)),
                    StepV::Bin(BinOpV::Mul, Reg::Out(2), Reg::In(0)),
                ],
            ),
        ),
        UnOpV::Square => Ok(
            single(
                seq![
                    load_number(scalar::num(2)),
                    StepV::Bin(BinOpV::Mul, Reg::In(0), Reg::Out(0)),
                    StepV::Bin(BinOpV::Mul, Reg::Out(1), Reg::In(1)),
                ],
            ),
        ),
        UnOpV::Sqrt => Ok(
            single(
                seq![
                    load_number(scalar::num(2)),
                    StepV::Bin(BinOpV::Mul, Reg::In(1), Reg::Out(0)),
                    StepV::Un(UnOpV::Reciprocal, Reg::Out(1)),
                    StepV::Bin(BinOpV::Mul, Reg::In(0), Reg::Out(2)),
                ],
            ),
        ),
        UnOpV::Exp => Ok(single(seq![StepV::Bin(BinOpV::Mul, Reg::In(0), Reg::In(1))])),
        UnOpV::Log => Ok(
            single(
                seq![
                    StepV::Un(UnOpV::Reciprocal, Reg::In(1)),
                    StepV::Bin(BinOpV::Mul, Reg::In(0), Reg::Out(0)),
                ],
            ),
        ),
        UnOpV::Relu => if shape::fits(t) {
            Ok(
                single(
                    seq![load_zeros(t), StepV::Select(Reg::In(1), Reg::In(0), Reg::Out(0))],
                ),
            )
        } else {
            Err(Fault::Size)
        },
        UnOpV::LeakyRelu(slope) => Ok(
            single(
                seq![
                    load_number(slope),
                    StepV::Bin(BinOpV::Mul, Reg::In(0), Reg::Out(0)),
                    StepV::Un(UnOpV::Relu, Reg::In(1)),
                    StepV::Select(Reg::Out(2), Reg::In(0), Reg::Out(1)),
                ],
            ),
        ),
        UnOpV::Elu(slope) => Ok(
            single(
                seq![
                    load_number(slope),
                    StepV::Bin(BinOpV::Mul, Reg::In(0), Reg::Out(0)),
                    StepV::Un(UnOpV::Exp, Reg::In(1)),
                    StepV::Bin(BinOpV::Mul, Reg::Out(1), Reg::Out(2)),
                    StepV::Un(UnOpV::Relu, Reg::In(1)),
                    StepV::Select(Reg::Out(4), Reg::In(0), Reg::Out(3)),
                ],
            ),
        ),
        UnOpV::Gelu => Ok(
            single(
                density_steps::<S>() + seq![
                    StepV::Un(UnOpV::NormalCdf, Reg::In(1)),
                    StepV::Bin(BinOpV::Mul, Reg::In(1), Reg::Out(6)),
                    StepV::Bin(BinOpV::Add, Reg::Out(7), Reg::Out(8)),
                    StepV::Bin(BinOpV::Mul, Reg::In(0), Reg::Out(9)),
                ],
            ),
        ),
        UnOpV::NormalCdf => Ok(
            single(
                density_steps::<S>() + seq![StepV::Bin(BinOpV::Mul, Reg::In(0), Reg::Out(6))],
            ),
        ),
        _ => Err(Fault::Unsupported),
    }
}

/// The steps that compute the density.
fn density_list<S: Scalar>() -> (r: Vec<Step<S>>)
    ensures
        value::program(r@) == density_steps::<S>(),
{
    let half = S::from_ratio(1, 2);
    let peak = scalar::number::<S>(1).div(scalar::number::<S>(2).mul(S::pi()).sqrt());
    let steps: Vec<Step<S>> = vec![
        Step::Un(UnOp::Square, Reg::In(1)),
        Step::Load(Tensor::from_scalar(half)),
        Step::Bin(BinOp::Mul, Reg::Out(0), Reg::Out(1)),
        Step::Un(UnOp::Neg, Reg::Out(2)),
        Step::Un(UnOp::Exp, Reg::Out(3)),
        Step::Load(Tensor::from_scalar(peak)),
        Step::Bin(BinOp::Mul, Reg::Out(4), Reg::Out(5)),
    ];
    assert(value::program(steps@) =~= density_steps::<S>());
    steps
}

/// A program with one result, the last one.
fn finish<S: Scalar>(steps: Vec<Step<S>>) -> (r: Rule<S>)
    requires
        steps@.len() > 0,
    ensures
        r@ == single(value::program(steps@)),
{
    let outs: Vec<Reg> = vec![Reg::Out(steps.len() - 1)];
    assert(outs@ =~= seq![Reg::Out((steps@.len() - 1) as usize)]);
    Rule { steps, outs }
}

/// Whether a rule or an error is the given outcome.
pub open spec fn rule_is<S>(r: Result<Rule<S>, EvalError>, m: Result<RuleV<S>, Fault>) -> bool {
    match (r, m) {
        (Ok(a), Ok(b)) => a@ == b,
        (Err(e), Err(f)) => e@ == f,
        _ => false,
    }
}

/// The product program of an elementwise operation.
fn pointwise_vjp<S: Scalar>(op: &UnOp<S>, t: &[usize]) -> (r: Result<Rule<S>, EvalError>)
    ensures
        rule_is(r, pointwise_rule(op@, t@)),
{
    let two = Tensor::from_scalar(scalar::number::<S>(2));
    let steps: Vec<Step<S>> = match op {
        UnOp::Neg => vec![Step::Un(UnOp::Neg, Reg::In(0))],
        UnOp::Reciprocal => vec![
            Step::Un(UnOp::Square, Reg::In(1)),
            Step::Un(UnOp::Reciprocal, Reg::Out(0)),
            Step::Un(UnOp::Neg, Reg::Out(1)),
            Step::Bin(BinOp::Mul, Reg::Out(2), Reg::In(0)),
        ],
        UnOp::Square => vec![
            Step::Load(two),
            Step::Bin(BinOp::Mul, Reg::In(0), Reg::Out(0)),
            Step::Bin(BinOp::Mul, Reg::Out(1), Reg::In(1)),
        ],
        UnOp::Sqrt => vec![
            Step::Load(two),
            Step::Bin(BinOp::Mul, Reg::In(1), Reg::Out(0)),
            Step::Un(UnOp::Reciprocal, Reg::Out(1)),
            Step::Bin(BinOp::Mul, Reg::In(0), Reg::Out(2)),
        ],
        UnOp::Exp => vec![Step::Bin(BinOp::Mul, Reg::In(0), Reg::In(1))],
        UnOp::Log => vec![
            Step::Un(UnOp::Reciprocal, Reg::In(1)),
            Step::Bin(BinOp::Mul, Reg::In(0), Reg::Out(0)),
        ],
        UnOp::Relu => {
            let zeros = Tensor::from_elem(tensor::copy_of(t), scalar::number::<S>(0))?;
            vec![Step::Load(zeros), Step::Select(Reg::In(1), Reg::In(0), Reg::Out(0))]
        },
        UnOp::LeakyRelu(slope) => vec![
            Step::Load(Tensor::from_scalar(*slope)),
            Step::Bin(BinOp::Mul, Reg::In(0), Reg::Out(0)),
            Step::Un(UnOp::Relu, Reg::In(1)),
            Step::Select(Reg::Out(2), Reg::In(0), Reg::Out(1)),
        ],
        UnOp::Elu(slope) => vec![
            Step::Load(Tensor::from_scalar(*slope)),
            Step::Bin(BinOp::Mul, Reg::In(0), Reg::Out(0)),
            Step::Un(UnOp::Exp, Reg::In(1)),
            Step::Bin(BinOp::Mul, Reg::Out(1), Reg::Out(2)),
            Step::Un(UnOp::Relu, Reg::In(1)),
            Step::Select(Reg::Out(4), Reg::In(0), Reg::Out(3)),
        ],
        UnOp::Gelu => {
            let mut v = density_list::<S>();
            v.push(Step::Un(UnOp::NormalCdf, Reg::In(1)));
            v.push(Step::Bin(BinOp::Mul, Reg::In(1), Reg::Out(6)));
            v.push(Step::Bin(BinOp::Add, Reg::Out(7), Reg::Out(8)));
            v.push(Step::Bin(BinOp::Mul, Reg::In(0), Reg::Out(9)));
            v
        },
        UnOp::NormalCdf => {
            let mut v = density_list::<S>();
            v.push(Step::Bin(BinOp::Mul, Reg::In(0), Reg::Out(6)));
            v
        },
        _ => {
            return Err(EvalError::Unsupported);
        },
    };
    proof {
        assert(pointwise_rule(op@, t@) is Ok);
        assert(value::program(steps@) =~= pointwise_rule(op@, t@)->Ok_0.steps);
    }
    Ok(finish(steps))
}

// ---- contraction ----
/// The steps for the cotangent of the left operand of a contraction; `b` is the shape of the
/// right one.
pub open spec fn dot_left<S>(b: Seq<usize>) -> Seq<StepV<S>> {
    if b.len() == 0 {
        seq![StepV::Bin(BinOpV::Mul, Reg::In(0), Reg::In(2))]
    } else if b.len() == 1 {
        seq![
            StepV::Un(UnOpV::ExpandDims(seq![(-1) as isize]), Reg::In(0)),
            StepV::Un(UnOpV::ExpandDims(seq![0isize]), Reg::In(2)),
            StepV::Bin(BinOpV::Dot, Reg::Out(0), Reg::Out(1)),
        ]
    } else {
        seq![
            StepV::Un(UnOpV::MoveAxis((-1) as isize, (-2) as isize), Reg::In(2)),
            StepV::Bin(BinOpV::Dot, Reg::In(0), Reg::Out(0)),
        ]
    }
}

/// The steps for the cotangent of the right operand, behind `n` others; `a` is the shape of the
/// left one.
pub open spec fn dot_right<S>(a: Seq<usize>, n: int) -> Seq<StepV<S>> {
    if a.len() == 0 {
        seq![StepV::Bin(BinOpV::Mul, Reg::In(1), Reg::In(0))]
    } else if a.len() == 1 {
        seq![
            StepV::Un(UnOpV::ExpandDims(seq![(-1) as isize]), Reg::In(1)),
            StepV::Un(UnOpV::ExpandDims(seq![0isize]), Reg::In(0)),
            StepV::Bin(BinOpV::Dot, Reg::Out(n as usize), Reg::Out((n + 1) as usize)),
        ]
    } else {
        seq![
            StepV::Un(UnOpV::MoveAxis((-1) as isize, (-2) as isize), Reg::In(1)),
            StepV::Bin(BinOpV::Dot, Reg::Out(n as usize), Reg::In(0)),
        ]
    }
}

/// The product program of a contraction of operands of shapes `a` and `b`.
pub open spec fn dot_rule<S>(a: Seq<usize>, b: Seq<usize>) -> RuleV<S> {
    let l = dot_left::<S>(b);
    let r = dot_right::<S>(a, l.len() as int);
    RuleV {
        steps: l + r,
        outs: seq![
            Reg::Out((l.len() - 1) as usize),
            Reg::Out((l.len() + r.len() - 1) as usize),
        ],
    }
}

/// The list with one number.
pub fn one_axis(i: isize) -> (r: Vec<isize>)
    ensures
        r@ == seq![i],
{
    let v: Vec<isize> = vec![i];
    assert(v@ =~= seq![i]);
    v
}

/// The product program of a contraction.
fn dot_vjp<S: Scalar>(a: &[usize], b: &[usize]) -> (r: Rule<S>)
    ensures
        r@ == dot_rule::<S>(a@, b@),
{
    let mut steps: Vec<Step<S>> = if b.len() == 0 {
        vec![Step::Bin(BinOp::Mul, Reg::In(0), Reg::In(2))]
    } else if b.len() == 1 {
        vec![
            Step::Un(UnOp::ExpandDims(one_axis(-1)), Reg::In(0)),
            Step::Un(UnOp::ExpandDims(one_axis(0)), Reg::In(2)),
            Step::Bin(BinOp::Dot, Reg::Out(0), Reg::Out(1)),
        ]
    } else {
        vec![
            Step::Un(UnOp::MoveAxis(-1, -2), Reg::In(2)),
            Step::Bin(BinOp::Dot, Reg::In(0), Reg::Out(0)),
        ]
    };
    let ghost l = dot_left::<S>(b@);
    assert(value::program(steps@) =~= l);
    let n = steps.len();
    if a.len() == 0 {
        steps.push(Step::Bin(BinOp::Mul, Reg::In(1), Reg::In(0)));
    } else if a.len() == 1 {
        steps.push(Step::Un(UnOp::ExpandDims(one_axis(-1)), Reg::In(1)));
        steps.push(Step::Un(UnOp::ExpandDims(one_axis(0)), Reg::In(0)));
        steps.push(Step::Bin(BinOp::Dot, Reg::Out(n), Reg::Out(n + 1)));
    } else {
        steps.push(Step::Un(UnOp::MoveAxis(-1, -2), Reg::In(1)));
        steps.push(Step::Bin(BinOp::Dot, Reg::Out(n), Reg::In(0)));
    }
    assert(value::program(steps@) =~= l + dot_right::<S>(a@, n as int));
    let outs: Vec<Reg> = vec![Reg::Out(n - 1), Reg::Out(steps.len() - 1)];
    assert(outs@ =~= dot_rule::<S>(a@, b@).outs);
    Rule { steps, outs }
}

// ---- shape manipulation ----
/// A shape as a list of reshape lengths.
pub open spec fn as_lengths(s: Seq<usize>) -> Seq<isize> {
    Seq::new(s.len(), |i: int| s[i] as isize)
}

/// A shape as a list of reshape lengths.
pub fn to_lengths(s: &[usize]) -> (r: Vec<isize>)
    ensures
        r@ == as_lengths(s@),
{
    let mut out: Vec<isize> = Vec::new();
    for i in 0..s.len()
        invariant
            out@ == as_lengths(s@).subrange(0, i as int),
    {
        out.push(s[i] as isize);
        assert(out@ =~= as_lengths(s@).subrange(0, i + 1));
    }
    assert(out@ =~= as_lengths(s@));
    out
}

/// The padding by zeros that undoes the slice `start::step` of axis `axis` of a tensor of shape
/// `s` into one of shape `t`.
pub open spec fn unslice_pad<S: Scalar>(
    axis: isize,
    start: isize,
    step: isize,
    t: Seq<usize>,
    s: Seq<usize>,
) -> Result<PadV<S>, Fault> {
    let ax = shape::norm_axis(axis as int, s.len() as int);
    if !shape::axis_ok(axis as int, s.len() as int) || ax >= t.len() {
        Err(Fault::Axis)
    } else {
        let taken = if t[ax] > 0 {
            (t[ax] - 1) * step + 1
        } else {
            0
        };
        if start < 0 || step <= 0 || start + taken > s[ax] {
            Err(Fault::Window)
        } else {
            Ok(
                PadV {
                    left: start as usize,
                    right: (s[ax] - start - taken) as usize,
                    interior: (step - 1) as usize,
                    axes: seq![axis],
                    value: scalar::zero(),
                },
            )
        }
    }
}

/// The padding that undoes a slice.
pub fn unslice<S: Scalar>(axis: isize, start: isize, step: isize, t: &[usize], s: &[usize]) -> (r:
    Result<PaddingOptions<S>, EvalError>)
    requires
        s@.len() <= isize::MAX,
    ensures
        match (r, unslice_pad::<S>(axis, start, step, t@, s@)) {
            (Ok(p), Ok(q)) => p@ == q,
            (Err(e), Err(f)) => e@ == f,
            _ => false,
        },
{
    let nd = s.len() as isize;
    if axis < -nd || axis >= nd {
        return Err(EvalError::Axis);
    }
    let ax = shape::norm_axis_index(axis, s.len());
    if ax >= t.len() {
        return Err(EvalError::Axis);
    }
    if start < 0 || step <= 0 {
        return Err(EvalError::Window);
    }
    let taken: u128 = if t[ax] > 0 {
        proof {
            let (a, b) = (t@[ax as int] - 1, step as int);
            assert(0 <= a * b <= 0xffff_ffff_ffff_fffe * 0x7fff_ffff_ffff_ffff) by (nonlinear_arith)
                requires
                    0 <= a <= 0xffff_ffff_ffff_fffe,
                    0 <= b <= 0x7fff_ffff_ffff_ffff,
            ;
        }
        (t[ax] as u128 - 1) * (step as u128) + 1
    } else {
        0
    };
    let used = start as u128 + taken;
    if used > s[ax] as u128 {
        return Err(EvalError::Window);
    }
    let p = PaddingOptions {
        config: PaddingOptionConfig {
            left: start as usize,
            right: (s[ax] as u128 - used) as usize,
            interior: (step - 1) as usize,
        },
        axes: one_axis(axis),
        value: scalar::number::<S>(0),
    };
    Ok(p)
}

/// The end of the slice that undoes the padding of an axis of length `d`.
pub open spec fn unpad_end<S>(p: PadV<S>, d: usize) -> int {
    if d == 0 {
        p.left as int
    } else {
        p.left + (p.interior + 1) * (d - 1) + 1
    }
}

/// Whether the slices that undo a padding of a tensor of shape `s` can be written down.
pub open spec fn unpad_ok<S>(p: PadV<S>, s: Seq<usize>) -> Result<(), Fault> {
    if !model::axes_ok(p.axes, s.len() as int) {
        Err(Fault::Axis)
    } else if p.axes.len() > 0 && (p.left > isize::MAX || p.interior >= isize::MAX || exists|
        j: int,
    |
        0 <= j < p.axes.len() && unpad_end(
            p,
            s[shape::norm_axis(#[trigger] p.axes[j] as int, s.len() as int)],
        ) > isize::MAX) {
        Err(Fault::Size)
    } else {
        Ok(())
    }
}

/// The slice that undoes a padding of a tensor of shape `s` along listed axis number `j`.
pub open spec fn unpad_slice<S>(p: PadV<S>, s: Seq<usize>, j: int) -> UnOpV<S> {
    let ax = p.axes[j];
    UnOpV::Slice(
        ax,
        p.left as isize,
        Some(unpad_end(p, s[shape::norm_axis(ax as int, s.len() as int)]) as isize),
        (p.interior + 1) as isize,
    )
}

/// The slices that undo a padding of a tensor of shape `s`.
pub open spec fn unpad_ops<S>(p: PadV<S>, s: Seq<usize>) -> Seq<UnOpV<S>> {
    Seq::new(p.axes.len(), |j: int| unpad_slice(p, s, j))
}

/// The end of the slice that undoes the padding of an axis, if it fits an `isize`.
fn slice_end<S: Scalar>(p: &PaddingOptions<S>, d: usize) -> (r: Option<isize>)
    ensures
        match r {
            Some(e) => e == unpad_end(p@, d),
            None => unpad_end(p@, d) > isize::MAX,
        },
{
    let reach: u128 = if d == 0 {
        p.config.left as u128
    } else {
        proof {
            let (a, b) = (p.config.interior + 1, d - 1);
            assert(0 <= a * b <= 0x1_0000_0000_0000_0000 * 0xffff_ffff_ffff_fffe)
                by (nonlinear_arith)
                requires
                    0 <= a <= 0x1_0000_0000_0000_0000,
                    0 <= b <= 0xffff_ffff_ffff_fffe,
            ;
        }
        p.config.left as u128 + (p.config.interior as u128 + 1) * (d as u128 - 1) + 1
    };
    if reach <= isize::MAX as u128 {
        Some(reach as isize)
    } else {
        None
    }
}

/// The slices that undo a padding.
pub fn unpad_list<S: Scalar>(p: &PaddingOptions<S>, s: &[usize]) -> (r: Result<
    Vec<UnOp<S>>,
    EvalError,
>)
    requires
        s@.len() <= isize::MAX,
    ensures
        match (r, unpad_ok(p@, s@)) {
            (Ok(v), Ok(_)) => op_views(v@) == unpad_ops(p@, s@),
            (Err(e), Err(f)) => e@ == f,
            _ => false,
        },
{
    let n = s.len();
    if !manipulate::all_axes_ok(&p.axes, n) {
        return Err(EvalError::Axis);
    }
    let mut ops: Vec<UnOp<S>> = Vec::new();
    if p.axes.len() == 0 {
        assert(op_views(ops@) =~= unpad_ops(p@, s@));
        return Ok(ops);
    }
    if p.config.left > isize::MAX as usize || p.config.interior >= isize::MAX as usize {
        return Err(EvalError::Size);
    }
    for j in 0..p.axes.len()
        invariant
            n == s@.len(),
            n <= isize::MAX,
            p.axes@.len() > 0,
            model::axes_ok(p.axes@, n as int),
            p.config.left <= isize::MAX,
            p.config.interior < isize::MAX,
            ops@.len() == j,
            forall|i: int| 0 <= i < j ==> (#[trigger] ops@[i])@ == unpad_slice(p@, s@, i),
            forall|i: int|
                0 <= i < j ==> unpad_end(
                    p@,
                    s@[shape::norm_axis(#[trigger] p@.axes[i] as int, n as int)],
                ) <= isize::MAX,
    {
        let ax = p.axes[j];
        assert(shape::axis_ok(p.axes@[j as int] as int, n as int));
        let i = shape::norm_axis_index(ax, n);
        match slice_end(p, s[i]) {
            Some(end) => {
                ops.push(
                    UnOp::Slice(
                        ax,
                        p.config.left as isize,
                        Some(end),
                        p.config.interior as isize + 1,
                    ),
                );
            },
            None => {
                assert(p@.axes[j as int] == ax);
                return Err(EvalError::Size);
            },
        }
    }
    assert(op_views(ops@) =~= unpad_ops(p@, s@));
    Ok(ops)
}

/// The product program of an operation that moves elements; `t` is the shape of the cotangent,
/// `s` that of the operand where it is an input.
pub open spec fn moving_rule<S: Scalar>(op: UnOpV<S>, t: Seq<usize>, s: Seq<usize>) -> Result<
    RuleV<S>,
    Fault,
> {
    match op {
        UnOpV::ReduceSum(axes) => if shape::fits(s) {
            Ok(
                single(
                    seq![
                        StepV::Un(UnOpV::ExpandDims(axes), Reg::In(0)),
                        load_zeros(s),
                        StepV::Bin(BinOpV::Add, Reg::Out(0), Reg::Out(1)),
                    ],
                ),
            )
        } else {
            Err(Fault::Size)
        },
        UnOpV::ExpandDims(axes) => Ok(single(seq![StepV::Un(UnOpV::ReduceSum(axes), Reg::In(0))])),
        UnOpV::MoveAxis(a, b) => Ok(single(seq![StepV::Un(UnOpV::MoveAxis(b, a), Reg::In(0))])),
        UnOpV::Reshape(_) => Ok(
            single(seq![StepV::Un(UnOpV::Reshape(as_lengths(s)), Reg::In(0))]),
        ),
        UnOpV::Slice(axis, start, _, step) => match unslice_pad::<S>(axis, start, step, t, s) {
            Ok(p) => Ok(single(seq![StepV::Un(UnOpV::Pad(p), Reg::In(0))])),
            Err(f) => Err(f),
        },
        UnOpV::Pad(p) => match unpad_ok(p, s) {
            Ok(_) => Ok(
                RuleV {
                    steps: chain(unpad_ops(p, s), Reg::In(0), 0),
                    outs: seq![chain_end(p.axes.len(), Reg::In(0), 0)],
                },
            ),
            Err(f) => Err(f),
        },
        _ => Err(Fault::Unsupported),
    }
}

/// The product program of an operation that moves elements.
pub(crate) fn moving_vjp<S: Scalar>(op: &UnOp<S>, t: &[usize], s: &[usize]) -> (r: Result<Rule<S>, EvalError>)
    requires
        s@.len() <= isize::MAX,
    ensures
        rule_is(r, moving_rule(op@, t@, s@)),
{
    let steps: Vec<Step<S>> = match op {
        UnOp::ReduceSum(axes) => {
            let zeros = Tensor::from_elem(tensor::copy_of(s), scalar::number::<S>(0))?;
            vec![
                Step::Un(UnOp::ExpandDims(op::copy_signed(axes)), Reg::In(0)),
                Step::Load(zeros),
                Step::Bin(BinOp::Add, Reg::Out(0), Reg::Out(1)),
            ]
        },
        UnOp::ExpandDims(axes) => vec![
            Step::Un(UnOp::ReduceSum(op::copy_signed(axes)), Reg::In(0)),
        ],
        UnOp::MoveAxis(a, b) => vec![Step::Un(UnOp::MoveAxis(*b, *a), Reg::In(0))],
        UnOp::Reshape(_) => vec![Step::Un(UnOp::Reshape(to_lengths(s)), Reg::In(0))],
        UnOp::Slice(axis, start, _, step) => {
            let p = unslice::<S>(*axis, *start, *step, t, s)?;
            vec![Step::Un(UnOp::Pad(p), Reg::In(0))]
        },
        UnOp::Pad(p) => {
            let ops = unpad_list(p, s)?;
            let mut steps: Vec<Step<S>> = Vec::new();
            assert(value::program(steps@) =~= Seq::<StepV<S>>::empty());
            let end = append_chain(&mut steps, ops, Reg::In(0));
            assert(value::program(steps@) =~= chain(unpad_ops(p@, s@), Reg::In(0), 0));
            let outs: Vec<Reg> = vec![end];
            assert(outs@ =~= seq![end]);
            return Ok(Rule { steps, outs });
        },
        _ => {
            return Err(EvalError::Unsupported);
        },
    };
    proof {
        assert(moving_rule(op@, t@, s@) is Ok);
        assert(value::program(steps@) =~= moving_rule(op@, t@, s@)->Ok_0.steps);
    }
    Ok(finish(steps))
}

// ---- convolution ----
/// Padding by zeros.
pub open spec fn zero_pad<S: Scalar>(
    left: usize,
    right: usize,
    interior: usize,
    axes: Seq<isize>,
) -> PadV<S> {
    PadV { left, right, interior, axes, value: scalar::zero() }
}

/// The product program of a convolution of operands of shapes `a` and `k`: the cotangent of the
/// input is the dilated, padded cotangent convolved with the flipped kernel.
pub open spec fn conv_rule<S: Scalar>(a: Seq<usize>, k: Seq<usize>, stride: isize) -> Result<
    RuleV<S>,
    Fault,
> {
    let s = stride as usize;
    if a.len() != 4 || k.len() != 4 {
        Err(Fault::ConvRank)
    } else if s == 0 || k[2] == 0 || k[3] == 0 {
        Err(Fault::Window)
    } else {
        let (h, w) = ((k[2] - 1) as usize, (k[3] - 1) as usize);
        Ok(
            RuleV {
                steps: seq![
                    StepV::Un(
                        UnOpV::Pad(
                            zero_pad(
                                0,
                                0,
                                (s - 1) as usize,
                                seq![(-2) as isize, (-1) as isize],
                            ),
                        ),
                        Reg::In(0),
                    ),
                    StepV::Un(UnOpV::Pad(zero_pad(h, h, 0, seq![(-2) as isize])), Reg::Out(0)),
                    StepV::Un(UnOpV::Pad(zero_pad(w, w, 0, seq![(-1) as isize])), Reg::Out(1)),
                    StepV::Un(UnOpV::MoveAxis(0, 1), Reg::In(2)),
                    StepV::Un(
                        UnOpV::Slice((-2) as isize, (-1) as isize, None, (-1) as isize),
                        Reg::Out(3),
                    ),
                    StepV::Un(
                        UnOpV::Slice((-1) as isize, (-1) as isize, None, (-1) as isize),
                        Reg::Out(4),
                    ),
                    StepV::Bin(BinOpV::Conv(1), Reg::Out(2), Reg::Out(5)),
                    StepV::Bin(BinOpV::ConvKernelGrad(stride, k), Reg::In(0), Reg::In(1)),
                ],
                outs: seq![Reg::Out(6), Reg::Out(7)],
            },
        )
    }
}

/// Padding by zeros.
fn padding<S: Scalar>(left: usize, right: usize, interior: usize, axes: Vec<isize>) -> (r:
    PaddingOptions<S>)
    ensures
        r@ == zero_pad::<S>(left, right, interior, axes@),
{
    PaddingOptions {
        config: PaddingOptionConfig { left, right, interior },
        axes,
        value: scalar::number::<S>(0),
    }
}

/// The product program of a convolution.
pub(crate) fn conv_vjp<S: Scalar>(a: &[usize], k: &[usize], stride: isize) -> (r: Result<Rule<S>, EvalError>)
    ensures
        rule_is(r, conv_rule(a@, k@, stride)),
{
    if a.len() != 4 || k.len() != 4 {
        return Err(EvalError::ConvRank);
    }
    let s = stride as usize;
    if s == 0 || k[2] == 0 || k[3] == 0 {
        return Err(EvalError::Window);
    }
    let (h, w) = (k[2] - 1, k[3] - 1);
    let both: Vec<isize> = vec![-2, -1];
    assert(both@ =~= seq![(-2) as isize, (-1) as isize]);
    let steps: Vec<Step<S>> = vec![
        Step::Un(UnOp::Pad(padding(0, 0, s - 1, both)), Reg::In(0)),
        Step::Un(UnOp::Pad(padding(h, h, 0, one_axis(-2))), Reg::Out(0)),
        Step::Un(UnOp::Pad(padding(w, w, 0, one_axis(-1))), Reg::Out(1)),
        Step::Un(UnOp::MoveAxis(0, 1), Reg::In(2)),
        Step::Un(UnOp::Slice(-2, -1, None, -1), Reg::Out(3)),
        Step::Un(UnOp::Slice(-1, -1, None, -1), Reg::Out(4)),
        Step::Bin(BinOp::Conv(1), Reg::Out(2), Reg::Out(5)),
        Step::Bin(BinOp::ConvKernelGrad(stride, tensor::copy_of(k)), Reg::In(0), Reg::In(1)),
    ];
    let outs: Vec<Reg> = vec![Reg::Out(6), Reg::Out(7)];
    proof {
        let want = conv_rule::<S>(a@, k@, stride)->Ok_0;
        assert(value::program(steps@) =~= want.steps);
        assert(outs@ =~= want.outs);
    }
    Ok(Rule { steps, outs })
}

// ---- pooling ----
/// Whether the windows that made `t` elements out of an axis of length `s` lie on it.
pub open spec fn axis_unpools(t: usize, s: usize, window: usize, stride: usize) -> bool {
    stride > 0 && t > 0 && (t - 1) * stride + window <= s
}

/// Whether the windows that made a tensor of shape `t` out of one of shape `s` lie in it.
pub open spec fn unpool_ok(t: Seq<usize>, s: Seq<usize>, window: Seq<usize>, stride: Seq<usize>) -> bool {
    forall|d: int|
        0 <= d < s.len() ==> #[trigger] axis_unpools(t[d], s[d], window[d], stride[d])
}

/// The padding that scatters a tensor of shape `t` along axis `d` to the elements at offset
/// `j[d]` of its windows in a tensor of shape `s`.
pub open spec fn scatter_pad<S: Scalar>(
    t: Seq<usize>,
    s: Seq<usize>,
    stride: Seq<usize>,
    j: Seq<usize>,
    d: int,
) -> PadV<S> {
    zero_pad(
        j[d],
        (s[d] - j[d] - (t[d] - 1) * stride[d] - 1) as usize,
        (stride[d] - 1) as usize,
        seq![d as isize],
    )
}

/// The steps for window offset number `j`, behind `n0` others.
pub open spec fn scatter_steps<S: Scalar>(
    t: Seq<usize>,
    s: Seq<usize>,
    window: Seq<usize>,
    stride: Seq<usize>,
    j: int,
    n0: nat,
) -> Seq<StepV<S>> {
    let pads = Seq::new(
        s.len(),
        |d: int|
            StepV::Un(
                UnOpV::Pad(scatter_pad(t, s, stride, shape::unravel(j, window), d)),
                Reg::Out((n0 + d) as usize),
            ),
    );
    let part = seq![StepV::Bin(BinOpV::Mul, Reg::In(0), Reg::Out(0))] + pads;
    if j == 0 {
        part
    } else {
        part.push(
            StepV::Bin(
                BinOpV::Add,
                Reg::Out((n0 - 1) as usize),
                Reg::Out((n0 + s.len()) as usize),
            ),
        )
    }
}

/// The steps for the first `k` window offsets.
pub open spec fn unpool_steps<S: Scalar>(
    t: Seq<usize>,
    s: Seq<usize>,
    window: Seq<usize>,
    stride: Seq<usize>,
    scale: S,
    k: nat,
) -> Seq<StepV<S>>
    decreases k,
{
    if k == 0 {
        seq![load_number(scale)]
    } else {
        let before = unpool_steps(t, s, window, stride, scale, (k - 1) as nat);
        before + scatter_steps(t, s, window, stride, k - 1, before.len())
    }
}

/// The factor that a pooled element contributes with.
pub open spec fn pool_scale<S: Scalar>(window: Seq<usize>, average: bool) -> S {
    if average {
        scalar::one::<S>().over(scalar::num(shape::product(window) as int))
    } else {
        scalar::one()
    }
}

/// The product program of a pooling operation with cotangent of shape `t` and operand of shape
/// `s`: the sum over all window offsets of the scattered cotangent.
pub open spec fn pool_rule<S: Scalar>(
    t: Seq<usize>,
    s: Seq<usize>,
    window: Seq<usize>,
    stride: Seq<usize>,
    average: bool,
) -> Result<RuleV<S>, Fault> {
    if window.len() != s.len() || stride.len() != s.len() || t.len() != s.len() {
        Err(Fault::PoolRank)
    } else if exists|d: int| 0 <= d < window.len() && #[trigger] window[d] == 0 {
        if shape::fits(s) {
            Ok(single(seq![load_zeros(s)]))
        } else {
            Err(Fault::Size)
        }
    } else if !shape::fits(s) {
        Err(Fault::Size)
    } else if !unpool_ok(t, s, window, stride) {
        Err(Fault::Window)
    } else {
        Ok(
            single(
                unpool_steps(
                    t,
                    s,
                    window,
                    stride,
                    pool_scale(window, average),
                    shape::product(window),
                ),
            ),
        )
    }
}

/// The bounds that scattering along an axis rests on.
pub proof fn lemma_scatter(t: Seq<usize>, s: Seq<usize>, window: Seq<usize>, stride: Seq<usize>, j: Seq<
    usize,
>, d: int)
    requires
        unpool_ok(t, s, window, stride),
        shape::in_shape(j, window),
        window.len() == s.len(),
        0 <= d < s.len(),
    ensures
        stride[d] > 0,
        t[d] > 0,
        0 <= (t[d] - 1) * stride[d],
        j[d] + (t[d] - 1) * stride[d] + 1 <= s[d],
{
    assert(axis_unpools(t[d], s[d], window[d], stride[d]));
    assert(j[d] < window[d]);
    let (a, b) = (t[d] - 1, stride[d] as int);
    assert(a * b >= 0) by (nonlinear_arith)
        requires
            a >= 0,
            b >= 0,
    ;
}

/// Appends the steps for one window offset.
fn append_scatter<S: Scalar>(
    steps: &mut Vec<Step<S>>,
    t: &[usize],
    s: &[usize],
    opt: &PoolOptions,
    j: usize,
)
    requires
        t@.len() == s@.len(),
        opt.window_size@.len() == s@.len(),
        opt.stride@.len() == s@.len(),
        s@.len() <= isize::MAX,
        unpool_ok(t@, s@, opt.window_size@, opt.stride@),
        0 <= j < shape::product(opt.window_size@),
        old(steps)@.len() > 0,
    ensures
        value::program(final(steps)@) == value::program(old(steps)@) + scatter_steps::<S>(
            t@,
            s@,
            opt.window_size@,
            opt.stride@,
            j as int,
            old(steps)@.len(),
        ),
{
    let n0 = steps.len();
    let ghost base = value::program(steps@);
    let ghost all = scatter_steps::<S>(
        t@,
        s@,
        opt.window_size@,
        opt.stride@,
        j as int,
        n0 as nat,
    );
    proof {
        shape::lemma_nonempty(opt.window_size@);
        shape::lemma_unravel_ravel(j as int, opt.window_size@);
    }
    let offset = shape::flat_to_multi(j, &opt.window_size);
    steps.push(Step::Bin(BinOp::Mul, Reg::In(0), Reg::Out(0)));
    assert(value::program(steps@) =~= base + all.subrange(0, 1));
    for d in 0..s.len()
        invariant
            t@.len() == s@.len(),
            opt.window_size@.len() == s@.len(),
            opt.stride@.len() == s@.len(),
            s@.len() <= isize::MAX,
            unpool_ok(t@, s@, opt.window_size@, opt.stride@),
            offset@ == shape::unravel(j as int, opt.window_size@),
            shape::in_shape(offset@, opt.window_size@),
            n0 == base.len(),
            n0 > 0,
            steps@.len() == n0 + 1 + d,
            all == scatter_steps::<S>(
                t@,
                s@,
                opt.window_size@,
                opt.stride@,
                j as int,
                n0 as nat,
            ),
            value::program(steps@) == base + all.subrange(0, 1 + d),
    {
        proof {
            lemma_scatter(t@, s@, opt.window_size@, opt.stride@, offset@, d as int);
        }
        let right = s[d] - offset[d] - (t[d] - 1) * opt.stride[d] - 1;
        let pad = padding::<S>(offset[d], right, opt.stride[d] - 1, one_axis(d as isize));
        let last = steps.len() - 1;
        let ghost before = value::program(steps@);
        steps.push(Step::Un(UnOp::Pad(pad), Reg::Out(last)));
        proof {
            let x = all[1 + d];
            assert(x == StepV::Un(UnOpV::Pad(pad@), Reg::Out(last)));
            assert(value::program(steps@) =~= before.push(x));
            assert(before.push(x) =~= base + all.subrange(0, 2 + d));
        }
    }
    if j > 0 {
        let last = steps.len() - 1;
        let ghost before = value::program(steps@);
        steps.push(Step::Bin(BinOp::Add, Reg::Out(n0 - 1), Reg::Out(last)));
        proof {
            assert(value::program(steps@) =~= before.push(all.last()));
        }
    }
    assert(value::program(steps@) =~= base + all);
}

/// The product program of a pooling operation.
pub(crate) fn pool_vjp<S: Scalar>(t: &[usize], s: &[usize], opt: &PoolOptions, average: bool) -> (r: Result<
    Rule<S>,
    EvalError,
>)
    requires
        s@.len() <= isize::MAX,
    ensures
        rule_is(r, pool_rule::<S>(t@, s@, opt.window_size@, opt.stride@, average)),
{
    let n = s.len();
    if opt.window_size.len() != n || opt.stride.len() != n || t.len() != n {
        return Err(EvalError::PoolRank);
    }
    let mut empty: bool = false;
    for d in 0..n
        invariant
            n == opt.window_size@.len(),
            empty == exists|i: int| 0 <= i < d && #[trigger] opt.window_size@[i] == 0,
    {
        if opt.window_size[d] == 0 {
            empty = true;
            assert(opt.window_size@[d as int] == 0);
        }
    }
    let zeros = Tensor::from_elem(tensor::copy_of(s), scalar::number::<S>(0))?;
    if empty {
        let steps: Vec<Step<S>> = vec![Step::Load(zeros)];
        assert(value::program(steps@) =~= seq![load_zeros::<S>(s@)]);
        return Ok(finish(steps));
    }
    for d in 0..n
        invariant
            n == s@.len(),
            n == t@.len(),
            n == opt.window_size@.len(),
            n == opt.stride@.len(),
            shape::fits(s@),
            forall|i: int| 0 <= i < n ==> #[trigger] opt.window_size@[i] != 0,
            forall|i: int|
                0 <= i < d ==> #[trigger] axis_unpools(
                    t@[i],
                    s@[i],
                    opt.window_size@[i],
                    opt.stride@[i],
                ),
    {
        let ghost fine = axis_unpools(
            t@[d as int],
            s@[d as int],
            opt.window_size@[d as int],
            opt.stride@[d as int],
        );
        if opt.stride[d] == 0 || t[d] == 0 {
            assert(!fine);
            return Err(EvalError::Window);
        }
        proof {
            let (a, b) = (t@[d as int] - 1, opt.stride@[d as int] as int);
            assert(0 <= a * b <= 0xffff_ffff_ffff_fffe * 0xffff_ffff_ffff_ffff) by (nonlinear_arith)
                requires
                    0 <= a <= 0xffff_ffff_ffff_fffe,
                    0 <= b <= 0xffff_ffff_ffff_ffff,
            ;
        }
        let reach = (t[d] as u128 - 1) * (opt.stride[d] as u128) + opt.window_size[d] as u128;
        if reach > s[d] as u128 {
            assert(!fine);
            return Err(EvalError::Window);
        }
    }
    proof {
        assert(unpool_ok(t@, s@, opt.window_size@, opt.stride@));
        assert forall|i: int| 0 <= i < n implies #[trigger] opt.window_size@[i] <= s@[i] by {
            assert(axis_unpools(t@[i], s@[i], opt.window_size@[i], opt.stride@[i]));
            let (a, b) = (t@[i] - 1, opt.stride@[i] as int);
            assert(a * b >= 0) by (nonlinear_arith)
                requires
                    a >= 0,
                    b >= 0,
            ;
        }
        crate::reduce::lemma_volume_monotone(opt.window_size@, s@);
        assert(opt.window_size@.subrange(0, n as int) =~= opt.window_size@);
    }
    let total = shape::size_of(&opt.window_size, 0, n);
    let one = scalar::number::<S>(1);
    let scale = if average {
        one.div(scalar::number::<S>(total as i128))
    } else {
        one
    };
    let mut steps: Vec<Step<S>> = vec![Step::Load(Tensor::from_scalar(scale))];
    assert(value::program(steps@) =~= seq![load_number(scale)]);
    for j in 0..total
        invariant
            t@.len() == s@.len(),
            opt.window_size@.len() == s@.len(),
            opt.stride@.len() == s@.len(),
            s@.len() <= isize::MAX,
            unpool_ok(t@, s@, opt.window_size@, opt.stride@),
            total == shape::product(opt.window_size@),
            steps@.len() > 0,
            value::program(steps@) == unpool_steps(
                t@,
                s@,
                opt.window_size@,
                opt.stride@,
                scale,
                j as nat,
            ),
    {
        let ghost len = value::program(steps@).len();
        append_scatter(&mut steps, t, s, opt, j);
        assert(value::program(steps@).len() >= len);
    }
    Ok(finish(steps))
}

// ---- the product programs as a whole ----
/// The product program of an operation; `shapes` holds the shape of the cotangent and those of
/// the other inputs.
pub open spec fn vjp_rule<S: Scalar>(p: PrimV<S>, shapes: Seq<Seq<usize>>) -> Result<
    RuleV<S>,
    Fault,
> {
    if exists|i: int| 0 <= i < shapes.len() && (#[trigger] shapes[i]).len() > isize::MAX {
        Err(Fault::Size)
    } else {
        match p {
            PrimV::Un(op, _) => match op {
                UnOpV::ExpandDims(_) | UnOpV::MoveAxis(_, _) => moving_rule(
                    op,
                    shapes[0],
                    Seq::empty(),
                ),
                UnOpV::Pool(window, stride, average) => pool_rule(
                    shapes[0],
                    shapes[1],
                    window,
                    stride,
                    average,
                ),
                _ => if model::is_pointwise(op) {
                    pointwise_rule(op, shapes[0])
                } else {
                    moving_rule(op, shapes[0], shapes[1])
                },
            },
            PrimV::Bin(op, _, _) => match op {
                BinOpV::Add => Ok(RuleV { steps: seq![], outs: seq![Reg::In(0), Reg::In(0)] }),
                BinOpV::Mul => Ok(
                    RuleV {
                        steps: seq![
                            StepV::Bin(BinOpV::Mul, Reg::In(0), Reg::In(2)),
                            StepV::Bin(BinOpV::Mul, Reg::In(1), Reg::In(0)),
                        ],
                        outs: seq![Reg::Out(0), Reg::Out(1)],
                    },
                ),
                BinOpV::Dot => Ok(dot_rule(shapes[1], shapes[2])),
                BinOpV::Conv(stride) => conv_rule(shapes[1], shapes[2], stride),
                BinOpV::ConvKernelGrad(_, _) => Err(Fault::Unsupported),
            },
            PrimV::Select(_, _, _) => if shape::fits(shapes[1]) {
                Ok(
                    RuleV {
                        steps: seq![
                            load_zeros(shapes[1]),
                            StepV::Select(Reg::In(1), Reg::In(0), Reg::Out(0)),
                            StepV::Select(Reg::In(1), Reg::Out(0), Reg::In(0)),
                        ],
                        outs: seq![Reg::Out(0), Reg::Out(1), Reg::Out(2)],
                    },
                )
            } else {
                Err(Fault::Size)
            },
        }
    }
}

/// The product program of an operation. `t` is the shape of the cotangent, `a` and `b` are those
/// of the other inputs, where there are any.
fn vjp_program<S: Scalar>(
    form: &Form<'_, S>,
    t: &[usize],
    a: Option<&[usize]>,
    b: Option<&[usize]>,
    Ghost(out): Ghost<AtomV<S>>,
    Ghost(shapes): Ghost<Seq<Seq<usize>>>,
) -> (r: Result<Rule<S>, EvalError>)
    requires
        vjp_needs(form@, out) is Ok,
        shapes.len() == 1 + vjp_needs(form@, out)->Ok_0.len(),
        shapes[0] == t@,
        shapes.len() > 1 ==> (a matches Some(s) && s@ == shapes[1]),
        shapes.len() > 2 ==> (b matches Some(s) && s@ == shapes[2]),
        shapes.len() <= 1 ==> a is None,
        shapes.len() <= 2 ==> b is None,
    ensures
        rule_is(r, vjp_rule(form@, shapes)),
{
    if t.len() > isize::MAX as usize {
        assert(shapes[0].len() > isize::MAX);
        return Err(EvalError::Size);
    }
    if let Some(s) = a {
        if s.len() > isize::MAX as usize {
            assert(shapes[1].len() > isize::MAX);
            return Err(EvalError::Size);
        }
    }
    if let Some(s) = b {
        if s.len() > isize::MAX as usize {
            assert(shapes[2].len() > isize::MAX);
            return Err(EvalError::Size);
        }
    }
    proof {
        assert forall|i: int| 0 <= i < shapes.len() implies (#[trigger] shapes[i]).len()
            <= isize::MAX by {
            assert(i == 0 || i == 1 || i == 2);
        }
    }
    let nothing: Vec<usize> = Vec::new();
    assert(nothing@ =~= Seq::<usize>::empty());
    let first: &[usize] = match a {
        Some(s) => s,
        None => &nothing,
    };
    let second: &[usize] = match b {
        Some(s) => s,
        None => &nothing,
    };
    match form {
        Form::Un(op, _) => match op {
            UnOp::ExpandDims(_) | UnOp::MoveAxis(_, _) => moving_vjp(op, t, first),
            UnOp::ReduceSum(_) | UnOp::Reshape(_) | UnOp::Slice(_, _, _, _) | UnOp::Pad(
                _,
            ) => moving_vjp(op, t, first),
            UnOp::Pool(o, average) => pool_vjp(t, first, o, *average),
            _ => pointwise_vjp(op, t),
        },
        Form::Bin(op, _, _) => match op {
            BinOp::Add => {
                let steps: Vec<Step<S>> = Vec::new();
                let outs: Vec<Reg> = vec![Reg::In(0), Reg::In(0)];
                assert(value::program(steps@) =~= seq![]);
                assert(outs@ =~= seq![Reg::In(0), Reg::In(0)]);
                Ok(Rule { steps, outs })
            },
            BinOp::Mul => {
                let steps: Vec<Step<S>> = vec![
                    Step::Bin(BinOp::Mul, Reg::In(0), Reg::In(2)),
                    Step::Bin(BinOp::Mul, Reg::In(1), Reg::In(0)),
                ];
                let outs: Vec<Reg> = vec![Reg::Out(0), Reg::Out(1)];
                proof {
                    let want = vjp_rule(form@, shapes)->Ok_0;
                    assert(value::program(steps@) =~= want.steps);
                    assert(outs@ =~= want.outs);
                }
                Ok(Rule { steps, outs })
            },
            BinOp::Dot => Ok(dot_vjp(first, second)),
            BinOp::Conv(stride) => conv_vjp(first, second, *stride),
            BinOp::ConvKernelGrad(_, _) => Err(EvalError::Unsupported),
        },
        Form::Select(_, _, _) => {
            let zeros = Tensor::from_elem(tensor::copy_of(first), scalar::number::<S>(0))?;
            let steps: Vec<Step<S>> = vec![
                Step::Load(zeros),
                Step::Select(Reg::In(1), Reg::In(0), Reg::Out(0)),
                Step::Select(Reg::In(1), Reg::Out(0), Reg::In(0)),
            ];
            let outs: Vec<Reg> = vec![Reg::Out(0), Reg::Out(1), Reg::Out(2)];
            proof {
                let want = vjp_rule(form@, shapes)->Ok_0;
                assert(value::program(steps@) =~= want.steps);
                assert(outs@ =~= want.outs);
            }
            Ok(Rule { steps, outs })
        },
    }
}

/// Some values of a finished program: those that the first `k` places name.
pub open spec fn picked_all<M>(outs: Seq<Reg>, inputs: Seq<M>, done: Seq<M>, k: nat) -> Result<
    Seq<M>,
    Fault,
>
    decreases k,
{
    if k == 0 {
        Ok(Seq::empty())
    } else {
        match (
            picked_all(outs, inputs, done, (k - 1) as nat),
            value::fetched(outs[k - 1], inputs, done),
        ) {
            (Ok(s), Some(v)) => Ok(s.push(v)),
            (Ok(_), None) => Err(Fault::Graph),
            (Err(f), _) => Err(f),
        }
    }
}

/// The results that a rule gives on its inputs.
pub open spec fn applied<S: Scalar, T: Value<S>>(c: T::C, rule: RuleV<S>, inputs: Seq<T::M>) -> (
    T::C,
    Result<Seq<T::M>, Fault>,
) {
    match value::run_steps::<S, T>(c, rule.steps, inputs) {
        (c2, Ok(d)) => (c2, picked_all(rule.outs, inputs, d, rule.outs.len())),
        (c2, Err(f)) => (c2, Err(f)),
    }
}

/// A missing value decides the outcome.
proof fn lemma_picked_missing<M>(outs: Seq<Reg>, inputs: Seq<M>, done: Seq<M>, i: nat, k: nat)
    requires
        i <= k,
        picked_all(outs, inputs, done, i) is Err,
    ensures
        picked_all(outs, inputs, done, k) == picked_all(outs, inputs, done, i),
    decreases k,
{
    if i < k {
        lemma_picked_missing(outs, inputs, done, i, (k - 1) as nat);
    }
}

/// The results that a rule gives on its inputs.
pub fn apply_rule<S: Scalar, T: Value<S>>(rule: &Rule<S>, inputs: &Vec<T>, cx: &mut T::Cx) -> (r:
    Result<Vec<T>, EvalError>)
    ensures
        (T::c(final(cx)), value::results::<S, T>(r)) == applied::<S, T>(
            T::c(old(cx)),
            rule@,
            value::models::<S, T>(inputs@),
        ),
{
    let done = value::perform::<S, T>(&rule.steps, inputs, cx)?;
    let ghost ins = value::models::<S, T>(inputs@);
    let ghost res = value::models::<S, T>(done@);
    let mut out: Vec<T> = Vec::new();
    assert(value::models::<S, T>(out@) =~= Seq::<T::M>::empty());
    for i in 0..rule.outs.len()
        invariant
            ins == value::models::<S, T>(inputs@),
            res == value::models::<S, T>(done@),
            applied::<S, T>(T::c(old(cx)), rule@, ins) == (
                T::c(cx),
                picked_all(rule.outs@, ins, res, rule.outs@.len()),
            ),
            picked_all(rule.outs@, ins, res, i as nat) == Ok::<Seq<T::M>, Fault>(
                value::models::<S, T>(out@),
            ),
    {
        match pick::<S, T>(inputs, &done, rule.outs[i]) {
            Ok(v) => {
                let ghost before = value::models::<S, T>(out@);
                out.push(v);
                assert(value::models::<S, T>(out@) =~= before.push(v.m()));
            },
            Err(e) => {
                proof {
                    lemma_picked_missing(
                        rule.outs@,
                        ins,
                        res,
                        (i + 1) as nat,
                        rule.outs@.len(),
                    );
                }
                return Err(e);
            },
        }
    }
    Ok(out)
}

/// The values of the first `k` operands; an operand without a value is an error.
pub open spec fn resolved_all<S: Scalar, T: Value<S>>(
    e: Map<Seq<char>, T::M>,
    atoms: Seq<AtomV<S>>,
    k: nat,
) -> Result<Seq<T::M>, Fault>
    decreases k,
{
    if k == 0 {
        Ok(Seq::empty())
    } else {
        match resolved_all::<S, T>(e, atoms, (k - 1) as nat) {
            Ok(s) => match env::resolved::<S, T>(e, atoms[k - 1]) {
                Ok(v) => Ok(s.push(v)),
                Err(f) => Err(f),
            },
            Err(f) => Err(f),
        }
    }
}

/// The shapes of some values.
pub open spec fn shapes_of<S: Scalar, T: Value<S>>(v: Seq<T::M>) -> Seq<Seq<usize>> {
    Seq::new(v.len(), |i: int| T::shape_of(v[i]))
}

/// The cotangents of the operands of an operation with result `out`, for the cotangents that
/// `cot` holds and the values that `primals` holds.
pub open spec fn vjp_values<S: Scalar, T: Value<S>>(
    c: T::C,
    p: PrimV<S>,
    out: AtomV<S>,
    primals: Map<Seq<char>, T::M>,
    cot: Map<Seq<char>, T::M>,
) -> (T::C, Result<Seq<T::M>, Fault>) {
    match env::resolved::<S, T>(cot, out) {
        Err(f) => (c, Err(f)),
        Ok(t) => match vjp_needs(p, out) {
            Err(f) => (c, Err(f)),
            Ok(needs) => match resolved_all::<S, T>(primals, needs, needs.len()) {
                Err(f) => (c, Err(f)),
                Ok(v) => match vjp_rule(p, shapes_of::<S, T>(seq![t] + v)) {
                    Err(f) => (c, Err(f)),
                    Ok(rule) => applied::<S, T>(c, rule, seq![t] + v),
                },
            },
        },
    }
}

/// The operands that a product program reads.
enum Needs<'a, S> {
    Nothing,
    One(&'a Atom<S>),
    Two(&'a Atom<S>, &'a Atom<S>),
}

/// The operands that a product program reads.
fn needs<'a, S: Scalar>(form: &Form<'a, S>, out: &'a Atom<S>) -> (r: Result<Needs<'a, S>, EvalError>)
    ensures
        match (r, vjp_needs(form@, out@)) {
            (Ok(Needs::Nothing), Ok(v)) => v == Seq::<AtomV<S>>::empty(),
            (Ok(Needs::One(a)), Ok(v)) => v == seq![a@],
            (Ok(Needs::Two(a, b)), Ok(v)) => v == seq![a@, b@],
            (Err(e), Err(f)) => e@ == f,
            _ => false,
        },
{
    match form {
        Form::Un(op, a) => match op {
            UnOp::Neg | UnOp::ExpandDims(_) | UnOp::MoveAxis(_, _) => Ok(Needs::Nothing),
            UnOp::Sqrt | UnOp::Exp | UnOp::Relu => Ok(Needs::One(out)),
            _ => Ok(Needs::One(*a)),
        },
        Form::Bin(op, a, b) => match op {
            BinOp::Add => Ok(Needs::Nothing),
            BinOp::ConvKernelGrad(_, _) => Err(EvalError::Unsupported),
            _ => Ok(Needs::Two(*a, *b)),
        },
        Form::Select(c, _, _) => Ok(Needs::One(*c)),
    }
}

/// The cotangents of the operands of an operation with result `outvar`, for the cotangents that
/// `cotangents` holds and the values that `primals` holds.
pub fn vjp<S: Scalar, T: Value<S>>(
    form: &Form<'_, S>,
    outvar: &Atom<S>,
    primals: &env::Env<T>,
    cotangents: &env::Env<T>,
    cx: &mut T::Cx,
) -> (r: Result<Vec<T>, EvalError>)
    ensures
        (T::c(final(cx)), value::results::<S, T>(r)) == vjp_values::<S, T>(
            T::c(old(cx)),
            form@,
            outvar@,
            env::scope::<S, T>(primals@),
            env::scope::<S, T>(cotangents@),
        ),
{
    let tangent: T = cotangents.resolve(outvar)?;
    let ghost scope = env::scope::<S, T>(primals@);
    let mut inputs: Vec<T> = vec![tangent];
    let needed = needs(form, outvar)?;
    let ghost list = vjp_needs(form@, outvar@)->Ok_0;
    proof {
        reveal_with_fuel(resolved_all, 3);
    }
    match needed {
        Needs::Nothing => {},
        Needs::One(a) => {
            let v: T = primals.resolve(a)?;
            inputs.push(v);
        },
        Needs::Two(a, b) => {
            let v: T = primals.resolve(a)?;
            let w: T = primals.resolve(b)?;
            inputs.push(v);
            inputs.push(w);
        },
    }
    let ghost ins = value::models::<S, T>(inputs@);
    let ghost shapes = shapes_of::<S, T>(ins);
    proof {
        let v = resolved_all::<S, T>(scope, list, list.len());
        assert(v is Ok);
        assert(ins =~= seq![tangent.m()] + v->Ok_0);
    }
    let first: Option<&[usize]> = if inputs.len() > 1 {
        Some(inputs[1].dims())
    } else {
        None
    };
    let second: Option<&[usize]> = if inputs.len() > 2 {
        Some(inputs[2].dims())
    } else {
        None
    };
    let rule = vjp_program::<S>(
        form,
        inputs[0].dims(),
        first,
        second,
        Ghost(outvar@),
        Ghost(shapes),
    )?;
    apply_rule::<S, T>(&rule, &inputs, cx)
}

/// The results that a program gives, if there is one.
pub open spec fn outcome<S: Scalar, T: Value<S>>(
    c: T::C,
    rule: Result<RuleV<S>, Fault>,
    inputs: Seq<T::M>,
) -> (T::C, Result<Seq<T::M>, Fault>) {
    match rule {
        Ok(r) => applied::<S, T>(c, r, inputs),
        Err(f) => (c, Err(f)),
    }
}

/// The cotangent of the operand of a sum over `axes`.
pub fn vjp_reducesum<S: Scalar, T: Value<S>>(
    operand: &T,
    tangent: &T,
    axes: &[isize],
    cx: &mut T::Cx,
) -> (r: Result<Vec<T>, EvalError>)
    requires
        T::shape_of(operand.m()).len() <= isize::MAX,
    ensures
        (T::c(final(cx)), value::results::<S, T>(r)) == outcome::<S, T>(
            T::c(old(cx)),
            moving_rule(
                UnOpV::ReduceSum(axes@),
                T::shape_of(tangent.m()),
                T::shape_of(operand.m()),
            ),
            seq![tangent.m()],
        ),
{
    let rule = moving_vjp::<S>(
        &UnOp::ReduceSum(op::copy_signed(axes)),
        tangent.dims(),
        operand.dims(),
    )?;
    let inputs: Vec<T> = vec![tangent.copy()];
    assert(value::models::<S, T>(inputs@) =~= seq![tangent.m()]);
    apply_rule::<S, T>(&rule, &inputs, cx)
}

/// The cotangent of the operand of an insertion of axes.
pub fn vjp_expanddims<S: Scalar, T: Value<S>>(tangent: &T, axes: &[isize], cx: &mut T::Cx) -> (r:
    Result<Vec<T>, EvalError>)
    ensures
        (T::c(final(cx)), value::results::<S, T>(r)) == outcome::<S, T>(
            T::c(old(cx)),
            moving_rule(UnOpV::ExpandDims(axes@), T::shape_of(tangent.m()), Seq::empty()),
            seq![tangent.m()],
        ),
{
    let nothing: Vec<usize> = Vec::new();
    assert(nothing@ =~= Seq::<usize>::empty());
    let rule = moving_vjp::<S>(
        &UnOp::ExpandDims(op::copy_signed(axes)),
        tangent.dims(),
        &nothing,
    )?;
    let inputs: Vec<T> = vec![tangent.copy()];
    assert(value::models::<S, T>(inputs@) =~= seq![tangent.m()]);
    apply_rule::<S, T>(&rule, &inputs, cx)
}

/// The cotangent of the operand of a move of an axis.
pub fn vjp_moveaxis<S: Scalar, T: Value<S>>(
    tangent: &T,
    source: isize,
    destination: isize,
    cx: &mut T::Cx,
) -> (r: Result<Vec<T>, EvalError>)
    ensures
        (T::c(final(cx)), value::results::<S, T>(r)) == outcome::<S, T>(
            T::c(old(cx)),
            moving_rule(
                UnOpV::MoveAxis(source, destination),
                T::shape_of(tangent.m()),
                Seq::empty(),
            ),
            seq![tangent.m()],
        ),
{
    let nothing: Vec<usize> = Vec::new();
    assert(nothing@ =~= Seq::<usize>::empty());
    let rule = moving_vjp::<S>(&UnOp::MoveAxis(source, destination), tangent.dims(), &nothing)?;
    let inputs: Vec<T> = vec![tangent.copy()];
    assert(value::models::<S, T>(inputs@) =~= seq![tangent.m()]);
    apply_rule::<S, T>(&rule, &inputs, cx)
}

/// The cotangent of the operand of a reshape.
pub fn vjp_reshape<S: Scalar, T: Value<S>>(operand: &T, tangent: &T, cx: &mut T::Cx) -> (r: Result<
    Vec<T>,
    EvalError,
>)
    requires
        T::shape_of(operand.m()).len() <= isize::MAX,
    ensures
        (T::c(final(cx)), value::results::<S, T>(r)) == outcome::<S, T>(
            T::c(old(cx)),
            moving_rule(
                UnOpV::Reshape(Seq::empty()),
                T::shape_of(tangent.m()),
                T::shape_of(operand.m()),
            ),
            seq![tangent.m()],
        ),
{
    let nothing: Vec<isize> = Vec::new();
    assert(nothing@ =~= Seq::<isize>::empty());
    let rule = moving_vjp::<S>(&UnOp::Reshape(nothing), tangent.dims(), operand.dims())?;
    let inputs: Vec<T> = vec![tangent.copy()];
    assert(value::models::<S, T>(inputs@) =~= seq![tangent.m()]);
    apply_rule::<S, T>(&rule, &inputs, cx)
}

} // verus!
