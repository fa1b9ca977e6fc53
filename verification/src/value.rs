//! Values: what the interpreters compute with, and short programs over them.

use vstd::prelude::*;
use crate::error::EvalError;
use crate::model;
use crate::model::{BinOpV, Fault, TensorV, UnOpV};
use crate::op::{BinOp, UnOp};
use crate::scalar::Scalar;
use crate::tensor::Tensor;

verus! {

/// A kind of values that the tensor operations act on: tensors themselves, intervals of
/// tensors, or symbols that stand for tensors. An operation may act on a context beside its
/// operands.
pub trait Value<S: Scalar>: Sized {
    /// A mathematical value.
    type M;

    /// What the operations act on beside their operands.
    type Cx;

    /// A mathematical context.
    type C;

    /// The mathematical value.
    spec fn m(&self) -> Self::M;

    /// The mathematical context.
    spec fn c(cx: &Self::Cx) -> Self::C;

    /// The shape of a value.
    spec fn shape_of(m: Self::M) -> Seq<usize>;

    /// The value that stands for a tensor.
    spec fn constant(t: TensorV<S>) -> Self::M;

    /// The tensor that a value is, where it is one.
    spec fn tensor_of(m: Self::M) -> Option<TensorV<S>>;

    /// An operation on one value.
    spec fn unary(c: Self::C, op: UnOpV<S>, a: Self::M) -> (Self::C, Result<Self::M, Fault>);

    /// An operation on two values.
    spec fn binary(c: Self::C, op: BinOpV, a: Self::M, b: Self::M) -> (
        Self::C,
        Result<Self::M, Fault>,
    );

    /// The selection between two values by a third.
    spec fn select(c: Self::C, p: Self::M, x: Self::M, y: Self::M) -> (
        Self::C,
        Result<Self::M, Fault>,
    );

    /// The shape.
    fn dims(&self) -> (r: &[usize])
        ensures
            r@ == Self::shape_of(self.m()),
    ;

    /// A copy.
    fn copy(&self) -> (r: Self)
        ensures
            r.m() == self.m(),
    ;

    /// The value that stands for a tensor.
    fn lift(t: Tensor<S>) -> (r: Self)
        ensures
            r.m() == Self::constant(t@),
    ;

    /// The tensor that the value is, where it is one.
    fn as_tensor(&self) -> (r: Option<&Tensor<S>>)
        ensures
            match r {
                Some(t) => Self::tensor_of(self.m()) == Some(t@),
                None => Self::tensor_of(self.m()) is None,
            },
    ;

    /// An operation on one value.
    fn apply1(&self, op: &UnOp<S>, cx: &mut Self::Cx) -> (r: Result<Self, EvalError>)
        ensures
            Self::c(final(cx)) == Self::unary(Self::c(old(cx)), op@, self.m()).0,
            match (r, Self::unary(Self::c(old(cx)), op@, self.m()).1) {
                (Ok(v), Ok(w)) => v.m() == w,
                (Err(e), Err(f)) => e@ == f,
                _ => false,
            },
    ;

    /// An operation on two values.
    fn apply2(&self, op: &BinOp, b: &Self, cx: &mut Self::Cx) -> (r: Result<Self, EvalError>)
        ensures
            Self::c(final(cx)) == Self::binary(Self::c(old(cx)), op@, self.m(), b.m()).0,
            match (r, Self::binary(Self::c(old(cx)), op@, self.m(), b.m()).1) {
                (Ok(v), Ok(w)) => v.m() == w,
                (Err(e), Err(f)) => e@ == f,
                _ => false,
            },
    ;

    /// The selection between two values by a third.
    fn apply3(p: &Self, x: &Self, y: &Self, cx: &mut Self::Cx) -> (r: Result<Self, EvalError>)
        ensures
            Self::c(final(cx)) == Self::select(Self::c(old(cx)), p.m(), x.m(), y.m()).0,
            match (r, Self::select(Self::c(old(cx)), p.m(), x.m(), y.m()).1) {
                (Ok(v), Ok(w)) => v.m() == w,
                (Err(e), Err(f)) => e@ == f,
                _ => false,
            },
    ;
}

/// A result that holds a value, over mathematical values.
pub open spec fn result<S: Scalar, T: Value<S>>(r: Result<T, EvalError>) -> Result<T::M, Fault> {
    match r {
        Ok(v) => Ok(v.m()),
        Err(e) => Err(e@),
    }
}

/// The mathematical values of a list.
pub open spec fn models<S: Scalar, T: Value<S>>(v: Seq<T>) -> Seq<T::M> {
    Seq::new(v.len(), |i: int| v[i].m())
}

/// A result that holds a list of values, over mathematical values.
pub open spec fn results<S: Scalar, T: Value<S>>(r: Result<Vec<T>, EvalError>) -> Result<
    Seq<T::M>,
    Fault,
> {
    match r {
        Ok(v) => Ok(models::<S, T>(v@)),
        Err(e) => Err(e@),
    }
}

impl<S: Scalar> Value<S> for Tensor<S> {
    type M = TensorV<S>;

    type Cx = ();

    type C = ();

    open spec fn m(&self) -> TensorV<S> {
        self@
    }

    open spec fn c(cx: &()) -> () {
        ()
    }

    open spec fn shape_of(m: TensorV<S>) -> Seq<usize> {
        m.shape
    }

    open spec fn constant(t: TensorV<S>) -> TensorV<S> {
        t
    }

    open spec fn tensor_of(m: TensorV<S>) -> Option<TensorV<S>> {
        Some(m)
    }

    open spec fn unary(c: (), op: UnOpV<S>, a: TensorV<S>) -> ((), Result<TensorV<S>, Fault>) {
        ((), model::un_tensor(op, a))
    }

    open spec fn binary(c: (), op: BinOpV, a: TensorV<S>, b: TensorV<S>) -> (
        (),
        Result<TensorV<S>, Fault>,
    ) {
        ((), model::bin_tensor(op, a, b))
    }

    open spec fn select(c: (), p: TensorV<S>, x: TensorV<S>, y: TensorV<S>) -> (
        (),
        Result<TensorV<S>, Fault>,
    ) {
        ((), model::select_tensor(p, x, y))
    }

    fn dims(&self) -> (r: &[usize]) {
        self.shape()
    }

    fn copy(&self) -> (r: Self) {
        self.dup()
    }

    fn lift(t: Tensor<S>) -> (r: Self) {
        t
    }

    fn as_tensor(&self) -> (r: Option<&Tensor<S>>) {
        Some(self)
    }

    fn apply1(&self, op: &UnOp<S>, cx: &mut ()) -> (r: Result<Self, EvalError>) {
        Tensor::unary(self, op)
    }

    fn apply2(&self, op: &BinOp, b: &Self, cx: &mut ()) -> (r: Result<Self, EvalError>) {
        self.pairwise(op, b)
    }

    fn apply3(p: &Self, x: &Self, y: &Self, cx: &mut ()) -> (r: Result<Self, EvalError>) {
        Tensor::select(p, x, y)
    }
}

/// An operand of a step of a program: an input, or the result of an earlier step.
#[derive(Debug, Clone, Copy, PartialEq, Eq)]
pub enum Reg {
    /// Input number `i`
    In(usize),
    /// The result of step number `i`
    Out(usize),
}

/// A step of a program.
#[derive(Debug, PartialEq)]
pub enum Step<S> {
    /// A constant
    Load(Tensor<S>),
    /// An operation on one value
    Un(UnOp<S>, Reg),
    /// An operation on two values
    Bin(BinOp, Reg, Reg),
    /// The selection between two values by a third
    Select(Reg, Reg, Reg),
    /// The sum along all axes
    SumAll(Reg),
}

/// A mathematical step of a program.
#[verifier::ext_equal]
pub enum StepV<S> {
    Load(TensorV<S>),
    Un(UnOpV<S>, Reg),
    Bin(BinOpV, Reg, Reg),
    Select(Reg, Reg, Reg),
    SumAll(Reg),
}

impl<S> View for Step<S> {
    type V = StepV<S>;

    open spec fn view(&self) -> StepV<S> {
        match self {
            Step::Load(t) => StepV::Load(t@),
            Step::Un(op, a) => StepV::Un(op@, *a),
            Step::Bin(op, a, b) => StepV::Bin(op@, *a, *b),
            Step::Select(p, x, y) => StepV::Select(*p, *x, *y),
            Step::SumAll(a) => StepV::SumAll(*a),
        }
    }
}

/// The mathematical steps of a program.
pub open spec fn program<S>(v: Seq<Step<S>>) -> Seq<StepV<S>> {
    Seq::new(v.len(), |i: int| v[i]@)
}

/// The numbers of all axes of a tensor of rank `n`.
pub open spec fn all_axes(n: nat) -> Seq<isize> {
    Seq::new(n, |i: int| i as isize)
}

/// The value that an operand names, if there is one.
pub open spec fn fetched<M>(r: Reg, inputs: Seq<M>, done: Seq<M>) -> Option<M> {
    match r {
        Reg::In(i) => if i < inputs.len() {
            Some(inputs[i as int])
        } else {
            None
        },
        Reg::Out(i) => if i < done.len() {
            Some(done[i as int])
        } else {
            None
        },
    }
}

/// One step of a program, on its inputs and the results of the steps done.
pub open spec fn step<S: Scalar, T: Value<S>>(
    c: T::C,
    s: StepV<S>,
    inputs: Seq<T::M>,
    done: Seq<T::M>,
) -> (T::C, Result<T::M, Fault>) {
    match s {
        StepV::Load(t) => (c, Ok(T::constant(t))),
        StepV::Un(op, a) => match fetched(a, inputs, done) {
            Some(x) => T::unary(c, op, x),
            None => (c, Err(Fault::Graph)),
        },
        StepV::Bin(op, a, b) => match (fetched(a, inputs, done), fetched(b, inputs, done)) {
            (Some(x), Some(y)) => T::binary(c, op, x, y),
            _ => (c, Err(Fault::Graph)),
        },
        StepV::Select(p, a, b) => match (
            fetched(p, inputs, done),
            fetched(a, inputs, done),
            fetched(b, inputs, done),
        ) {
            (Some(q), Some(x), Some(y)) => T::select(c, q, x, y),
            _ => (c, Err(Fault::Graph)),
        },
        StepV::SumAll(a) => match fetched(a, inputs, done) {
            Some(x) => T::unary(c, UnOpV::ReduceSum(all_axes(T::shape_of(x).len())), x),
            None => (c, Err(Fault::Graph)),
        },
    }
}

/// The results of all steps of a program, some of which are done.
pub open spec fn play<S: Scalar, T: Value<S>>(
    c: T::C,
    steps: Seq<StepV<S>>,
    inputs: Seq<T::M>,
    done: Seq<T::M>,
) -> (T::C, Result<Seq<T::M>, Fault>)
    decreases steps.len() - done.len(),
{
    if done.len() >= steps.len() {
        (c, Ok(done))
    } else {
        match step::<S, T>(c, steps[done.len() as int], inputs, done) {
            (c2, Ok(v)) => play::<S, T>(c2, steps, inputs, done.push(v)),
            (c2, Err(e)) => (c2, Err(e)),
        }
    }
}

/// The results of all steps of a program.
pub open spec fn run_steps<S: Scalar, T: Value<S>>(
    c: T::C,
    steps: Seq<StepV<S>>,
    inputs: Seq<T::M>,
) -> (T::C, Result<Seq<T::M>, Fault>) {
    play::<S, T>(c, steps, inputs, Seq::empty())
}

/// The numbers of all axes of a tensor of rank `n`.
pub fn axes_upto(n: usize) -> (r: Vec<isize>)
    ensures
        r@ == all_axes(n as nat),
{
    let mut out: Vec<isize> = Vec::new();
    for i in 0..n
        invariant
            out@ == all_axes(i as nat),
    {
        out.push(i as isize);
        assert(out@ =~= all_axes((i + 1) as nat));
    }
    out
}

/// The value that an operand names, if there is one.
pub fn fetch<'a, S: Scalar, T: Value<S>>(r: Reg, inputs: &'a Vec<T>, done: &'a Vec<T>) -> (o: Option<
    &'a T,
>)
    ensures
        match o {
            Some(v) => fetched(r, models::<S, T>(inputs@), models::<S, T>(done@)) == Some(v.m()),
            None => fetched(r, models::<S, T>(inputs@), models::<S, T>(done@)) is None,
        },
{
    match r {
        Reg::In(i) => if i < inputs.len() {
            Some(&inputs[i])
        } else {
            None
        },
        Reg::Out(i) => if i < done.len() {
            Some(&done[i])
        } else {
            None
        },
    }
}

/// One step of a program.
fn run_step<S: Scalar, T: Value<S>>(
    s: &Step<S>,
    inputs: &Vec<T>,
    done: &Vec<T>,
    cx: &mut T::Cx,
) -> (r: Result<T, EvalError>)
    ensures
        (T::c(final(cx)), result::<S, T>(r)) == step::<S, T>(
            T::c(old(cx)),
            s@,
            models::<S, T>(inputs@),
            models::<S, T>(done@),
        ),
{
    match s {
        Step::Load(t) => Ok(T::lift(t.dup())),
        Step::Un(op, a) => match fetch::<S, T>(*a, inputs, done) {
            Some(x) => x.apply1(op, cx),
            None => Err(EvalError::Graph),
        },
        Step::Bin(op, a, b) => match (
            fetch::<S, T>(*a, inputs, done),
            fetch::<S, T>(*b, inputs, done),
        ) {
            (Some(x), Some(y)) => x.apply2(op, y, cx),
            _ => Err(EvalError::Graph),
        },
        Step::Select(p, a, b) => match (
            fetch::<S, T>(*p, inputs, done),
            fetch::<S, T>(*a, inputs, done),
            fetch::<S, T>(*b, inputs, done),
        ) {
            (Some(q), Some(x), Some(y)) => T::apply3(q, x, y, cx),
            _ => Err(EvalError::Graph),
        },
        Step::SumAll(a) => match fetch::<S, T>(*a, inputs, done) {
            Some(x) => {
                let axes = axes_upto(x.dims().len());
                x.apply1(&UnOp::ReduceSum(axes), cx)
            },
            None => Err(EvalError::Graph),
        },
    }
}

/// Runs a program and gives the results of all its steps.
pub fn perform<S: Scalar, T: Value<S>>(
    steps: &Vec<Step<S>>,
    inputs: &Vec<T>,
    cx: &mut T::Cx,
) -> (r: Result<Vec<T>, EvalError>)
    ensures
        (T::c(final(cx)), results::<S, T>(r)) == run_steps::<S, T>(
            T::c(old(cx)),
            program(steps@),
            models::<S, T>(inputs@),
        ),
{
    let mut done: Vec<T> = Vec::new();
    let ghost goal = run_steps::<S, T>(T::c(cx), program(steps@), models::<S, T>(inputs@));
    assert(models::<S, T>(done@) =~= Seq::<T::M>::empty());
    for i in 0..steps.len()
        invariant
            done@.len() == i,
            goal == play::<S, T>(
                T::c(cx),
                program(steps@),
                models::<S, T>(inputs@),
                models::<S, T>(done@),
            ),
            goal == run_steps::<S, T>(
                T::c(old(cx)),
                program(steps@),
                models::<S, T>(inputs@),
            ),
    {
        let ghost before = models::<S, T>(done@);
        match run_step::<S, T>(&steps[i], inputs, &done, cx) {
            Ok(v) => {
                done.push(v);
                assert(models::<S, T>(done@) =~= before.push(v.m()));
            },
            Err(e) => {
                return Err(e);
            },
        }
    }
    Ok(done)
}

} // verus!
