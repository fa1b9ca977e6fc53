//! Batches of intervals: the first axis of both ends runs through the members of the batch.

use vstd::prelude::*;
use crate::env;
use crate::env::Env;
use crate::error::EvalError;
use crate::eval;
use crate::eval::{EvalGenInterpreter, Interpreter};
use crate::interval;
use crate::interval::{IBPTensor, IBPV};
use crate::manipulate;
use crate::model;
use crate::model::{BinOpV, Fault, PadV, TensorV, UnOpV};
use crate::nn::{Atom, ComputeGraph, GraphV, PrimV, Primitive};
use crate::op;
use crate::op::{BinOp, PaddingOptions, PoolOptions, UnOp};
use crate::scalar;
use crate::scalar::Scalar;
use crate::shape;
use crate::tensor;
use crate::tensor::Tensor;
use crate::value;
use crate::value::Value;

verus! {

/// A batch of intervals.
#[derive(Debug)]
pub struct IBPBatchedTensor<S> {
    lb: Tensor<S>,
    ub: Tensor<S>,
    shared: bool,
}

/// A mathematical batch of intervals, or a constant that all members share.
#[verifier::ext_equal]
pub struct BatchV<S> {
    pub lb: TensorV<S>,
    pub ub: TensorV<S>,
    pub shared: bool,
}

impl<S> View for IBPBatchedTensor<S> {
    type V = BatchV<S>;

    closed spec fn view(&self) -> BatchV<S> {
        BatchV { lb: self.lb@, ub: self.ub@, shared: self.shared }
    }
}

impl<S> IBPBatchedTensor<S> {
    #[verifier::type_invariant]
    spec fn inv(self) -> bool {
        self.lb@.shape == self.ub@.shape
    }
}

/// The batch as one interval.
pub open spec fn whole<S: Scalar>(b: BatchV<S>) -> IBPV<S> {
    interval::between(b.lb, b.ub)
}

/// An interval as a batch.
pub open spec fn as_batch<S>(x: IBPV<S>) -> BatchV<S> {
    BatchV { lb: x.lb, ub: x.ub, shared: false }
}

/// A result, with the note whether all members share it.
pub open spec fn marked<S>(r: Result<BatchV<S>, Fault>, shared: bool) -> Result<BatchV<S>, Fault> {
    match r {
        Ok(b) => Ok(BatchV { shared, ..b }),
        Err(f) => Err(f),
    }
}

/// A result that holds an interval, as one that holds a batch.
pub open spec fn batch_result<S>(r: Result<IBPV<S>, Fault>) -> Result<BatchV<S>, Fault> {
    match r {
        Ok(x) => Ok(as_batch(x)),
        Err(f) => Err(f),
    }
}

/// An axis number behind the batch axis.
pub open spec fn shifted(ax: isize) -> isize {
    if 0 <= ax < isize::MAX {
        (ax + 1) as isize
    } else {
        ax
    }
}

/// Axis numbers behind the batch axis.
pub open spec fn shifted_all(axes: Seq<isize>) -> Seq<isize> {
    Seq::new(axes.len(), |i: int| shifted(axes[i]))
}

/// Whether an axis number can be moved behind the batch axis.
pub open spec fn shiftable(axes: Seq<isize>) -> bool {
    forall|i: int| 0 <= i < axes.len() ==> #[trigger] axes[i] < isize::MAX
}

/// The tensor with its elements in another shape.
pub open spec fn reshaped<S>(t: TensorV<S>, s: Seq<usize>) -> Result<TensorV<S>, Fault> {
    if !shape::fits(s) {
        Err(Fault::Size)
    } else if t.data.len() != shape::product(s) {
        Err(Fault::Reshape)
    } else {
        Ok(TensorV { shape: s, data: t.data })
    }
}

/// The shape of rank four with the first two axes of a shape of rank five merged.
pub open spec fn merged(s: Seq<usize>) -> Result<Seq<usize>, Fault> {
    if s[0] * s[1] > usize::MAX {
        Err(Fault::Size)
    } else {
        Ok(seq![(s[0] * s[1]) as usize, s[2], s[3], s[4]])
    }
}

/// The shape of rank five with the first axis of a shape of rank four split as in `s`.
pub open spec fn unmerged(s: Seq<usize>, o: Seq<usize>) -> Seq<usize> {
    seq![s[0], s[1], o[1], o[2], o[3]]
}

/// A convolution of every member of a batch.
pub open spec fn conv_batch<S: Scalar>(a: TensorV<S>, k: TensorV<S>, stride: isize) -> Result<
    TensorV<S>,
    Fault,
> {
    if a.shape.len() != 5 {
        Err(Fault::ConvRank)
    } else {
        match merged(a.shape) {
            Err(f) => Err(f),
            Ok(m) => match reshaped(a, m) {
                Err(f) => Err(f),
                Ok(flat) => match model::bin_tensor(BinOpV::Conv(stride), flat, k) {
                    Err(f) => Err(f),
                    Ok(o) => reshaped(o, unmerged(a.shape, o.shape)),
                },
            },
        }
    }
}

/// A pooling of every member of a batch.
pub open spec fn pool_batch<S: Scalar>(
    a: TensorV<S>,
    window: Seq<usize>,
    stride: Seq<usize>,
    average: bool,
) -> Result<TensorV<S>, Fault> {
    let op = UnOpV::Pool(window, stride, average);
    if a.shape.len() != 5 {
        model::un_tensor(op, a)
    } else {
        match merged(a.shape) {
            Err(f) => Err(f),
            Ok(m) => match reshaped(a, m) {
                Err(f) => Err(f),
                Ok(flat) => match model::un_tensor(op, flat) {
                    Err(f) => Err(f),
                    Ok(o) => reshaped(o, unmerged(a.shape, o.shape)),
                },
            },
        }
    }
}

/// The operation that acts on every member of a batch as `op` acts on one.
pub open spec fn behind_batch<S: Scalar>(op: UnOpV<S>, a: TensorV<S>) -> Result<TensorV<S>, Fault> {
    match op {
        UnOpV::ReduceSum(axes) => if shiftable(axes) {
            model::un_tensor(UnOpV::ReduceSum(shifted_all(axes)), a)
        } else {
            Err(Fault::Axis)
        },
        UnOpV::ExpandDims(axes) => if shiftable(axes) {
            model::un_tensor(UnOpV::ExpandDims(shifted_all(axes)), a)
        } else {
            Err(Fault::Axis)
        },
        UnOpV::MoveAxis(s, d) => if s < isize::MAX && d < isize::MAX {
            model::un_tensor(UnOpV::MoveAxis(shifted(s), shifted(d)), a)
        } else {
            Err(Fault::Axis)
        },
        UnOpV::Reshape(d) => if a.shape.len() == 0 {
            Err(Fault::Axis)
        } else {
            model::un_tensor(UnOpV::Reshape(seq![a.shape[0] as isize] + d), a)
        },
        UnOpV::Slice(axis, start, end, step) => if axis < isize::MAX {
            model::un_tensor(UnOpV::Slice(shifted(axis), start, end, step), a)
        } else {
            Err(Fault::Axis)
        },
        UnOpV::Pad(p) => if shiftable(p.axes) {
            model::un_tensor(
                UnOpV::Pad(
                    PadV {
                        left: p.left,
                        right: p.right,
                        interior: p.interior,
                        axes: shifted_all(p.axes),
                        value: p.value,
                    },
                ),
                a,
            )
        } else {
            Err(Fault::Axis)
        },
        UnOpV::Pool(window, stride, average) => pool_batch(a, window, stride, average),
        _ => model::un_tensor(op, a),
    }
}

/// An operation on one batch.
pub open spec fn un_batch<S: Scalar>(op: UnOpV<S>, x: BatchV<S>) -> Result<BatchV<S>, Fault> {
    marked(un_members(op, x), x.shared)
}

/// The bounds of an operation on one batch.
pub open spec fn un_members<S: Scalar>(op: UnOpV<S>, x: BatchV<S>) -> Result<BatchV<S>, Fault> {
    match op {
        UnOpV::Neg | UnOpV::Square | UnOpV::Reciprocal | UnOpV::Gelu => batch_result(
            interval::un_interval(op, whole(x)),
        ),
        _ => match (behind_batch(op, x.lb), behind_batch(op, x.ub)) {
            (Ok(l), Ok(u)) => if l.shape == u.shape {
                Ok(BatchV { lb: l, ub: u, shared: false })
            } else {
                Err(Fault::Interval)
            },
            (Err(f), _) => Err(f),
            (_, Err(f)) => Err(f),
        },
    }
}

/// The product of activations and constant weights: the weights transposed where they are a
/// matrix.
pub open spec fn weigh<S: Scalar>(act: TensorV<S>, w: TensorV<S>) -> Result<TensorV<S>, Fault> {
    if act.shape.len() == 2 && w.shape.len() == 2 {
        match model::un_tensor(UnOpV::MoveAxis(0, 1), w) {
            Ok(t) => model::bin_tensor(BinOpV::Dot, act, t),
            Err(f) => Err(f),
        }
    } else if act.shape.len() == 2 && w.shape.len() == 1 {
        model::bin_tensor(BinOpV::Dot, act, w)
    } else {
        Err(Fault::Unsupported)
    }
}

/// A bilinear operation on the members of a batch.
#[derive(Debug, Clone, Copy, PartialEq, Eq)]
pub enum Bilinear {
    /// The product of activations and constant weights
    Weigh,
    /// The convolution of every member
    Conv(isize),
}

/// What a bilinear operation computes.
pub open spec fn bilinear<S: Scalar>(f: Bilinear, a: TensorV<S>, b: TensorV<S>) -> Result<
    TensorV<S>,
    Fault,
> {
    match f {
        Bilinear::Weigh => weigh(a, b),
        Bilinear::Conv(stride) => conv_batch(a, b, stride),
    }
}

/// An interval, if two results of one shape make one.
pub open spec fn around_results<S: Scalar>(
    m: Result<TensorV<S>, Fault>,
    r: Result<TensorV<S>, Fault>,
) -> Result<BatchV<S>, Fault> {
    match (m, r) {
        (Ok(x), Ok(y)) => if x.shape == y.shape {
            Ok(as_batch(interval::around(x, y)))
        } else {
            Err(Fault::Interval)
        },
        (Err(f), _) => Err(f),
        (_, Err(f)) => Err(f),
    }
}

/// The interval of a bilinear operation: around the result at the centre where one operand is a
/// point, else the hull of the results at the ends.
pub open spec fn bilinear_batch<S: Scalar>(f: Bilinear, a: IBPV<S>, b: IBPV<S>) -> Result<
    BatchV<S>,
    Fault,
> {
    if a.is_point {
        around_results(
            bilinear(f, a.lb, interval::middle(b.ub, b.lb)),
            bilinear(f, interval::magnitudes(a.lb), interval::radius(b.ub, b.lb)),
        )
    } else if b.is_point {
        around_results(
            bilinear(f, interval::middle(a.lb, a.ub), b.lb),
            bilinear(f, interval::radius(a.ub, a.lb), interval::magnitudes(b.lb)),
        )
    } else {
        match (
            bilinear(f, a.lb, b.lb),
            bilinear(f, a.lb, b.ub),
            bilinear(f, a.ub, b.lb),
            bilinear(f, a.ub, b.ub),
        ) {
            (Ok(ll), Ok(lu), Ok(ul), Ok(uu)) => if ll.shape == lu.shape && ll.shape == ul.shape
                && ll.shape == uu.shape {
                Ok(
                    BatchV {
                        lb: interval::least_of(ll, lu, ul, uu),
                        ub: interval::greatest_of(ll, lu, ul, uu),
                        shared: false,
                    },
                )
            } else {
                Err(Fault::Interval)
            },
            (Err(f), _, _, _) => Err(f),
            (_, Err(f), _, _) => Err(f),
            (_, _, Err(f), _) => Err(f),
            (_, _, _, Err(f)) => Err(f),
        }
    }
}

/// An operation on two batches.
pub open spec fn bin_batch<S: Scalar>(op: BinOpV, a: BatchV<S>, b: BatchV<S>) -> Result<
    BatchV<S>,
    Fault,
> {
    marked(bin_members(op, a, b), a.shared && b.shared)
}

/// The bounds of an operation on two batches. A constant on the left of a contraction holds the
/// weights of the members on the right.
pub open spec fn bin_members<S: Scalar>(op: BinOpV, a: BatchV<S>, b: BatchV<S>) -> Result<
    BatchV<S>,
    Fault,
> {
    match op {
        BinOpV::Dot => if a.shared && !b.shared {
            bilinear_batch(Bilinear::Weigh, whole(b), whole(a))
        } else {
            batch_result(interval::linear_interval(op, whole(a), whole(b)))
        },
        BinOpV::Conv(stride) => bilinear_batch(Bilinear::Conv(stride), whole(a), whole(b)),
        _ => batch_result(interval::bin_interval(op, whole(a), whole(b))),
    }
}

/// A result that holds a batch, over mathematical batches.
pub open spec fn batch_of<S>(r: Result<IBPBatchedTensor<S>, EvalError>) -> Result<
    BatchV<S>,
    Fault,
> {
    match r {
        Ok(t) => Ok(t@),
        Err(e) => Err(e@),
    }
}

/// Axis numbers behind the batch axis.
fn shift_all(axes: &[isize]) -> (r: Option<Vec<isize>>)
    ensures
        match r {
            Some(v) => shiftable(axes@) && v@ == shifted_all(axes@),
            None => !shiftable(axes@),
        },
{
    let mut out: Vec<isize> = Vec::new();
    for i in 0..axes.len()
        invariant
            out@ == shifted_all(axes@).subrange(0, i as int),
            forall|j: int| 0 <= j < i ==> #[trigger] axes@[j] < isize::MAX,
    {
        let ax = axes[i];
        if ax == isize::MAX {
            assert(axes@[i as int] == isize::MAX);
            return None;
        }
        out.push(
            if ax >= 0 {
                ax + 1
            } else {
                ax
            },
        );
        assert(out@ =~= shifted_all(axes@).subrange(0, i + 1));
    }
    assert(out@ =~= shifted_all(axes@));
    Some(out)
}

/// Merges the first two axes of a tensor of rank five.
fn merge<S: Scalar>(a: &Tensor<S>) -> (r: Result<Tensor<S>, EvalError>)
    requires
        a@.shape.len() == 5,
    ensures
        tensor::outcome(r) == (match merged(a@.shape) {
            Ok(m) => reshaped(a@, m),
            Err(f) => Err(f),
        }),
{
    let s = a.shape();
    let first: usize = match s[0].checked_mul(s[1]) {
        Some(p) => p,
        None => {
            return Err(EvalError::Size);
        },
    };
    let m: Vec<usize> = vec![first, s[2], s[3], s[4]];
    assert(m@ =~= merged(a@.shape)->Ok_0);
    manipulate::reshape_c(a, &m)
}

impl<S: Scalar> IBPBatchedTensor<S> {
    /// The batch between two tensors. Tensors of different shapes are an error.
    pub fn new(lb: Tensor<S>, ub: Tensor<S>) -> (r: Result<IBPBatchedTensor<S>, EvalError>)
        ensures
            batch_of(r) == (if lb@.shape == ub@.shape {
                Ok(BatchV { lb: lb@, ub: ub@, shared: false })
            } else {
                Err(Fault::Interval)
            }),
    {
        if !interval::same_shape(lb.shape(), ub.shape()) {
            return Err(EvalError::Interval);
        }
        Ok(IBPBatchedTensor { lb, ub, shared: false })
    }

    /// The lower ends.
    pub fn lb(&self) -> (r: &Tensor<S>)
        ensures
            r@ == self@.lb,
            self@.lb.shape == self@.ub.shape,
    {
        proof {
            use_type_invariant(self);
        }
        &self.lb
    }

    /// The upper ends.
    pub fn ub(&self) -> (r: &Tensor<S>)
        ensures
            r@ == self@.ub,
            self@.lb.shape == self@.ub.shape,
    {
        proof {
            use_type_invariant(self);
        }
        &self.ub
    }

    /// The batch as one interval.
    fn to_interval(&self) -> (r: IBPTensor<S>)
        ensures
            r@ == whole(self@),
    {
        proof {
            use_type_invariant(self);
        }
        IBPTensor::spanning(self.lb.dup(), self.ub.dup())
    }

    /// An interval as a batch.
    fn from_interval(x: &IBPTensor<S>) -> (r: IBPBatchedTensor<S>)
        ensures
            r@ == as_batch(x@),
    {
        IBPBatchedTensor { lb: x.lb().dup(), ub: x.ub().dup(), shared: false }
    }

    /// The batch with the note whether all members share it.
    fn mark(self, shared: bool) -> (r: IBPBatchedTensor<S>)
        ensures
            r@ == (BatchV { shared, ..self@ }),
    {
        proof {
            use_type_invariant(&self);
        }
        IBPBatchedTensor { lb: self.lb, ub: self.ub, shared }
    }

    /// The number of members.
    pub fn batch_size(&self) -> (r: usize)
        requires
            self@.lb.shape.len() > 0,
        ensures
            r == self@.lb.shape[0],
    {
        self.lb.shape()[0]
    }

    fn conv_batched(input: &Tensor<S>, kernel: &Tensor<S>, stride: isize) -> (r: Result<
        Tensor<S>,
        EvalError,
    >)
        ensures
            tensor::outcome(r) == conv_batch(input@, kernel@, stride),
    {
        let s = input.shape();
        if s.len() != 5 {
            return Err(EvalError::ConvRank);
        }
        let flat = merge(input)?;
        let out = flat.conv(kernel, stride)?;
        let o = out.shape();
        let back: Vec<usize> = vec![s[0], s[1], o[1], o[2], o[3]];
        assert(back@ =~= unmerged(input@.shape, out@.shape));
        manipulate::reshape_c(&out, &back)
    }

    fn pool_batched(a: &Tensor<S>, opt: &PoolOptions, average: bool) -> (r: Result<
        Tensor<S>,
        EvalError,
    >)
        ensures
            tensor::outcome(r) == pool_batch(a@, opt.window_size@, opt.stride@, average),
    {
        let s = a.shape();
        if s.len() != 5 {
            return a.pool(opt, average);
        }
        let flat = merge(a)?;
        let out = flat.pool(opt, average)?;
        let o = out.shape();
        let back: Vec<usize> = vec![s[0], s[1], o[1], o[2], o[3]];
        assert(back@ =~= unmerged(a@.shape, out@.shape));
        manipulate::reshape_c(&out, &back)
    }

    /// The operation that acts on every member of a batch as `op` acts on one.
    fn apply_behind(op: &UnOp<S>, a: &Tensor<S>) -> (r: Result<Tensor<S>, EvalError>)
        ensures
            tensor::outcome(r) == behind_batch(op@, a@),
    {
        match op {
            UnOp::ReduceSum(axes) => match shift_all(axes) {
                Some(v) => a.reduce_sum(&v),
                None => Err(EvalError::Axis),
            },
            UnOp::ExpandDims(axes) => match shift_all(axes) {
                Some(v) => a.expand_dims(&v),
                None => Err(EvalError::Axis),
            },
            UnOp::MoveAxis(s, d) => {
                if *s == isize::MAX || *d == isize::MAX {
                    return Err(EvalError::Axis);
                }
                let src: isize = if *s >= 0 {
                    *s + 1
                } else {
                    *s
                };
                let dst: isize = if *d >= 0 {
                    *d + 1
                } else {
                    *d
                };
                a.moveaxis(src, dst)
            },
            UnOp::Reshape(d) => {
                let s = a.shape();
                if s.len() == 0 {
                    return Err(EvalError::Axis);
                }
                let mut full: Vec<isize> = vec![s[0] as isize];
                for i in 0..d.len()
                    invariant
                        s@ == a@.shape,
                        s@.len() > 0,
                        full@ == seq![s@[0] as isize] + d@.subrange(0, i as int),
                {
                    full.push(d[i]);
                    assert(full@ =~= seq![s@[0] as isize] + d@.subrange(0, i + 1));
                }
                assert(full@ =~= seq![s@[0] as isize] + d@);
                a.reshape(&full)
            },
            UnOp::Slice(axis, start, end, step) => {
                if *axis == isize::MAX {
                    return Err(EvalError::Axis);
                }
                let ax: isize = if *axis >= 0 {
                    *axis + 1
                } else {
                    *axis
                };
                a.slice(ax, *start, *end, *step)
            },
            UnOp::Pad(p) => match shift_all(&p.axes) {
                Some(v) => a.pad(
                    &PaddingOptions { config: p.config, axes: v, value: p.value },
                ),
                None => Err(EvalError::Axis),
            },
            UnOp::Pool(o, average) => Self::pool_batched(a, o, *average),
            _ => a.unary(op),
        }
    }

    /// An operation on one batch.
    pub fn unary(&self, op: &UnOp<S>) -> (r: Result<IBPBatchedTensor<S>, EvalError>)
        ensures
            batch_of(r) == un_batch(op@, self@),
    {
        match op {
            UnOp::Neg | UnOp::Square | UnOp::Reciprocal | UnOp::Gelu => {
                let x = self.to_interval().unary(op)?;
                Ok(Self::from_interval(&x).mark(self.shared))
            },
            _ => {
                let lb = Self::apply_behind(op, &self.lb)?;
                let ub = Self::apply_behind(op, &self.ub)?;
                Ok(Self::new(lb, ub)?.mark(self.shared))
            },
        }
    }

    /// The product of activations and constant weights.
    fn weighed(act: &Tensor<S>, w: &Tensor<S>) -> (r: Result<Tensor<S>, EvalError>)
        ensures
            tensor::outcome(r) == weigh(act@, w@),
    {
        if act.ndim() == 2 && w.ndim() == 2 {
            let t = w.moveaxis(0, 1)?;
            act.dot(&t)
        } else if act.ndim() == 2 && w.ndim() == 1 {
            act.dot(w)
        } else {
            Err(EvalError::Unsupported)
        }
    }

    /// A bilinear operation.
    fn bilinear_op(f: Bilinear, a: &Tensor<S>, b: &Tensor<S>) -> (r: Result<Tensor<S>, EvalError>)
        ensures
            tensor::outcome(r) == bilinear(f, a@, b@),
    {
        match f {
            Bilinear::Weigh => Self::weighed(a, b),
            Bilinear::Conv(stride) => Self::conv_batched(a, b, stride),
        }
    }

    /// The interval around two results.
    fn around(m: Tensor<S>, r: Tensor<S>) -> (o: Result<IBPBatchedTensor<S>, EvalError>)
        ensures
            batch_of(o) == around_results(Ok(m@), Ok(r@)),
    {
        if !interval::same_shape(m.shape(), r.shape()) {
            return Err(EvalError::Interval);
        }
        let lb = interval::minus_of(&m, &r);
        let ub = interval::plus_of(&m, &r);
        Ok(IBPBatchedTensor { lb, ub, shared: false })
    }

    /// The interval of a bilinear operation.
    fn bilinear_interval(f: Bilinear, a: &IBPTensor<S>, b: &IBPTensor<S>) -> (r: Result<
        IBPBatchedTensor<S>,
        EvalError,
    >)
        ensures
            batch_of(r) == bilinear_batch(f, a@, b@),
    {
        let half = S::from_ratio(1, 2);
        let mid = |x: S, y: S| -> (z: S)
            ensures
                z == x.plus(y).times(scalar::half()),
            { x.add(y).mul(half) };
        let ran = |x: S, y: S| -> (z: S)
            ensures
                z == x.minus(y).times(scalar::half()),
            { x.sub(y).mul(half) };
        let abs = |x: S| -> (y: S)
            ensures
                y == x.magnitude(),
            { x.abs() };
        let (al, au, bl, bu) = (a.lb(), a.ub(), b.lb(), b.ub());
        if a.is_point() {
            let ym = interval::zip_with(bu, bl, mid);
            assert(ym@ =~= interval::middle(b@.ub, b@.lb));
            let yr = interval::zip_with(bu, bl, ran);
            assert(yr@ =~= interval::radius(b@.ub, b@.lb));
            let m = Self::bilinear_op(f, al, &ym)?;
            let xa = al.mapv(abs);
            assert(xa@ =~= interval::magnitudes(a@.lb));
            let r = Self::bilinear_op(f, &xa, &yr)?;
            Self::around(m, r)
        } else if b.is_point() {
            let xm = interval::zip_with(al, au, mid);
            assert(xm@ =~= interval::middle(a@.lb, a@.ub));
            let xr = interval::zip_with(au, al, ran);
            assert(xr@ =~= interval::radius(a@.ub, a@.lb));
            let m = Self::bilinear_op(f, &xm, bl)?;
            let ya = bl.mapv(abs);
            assert(ya@ =~= interval::magnitudes(b@.lb));
            let r = Self::bilinear_op(f, &xr, &ya)?;
            Self::around(m, r)
        } else {
            let ll = Self::bilinear_op(f, al, bl)?;
            let lu = Self::bilinear_op(f, al, bu)?;
            let ul = Self::bilinear_op(f, au, bl)?;
            let uu = Self::bilinear_op(f, au, bu)?;
            if !interval::same_shape(ll.shape(), lu.shape()) || !interval::same_shape(
                ll.shape(),
                ul.shape(),
            ) || !interval::same_shape(ll.shape(), uu.shape()) {
                return Err(EvalError::Interval);
            }
            let lb = interval::min4(&ll, &lu, &ul, &uu);
            let ub = interval::max4(&ll, &lu, &ul, &uu);
            Ok(IBPBatchedTensor { lb, ub, shared: false })
        }
    }

    /// An operation on two batches.
    pub fn pairwise(&self, op: &BinOp, b: &IBPBatchedTensor<S>) -> (r: Result<
        IBPBatchedTensor<S>,
        EvalError,
    >)
        ensures
            batch_of(r) == bin_batch(op@, self@, b@),
    {
        let (x, y) = (self.to_interval(), b.to_interval());
        let r = match op {
            BinOp::Dot => if self.shared && !b.shared {
                Self::bilinear_interval(Bilinear::Weigh, &y, &x)?
            } else {
                let z = IBPTensor::ibp_linear(op, &x, &y)?;
                Self::from_interval(&z)
            },
            BinOp::Conv(stride) => Self::bilinear_interval(Bilinear::Conv(*stride), &x, &y)?,
            _ => {
                let z = x.pairwise(op, &y)?;
                Self::from_interval(&z)
            },
        };
        Ok(r.mark(self.shared && b.shared))
    }
}

impl<S: Scalar> Clone for IBPBatchedTensor<S> {
    fn clone(&self) -> (r: IBPBatchedTensor<S>)
        ensures
            r@ == self@,
    {
        proof {
            use_type_invariant(self);
        }
        IBPBatchedTensor { lb: self.lb.dup(), ub: self.ub.dup(), shared: self.shared }
    }
}

impl<S: Scalar> Value<S> for IBPBatchedTensor<S> {
    type M = BatchV<S>;

    type Cx = ();

    type C = ();

    open spec fn m(&self) -> BatchV<S> {
        self@
    }

    open spec fn c(cx: &()) -> () {
        ()
    }

    open spec fn shape_of(m: BatchV<S>) -> Seq<usize> {
        m.lb.shape
    }

    open spec fn constant(t: TensorV<S>) -> BatchV<S> {
        BatchV { lb: t, ub: t, shared: true }
    }

    open spec fn tensor_of(m: BatchV<S>) -> Option<TensorV<S>> {
        None
    }

    open spec fn unary(c: (), op: UnOpV<S>, a: BatchV<S>) -> ((), Result<BatchV<S>, Fault>) {
        ((), un_batch(op, a))
    }

    open spec fn binary(c: (), op: BinOpV, a: BatchV<S>, b: BatchV<S>) -> (
        (),
        Result<BatchV<S>, Fault>,
    ) {
        ((), bin_batch(op, a, b))
    }

    open spec fn select(c: (), p: BatchV<S>, x: BatchV<S>, y: BatchV<S>) -> (
        (),
        Result<BatchV<S>, Fault>,
    ) {
        (
            (),
            marked(
                batch_result(interval::select_interval(whole(p), whole(x), whole(y))),
                p.shared && x.shared && y.shared,
            ),
        )
    }

    fn dims(&self) -> (r: &[usize]) {
        self.lb.shape()
    }

    fn copy(&self) -> (r: Self) {
        self.clone()
    }

    fn lift(t: Tensor<S>) -> (r: Self) {
        let copy = t.dup();
        IBPBatchedTensor { lb: copy, ub: t, shared: true }
    }

    fn as_tensor(&self) -> (r: Option<&Tensor<S>>) {
        None
    }

    fn apply1(&self, op: &UnOp<S>, cx: &mut ()) -> (r: Result<Self, EvalError>) {
        IBPBatchedTensor::unary(self, op)
    }

    fn apply2(&self, op: &BinOp, b: &Self, cx: &mut ()) -> (r: Result<Self, EvalError>) {
        self.pairwise(op, b)
    }

    fn apply3(p: &Self, x: &Self, y: &Self, cx: &mut ()) -> (r: Result<Self, EvalError>) {
        let z = IBPTensor::ibp_where(&p.to_interval(), &x.to_interval(), &y.to_interval())?;
        let shared = p.shared && x.shared && y.shared;
        Ok(IBPBatchedTensor::from_interval(&z).mark(shared))
    }
}

// ---- members ----
/// Member number `i` of a batch.
pub open spec fn member<S: Scalar>(b: BatchV<S>, i: int) -> IBPV<S> {
    interval::between(model::indexed(b.lb, 0, i), model::indexed(b.ub, 0, i))
}

/// The lower ends of some intervals.
pub open spec fn lows<S>(v: Seq<IBPV<S>>) -> Seq<TensorV<S>> {
    Seq::new(v.len(), |i: int| v[i].lb)
}

/// The upper ends of some intervals.
pub open spec fn highs<S>(v: Seq<IBPV<S>>) -> Seq<TensorV<S>> {
    Seq::new(v.len(), |i: int| v[i].ub)
}

/// The batch of some intervals of one shape.
pub open spec fn batch_from<S>(v: Seq<IBPV<S>>) -> Result<BatchV<S>, Fault> {
    match (model::stacked(lows(v)), model::stacked(highs(v))) {
        (Ok(l), Ok(u)) => Ok(BatchV { lb: l, ub: u, shared: false }),
        (Err(f), _) => Err(f),
        (_, Err(f)) => Err(f),
    }
}

/// The views of a list of references to intervals.
pub open spec fn interval_views<S>(v: Seq<&IBPTensor<S>>) -> Seq<IBPV<S>> {
    Seq::new(v.len(), |i: int| v[i]@)
}

/// The intervals at position `idx` of some lists.
pub open spec fn column<S>(lists: Seq<&Vec<IBPTensor<S>>>, idx: int) -> Seq<IBPV<S>> {
    Seq::new(lists.len(), |i: int| lists[i]@[idx]@)
}

impl<S: Scalar> IBPBatchedTensor<S> {
    /// Member number `i`.
    pub fn get(&self, i: usize) -> (r: IBPTensor<S>)
        requires
            self@.lb.shape.len() > 0,
            i < self@.lb.shape[0],
        ensures
            r@ == member(self@, i as int),
    {
        proof {
            use_type_invariant(self);
        }
        let lb = self.lb.index_axis(0, i);
        let ub = self.ub.index_axis(0, i);
        IBPTensor::spanning(lb, ub)
    }

    /// The batch of some intervals. No intervals, and intervals of different shapes, are errors.
    pub fn from_members(tensors: &Vec<&IBPTensor<S>>) -> (r: Result<
        IBPBatchedTensor<S>,
        EvalError,
    >)
        ensures
            batch_of(r) == batch_from(interval_views(tensors@)),
    {
        let ghost iv = interval_views(tensors@);
        let mut lbs: Vec<&Tensor<S>> = Vec::new();
        let mut ubs: Vec<&Tensor<S>> = Vec::new();
        for i in 0..tensors.len()
            invariant
                iv == interval_views(tensors@),
                lbs@.len() == i,
                ubs@.len() == i,
                forall|j: int| 0 <= j < i ==> (#[trigger] lbs@[j])@ == iv[j].lb,
                forall|j: int| 0 <= j < i ==> (#[trigger] ubs@[j])@ == iv[j].ub,
                forall|j: int| 0 <= j < i ==> (#[trigger] iv[j]).lb.shape == iv[j].ub.shape,
        {
            lbs.push(tensors[i].lb());
            ubs.push(tensors[i].ub());
        }
        assert(manipulate::tensor_views(lbs@) =~= lows(iv));
        assert(manipulate::tensor_views(ubs@) =~= highs(iv));
        let lb = manipulate::stack(&lbs)?;
        let ub = manipulate::stack(&ubs)?;
        assert(iv[0].lb.shape == iv[0].ub.shape);
        Ok(IBPBatchedTensor { lb, ub, shared: false })
    }

    /// The batch of the intervals at position `idx` of some lists.
    pub fn stack_input(input_tensors: &Vec<&Vec<IBPTensor<S>>>, idx: usize) -> (r: Result<
        IBPBatchedTensor<S>,
        EvalError,
    >)
        requires
            forall|i: int| 0 <= i < input_tensors@.len() ==> idx < (#[trigger] input_tensors@[i])@.len(),
        ensures
            batch_of(r) == batch_from(column(input_tensors@, idx as int)),
    {
        let mut picked: Vec<&IBPTensor<S>> = Vec::new();
        for i in 0..input_tensors.len()
            invariant
                forall|i: int|
                    0 <= i < input_tensors@.len() ==> idx < (#[trigger] input_tensors@[i])@.len(),
                picked@.len() == i,
                forall|j: int|
                    0 <= j < i ==> (#[trigger] picked@[j])@ == input_tensors@[j]@[idx as int]@,
        {
            let list = input_tensors[i];
            picked.push(&list[idx]);
        }
        assert(interval_views(picked@) =~= column(input_tensors@, idx as int));
        Self::from_members(&picked)
    }
}

/// Propagates batches of intervals through a graph.
pub struct IBPBatchedInterpreter {}

impl IBPBatchedInterpreter {
    /// The batch of the results of one operation.
    pub fn process_primitive<S: Scalar>(
        primitive: &Primitive<S>,
        env: &Env<IBPBatchedTensor<S>>,
    ) -> (r: Result<IBPBatchedTensor<S>, EvalError>)
        ensures
            value::result::<S, IBPBatchedTensor<S>>(r) == eval::prim_value::<
                S,
                IBPBatchedTensor<S>,
            >((), env::scope::<S, IBPBatchedTensor<S>>(env@), primitive@).1,
    {
        let mut cx: () = ();
        EvalGenInterpreter::process_primitive::<S, IBPBatchedTensor<S>>(primitive, env, &mut cx)
    }
}

impl<S: Scalar> Interpreter<S, IBPBatchedTensor<S>> for IBPBatchedInterpreter {
    open spec fn meaning(g: GraphV<S>, inputs: Seq<BatchV<S>>) -> Result<Seq<BatchV<S>>, Fault> {
        eval::evaluated::<S, IBPBatchedTensor<S>>((), g, inputs).1
    }

    fn run(graph: &ComputeGraph<S>, inputs: &Vec<IBPBatchedTensor<S>>) -> (r: Result<
        Vec<IBPBatchedTensor<S>>,
        EvalError,
    >) {
        let mut cx: () = ();
        EvalGenInterpreter::run::<S, IBPBatchedTensor<S>>(graph, inputs, &mut cx)
    }
}

/// Propagates the sensitivity of the outputs back through a graph.
pub struct IBPBatchedSensitivityInterpreter {}

/// The slopes that a rectifier can have on an interval, at the lower and the upper end.
pub open spec fn relu_gate<S: Scalar>(b: BatchV<S>) -> BatchV<S> {
    BatchV {
        lb: model::mapped(
            b.lb,
            |l: S|
                if scalar::zero::<S>().at_most(l) {
                    scalar::one()
                } else {
                    scalar::zero()
                },
        ),
        ub: model::mapped(
            b.ub,
            |u: S|
                if scalar::zero::<S>().less(u) {
                    scalar::one()
                } else {
                    scalar::zero()
                },
        ),
        shared: false,
    }
}

/// The coefficients of the operands of an operation with result `out`, for the coefficients that
/// `coeffs` holds and the batches that `bounds` holds.
pub open spec fn sensitivities<S: Scalar>(
    p: PrimV<S>,
    bounds: Map<Seq<char>, BatchV<S>>,
    coeffs: Map<Seq<char>, BatchV<S>>,
    out: crate::nn::AtomV<S>,
) -> Result<Seq<BatchV<S>>, Fault> {
    match env::resolved::<S, IBPBatchedTensor<S>>(coeffs, out) {
        Err(f) => Err(f),
        Ok(c) => match p {
            PrimV::Bin(BinOpV::Add, _, _) => Ok(seq![c, c]),
            PrimV::Un(UnOpV::Relu, a) => match env::resolved::<S, IBPBatchedTensor<S>>(
                bounds,
                a,
            ) {
                Err(f) => Err(f),
                Ok(b) => match bin_batch(BinOpV::Mul, c, relu_gate(b)) {
                    Ok(v) => Ok(seq![v]),
                    Err(f) => Err(f),
                },
            },
            _ => Err(Fault::Unsupported),
        },
    }
}

impl IBPBatchedSensitivityInterpreter {
    /// The coefficients of the operands of a sum or a rectifier.
    pub fn process_primitive<S: Scalar>(
        primitive: &Primitive<S>,
        inter_bounds: &Env<IBPBatchedTensor<S>>,
        env: &Env<IBPBatchedTensor<S>>,
        outvar: &Atom<S>,
    ) -> (r: Result<Vec<IBPBatchedTensor<S>>, EvalError>)
        ensures
            value::results::<S, IBPBatchedTensor<S>>(r) == sensitivities(
                primitive@,
                env::scope::<S, IBPBatchedTensor<S>>(inter_bounds@),
                env::scope::<S, IBPBatchedTensor<S>>(env@),
                outvar@,
            ),
    {
        let coeff: IBPBatchedTensor<S> = env.resolve(outvar)?;
        match primitive {
            Primitive::Add(_, _) => {
                let v: Vec<IBPBatchedTensor<S>> = vec![coeff.clone(), coeff];
                assert(value::models::<S, IBPBatchedTensor<S>>(v@) =~= seq![coeff@, coeff@]);
                Ok(v)
            },
            Primitive::Relu(a) => {
                let b: IBPBatchedTensor<S> = inter_bounds.resolve(a)?;
                let zero = scalar::number::<S>(0);
                let one = scalar::number::<S>(1);
                let f = |l: S| -> (y: S)
                    ensures
                        y == (if scalar::zero::<S>().at_most(l) {
                            scalar::one::<S>()
                        } else {
                            scalar::zero::<S>()
                        }),
                    {
                        if zero.is_le(l) {
                            one
                        } else {
                            zero
                        }
                    };
                let g = |u: S| -> (y: S)
                    ensures
                        y == (if scalar::zero::<S>().less(u) {
                            scalar::one::<S>()
                        } else {
                            scalar::zero::<S>()
                        }),
                    {
                        if zero.is_lt(u) {
                            one
                        } else {
                            zero
                        }
                    };
                let (bl, bu) = (b.lb(), b.ub());
                let lb = bl.mapv(f);
                let ub = bu.mapv(g);
                assert(lb@ =~= relu_gate(b@).lb);
                assert(ub@ =~= relu_gate(b@).ub);
                let gate = IBPBatchedTensor { lb, ub, shared: false };
                let v: Vec<IBPBatchedTensor<S>> = vec![coeff.pairwise(&BinOp::Mul, &gate)?];
                assert(value::models::<S, IBPBatchedTensor<S>>(v@) =~= seq![v@[0]@]);
                Ok(v)
            },
            _ => Err(EvalError::Unsupported),
        }
    }
}

} // verus!
