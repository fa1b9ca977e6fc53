//! The tensor operations as a whole.

use vstd::prelude::*;
use crate::error::EvalError;
use crate::model;
use crate::model::{BinOpV, TensorV};
use crate::op::{BinOp, UnOp};
use crate::scalar;
use crate::scalar::Scalar;
use crate::shape;
use crate::tensor;
use crate::tensor::Tensor;

verus! {

/// What an elementwise operation does to one element.
fn point<S: Scalar>(op: &UnOp<S>, x: S) -> (r: S)
    requires
        model::is_pointwise(op@),
    ensures
        r == model::at_point(op@, x),
{
    match op {
        UnOp::Neg => x.neg(),
        UnOp::Reciprocal => x.recip(),
        UnOp::Square => x.mul(x),
        UnOp::Sqrt => x.sqrt(),
        UnOp::Exp => x.exp(),
        UnOp::Log => x.ln(),
        UnOp::Relu => x.max_of(scalar::number::<S>(0)),
        UnOp::LeakyRelu(slope) => if scalar::number::<S>(0).is_le(x) {
            x
        } else {
            slope.mul(x)
        },
        UnOp::Elu(slope) => {
            let zero = scalar::number::<S>(0);
            let one = scalar::number::<S>(1);
            x.max_of(zero).add(slope.mul(x.exp().sub(one).min_of(zero)))
        },
        UnOp::Gelu => x.mul(scalar::normcdf(x)),
        UnOp::NormalCdf => scalar::normcdf(x),
        _ => x,
    }
}

impl<S: Scalar> Tensor<S> {
    /// The result of an elementwise operation.
    fn pointwise(&self, op: &UnOp<S>) -> (r: Tensor<S>)
        requires
            model::is_pointwise(op@),
        ensures
            model::un_tensor(op@, self@) == Ok::<TensorV<S>, model::Fault>(r@),
    {
        let f = |x: S| -> (y: S)
            ensures
                y == model::at_point(op@, x),
            { point(op, x) };
        let r = self.mapv(f);
        assert(r@.data =~= model::un_data(op@, self@, self@.shape));
        r
    }

    /// The result of an operation on one tensor.
    pub fn unary(&self, op: &UnOp<S>) -> (r: Result<Tensor<S>, EvalError>)
        ensures
            tensor::outcome(r) == model::un_tensor(op@, self@),
    {
        match op {
            UnOp::ReduceSum(axes) => self.reduce_sum(axes),
            UnOp::ExpandDims(axes) => self.expand_dims(axes),
            UnOp::MoveAxis(a, b) => self.moveaxis(*a, *b),
            UnOp::Reshape(d) => self.reshape(d),
            UnOp::Slice(axis, start, end, step) => self.slice(*axis, *start, *end, *step),
            UnOp::Pad(p) => self.pad(p),
            UnOp::Pool(o, average) => self.pool(o, *average),
            _ => Ok(self.pointwise(op)),
        }
    }

    /// The elementwise sum with broadcasting.
    pub fn add(&self, b: &Tensor<S>) -> (r: Result<Tensor<S>, EvalError>)
        ensures
            tensor::outcome(r) == model::bin_tensor(BinOpV::Add, self@, b@),
    {
        let f = |x: S, y: S| -> (z: S)
            ensures
                z == x.plus(y),
            { x.add(y) };
        let r = tensor::binary(self, b, f);
        proof {
            if r is Ok {
                let t = r->Ok_0@;
                assert(t.data =~= model::combined(false, self@, b@, t.shape));
            }
        }
        r
    }

    /// The elementwise product with broadcasting.
    pub fn mul(&self, b: &Tensor<S>) -> (r: Result<Tensor<S>, EvalError>)
        ensures
            tensor::outcome(r) == model::bin_tensor(BinOpV::Mul, self@, b@),
    {
        let f = |x: S, y: S| -> (z: S)
            ensures
                z == x.times(y),
            { x.mul(y) };
        let r = tensor::binary(self, b, f);
        proof {
            if r is Ok {
                let t = r->Ok_0@;
                assert(t.data =~= model::combined(true, self@, b@, t.shape));
            }
        }
        r
    }

    /// The result of an operation on two tensors.
    pub fn pairwise(&self, op: &BinOp, b: &Tensor<S>) -> (r: Result<Tensor<S>, EvalError>)
        ensures
            tensor::outcome(r) == model::bin_tensor(op@, self@, b@),
    {
        match op {
            BinOp::Add => self.add(b),
            BinOp::Mul => self.mul(b),
            BinOp::Dot => self.dot(b),
            BinOp::Conv(stride) => self.conv(b, *stride),
            BinOp::ConvKernelGrad(stride, k) => self.conv_kernel_grad(b, *stride, k),
        }
    }

    /// numpy.where(cond, x, y) with broadcasting; `cond` is truthy when non-zero.
    pub fn select(cond: &Tensor<S>, x: &Tensor<S>, y: &Tensor<S>) -> (r: Result<
        Tensor<S>,
        EvalError,
    >)
        ensures
            tensor::outcome(r) == model::select_tensor(cond@, x@, y@),
    {
        let (csh, xsh, ysh) = (cond.shape(), x.shape(), y.shape());
        let s = match shape::broadcast_shape(csh, xsh) {
            None => {
                return Err(EvalError::Broadcast);
            },
            Some(s) => s,
        };
        let out = match shape::broadcast_shape(&s, ysh) {
            None => {
                return Err(EvalError::Broadcast);
            },
            Some(out) => out,
        };
        if !shape::check_fits(&out) {
            return Err(EvalError::Size);
        }
        let n = out.len();
        let size = shape::size_of(&out, 0, n);
        proof {
            assert(out@.subrange(0, n as int) =~= out@);
            shape::lemma_broadcast_expands(csh@, xsh@);
            shape::lemma_broadcast_expands(s@, ysh@);
            shape::lemma_expands_trans(csh@, s@, out@);
            shape::lemma_expands_trans(xsh@, s@, out@);
        }
        let (cv, xv, yv) = (cond.values(), x.values(), y.values());
        let zero = scalar::number::<S>(0);
        let ghost goal = model::select_data(cond@, x@, y@, out@);
        let mut data: Vec<S> = Vec::new();
        for k in 0..size
            invariant
                size == shape::product(out@),
                csh@ == cond@.shape,
                xsh@ == x@.shape,
                ysh@ == y@.shape,
                cv@ == cond@.data,
                xv@ == x@.data,
                yv@ == y@.data,
                cond@.wf(),
                x@.wf(),
                y@.wf(),
                zero == scalar::zero::<S>(),
                shape::expands_to(csh@, out@),
                shape::expands_to(xsh@, out@),
                shape::expands_to(ysh@, out@),
                goal == model::select_data(cond@, x@, y@, out@),
                data@.len() == k,
                forall|j: int| 0 <= j < k ==> data@[j] == goal[j],
        {
            let i = shape::broadcast_index(k, &out, csh);
            if cv[i].is_eq(zero) {
                let j = shape::broadcast_index(k, &out, ysh);
                data.push(yv[j]);
            } else {
                let j = shape::broadcast_index(k, &out, xsh);
                data.push(xv[j]);
            }
        }
        assert(data@ =~= goal);
        Ok(Tensor::make(out, data))
    }
}

} // verus!
