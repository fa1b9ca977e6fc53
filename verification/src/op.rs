//! The tensor operations and their options.

use vstd::prelude::*;
use crate::model::{BinOpV, PadV, UnOpV};
use crate::scalar::Scalar;
use crate::tensor;

verus! {

/// The padding configuration, that is:
/// - *left* padding
/// - *right* padding and
/// - *interior* padding between each pair of neighboring elements
/// along each padded axis
#[derive(Debug, Clone, Copy, PartialEq, Eq)]
pub struct PaddingOptionConfig {
    /// Padding at the beginning of an axis
    pub left: usize,
    /// Padding at the end of an axis
    pub right: usize,
    /// Padding between each pair of neighboring elements
    pub interior: usize,
}

/// Padding options, that is:
/// - *config* of left, right and interior padding
/// - *axes* that are to be padded according to the padding configuration
/// - *value* that is used to fill the padding with
#[derive(Debug, PartialEq)]
pub struct PaddingOptions<S> {
    /// Padding configuration (left, right and interior padding)
    pub config: PaddingOptionConfig,
    /// Axes to be padded
    pub axes: Vec<isize>,
    /// Scalar fill value
    pub value: S,
}

/// The options of a convolution.
#[derive(Debug, Clone, Copy, PartialEq, Eq)]
pub struct ConvOptions {
    /// The stride along both spatial axes
    pub stride: isize,
}

/// The options of a pooling operation.
#[derive(Debug, PartialEq, Eq)]
pub struct PoolOptions {
    /// The window length along each axis
    pub window_size: Vec<usize>,
    /// The stride along each axis
    pub stride: Vec<usize>,
}

/// An operation on one tensor.
#[derive(Debug, PartialEq)]
pub enum UnOp<S> {
    Neg,
    Reciprocal,
    Square,
    Sqrt,
    Exp,
    Log,
    Relu,
    LeakyRelu(S),
    Elu(S),
    Gelu,
    NormalCdf,
    ReduceSum(Vec<isize>),
    ExpandDims(Vec<isize>),
    MoveAxis(isize, isize),
    Reshape(Vec<isize>),
    Slice(isize, isize, Option<isize>, isize),
    Pad(PaddingOptions<S>),
    Pool(PoolOptions, bool),
}

/// An operation on two tensors.
#[derive(Debug, PartialEq, Eq)]
pub enum BinOp {
    Add,
    Mul,
    Dot,
    Conv(isize),
    ConvKernelGrad(isize, Vec<usize>),
}

impl<S> View for PaddingOptions<S> {
    type V = PadV<S>;

    open spec fn view(&self) -> PadV<S> {
        PadV {
            left: self.config.left,
            right: self.config.right,
            interior: self.config.interior,
            axes: self.axes@,
            value: self.value,
        }
    }
}

impl<S> View for UnOp<S> {
    type V = UnOpV<S>;

    open spec fn view(&self) -> UnOpV<S> {
        match self {
            UnOp::Neg => UnOpV::Neg,
            UnOp::Reciprocal => UnOpV::Reciprocal,
            UnOp::Square => UnOpV::Square,
            UnOp::Sqrt => UnOpV::Sqrt,
            UnOp::Exp => UnOpV::Exp,
            UnOp::Log => UnOpV::Log,
            UnOp::Relu => UnOpV::Relu,
            UnOp::LeakyRelu(slope) => UnOpV::LeakyRelu(*slope),
            UnOp::Elu(slope) => UnOpV::Elu(*slope),
            UnOp::Gelu => UnOpV::Gelu,
            UnOp::NormalCdf => UnOpV::NormalCdf,
            UnOp::ReduceSum(axes) => UnOpV::ReduceSum(axes@),
            UnOp::ExpandDims(axes) => UnOpV::ExpandDims(axes@),
            UnOp::MoveAxis(a, b) => UnOpV::MoveAxis(*a, *b),
            UnOp::Reshape(d) => UnOpV::Reshape(d@),
            UnOp::Slice(axis, start, end, step) => UnOpV::Slice(*axis, *start, *end, *step),
            UnOp::Pad(p) => UnOpV::Pad(p@),
            UnOp::Pool(o, average) => UnOpV::Pool(o.window_size@, o.stride@, *average),
        }
    }
}

impl View for BinOp {
    type V = BinOpV;

    open spec fn view(&self) -> BinOpV {
        match self {
            BinOp::Add => BinOpV::Add,
            BinOp::Mul => BinOpV::Mul,
            BinOp::Dot => BinOpV::Dot,
            BinOp::Conv(stride) => BinOpV::Conv(*stride),
            BinOp::ConvKernelGrad(stride, k) => BinOpV::ConvKernelGrad(*stride, k@),
        }
    }
}

/// A copy of a list of signed numbers.
pub fn copy_signed(v: &[isize]) -> (r: Vec<isize>)
    ensures
        r@ == v@,
{
    let mut out: Vec<isize> = Vec::new();
    for i in 0..v.len()
        invariant
            out@ == v@.subrange(0, i as int),
    {
        out.push(v[i]);
    }
    assert(out@ =~= v@);
    out
}

impl<S: Scalar> Clone for PaddingOptions<S> {
    fn clone(&self) -> (r: PaddingOptions<S>)
        ensures
            r@ == self@,
    {
        PaddingOptions { config: self.config, axes: copy_signed(&self.axes), value: self.value }
    }
}

impl Clone for PoolOptions {
    fn clone(&self) -> (r: PoolOptions)
        ensures
            r.window_size@ == self.window_size@,
            r.stride@ == self.stride@,
    {
        PoolOptions {
            window_size: tensor::copy_of(&self.window_size),
            stride: tensor::copy_of(&self.stride),
        }
    }
}

impl<S: Scalar> Clone for UnOp<S> {
    fn clone(&self) -> (r: UnOp<S>)
        ensures
            r@ == self@,
    {
        match self {
            UnOp::Neg => UnOp::Neg,
            UnOp::Reciprocal => UnOp::Reciprocal,
            UnOp::Square => UnOp::Square,
            UnOp::Sqrt => UnOp::Sqrt,
            UnOp::Exp => UnOp::Exp,
            UnOp::Log => UnOp::Log,
            UnOp::Relu => UnOp::Relu,
            UnOp::LeakyRelu(slope) => UnOp::LeakyRelu(*slope),
            UnOp::Elu(slope) => UnOp::Elu(*slope),
            UnOp::Gelu => UnOp::Gelu,
            UnOp::NormalCdf => UnOp::NormalCdf,
            UnOp::ReduceSum(axes) => UnOp::ReduceSum(copy_signed(axes)),
            UnOp::ExpandDims(axes) => UnOp::ExpandDims(copy_signed(axes)),
            UnOp::MoveAxis(a, b) => UnOp::MoveAxis(*a, *b),
            UnOp::Reshape(d) => UnOp::Reshape(copy_signed(d)),
            UnOp::Slice(axis, start, end, step) => UnOp::Slice(*axis, *start, *end, *step),
            UnOp::Pad(p) => UnOp::Pad(p.clone()),
            UnOp::Pool(o, average) => UnOp::Pool(o.clone(), *average),
        }
    }
}

impl Clone for BinOp {
    fn clone(&self) -> (r: BinOp)
        ensures
            r@ == self@,
    {
        match self {
            BinOp::Add => BinOp::Add,
            BinOp::Mul => BinOp::Mul,
            BinOp::Dot => BinOp::Dot,
            BinOp::Conv(stride) => BinOp::Conv(*stride),
            BinOp::ConvKernelGrad(stride, k) => BinOp::ConvKernelGrad(
                *stride,
                tensor::copy_of(k),
            ),
        }
    }
}

} // verus!
