//! Compute graphs.

use vstd::prelude::*;
use vstd::string::StringExecFns;
use crate::error::EvalError;
use crate::model::{BinOpV, Fault, TensorV, UnOpV};
use crate::op::{BinOp, ConvOptions, PaddingOptions, PoolOptions, UnOp};
use crate::scalar::Scalar;
use crate::tensor;
use crate::tensor::Tensor;

verus! {

/// What an atom stands for.
#[derive(Debug, PartialEq)]
pub enum AtomKind<S> {
    /// A variable
    Var,
    /// A constant tensor
    Const(Tensor<S>),
}

/// An operand: a variable with a name and a shape, or a constant.
#[derive(Debug, PartialEq)]
pub struct Atom<S> {
    pub name: String,
    pub shape: Vec<usize>,
    pub kind: AtomKind<S>,
}

/// A mathematical operand: `value` is there for a constant.
#[verifier::ext_equal]
pub struct AtomV<S> {
    pub name: Seq<char>,
    pub shape: Seq<usize>,
    pub value: Option<TensorV<S>>,
}

impl<S> View for Atom<S> {
    type V = AtomV<S>;

    open spec fn view(&self) -> AtomV<S> {
        AtomV {
            name: self.name@,
            shape: self.shape@,
            value: match self.kind {
                AtomKind::Var => None,
                AtomKind::Const(t) => Some(t@),
            },
        }
    }
}

impl<S: Scalar> Clone for Atom<S> {
    fn clone(&self) -> (r: Atom<S>)
        ensures
            r@ == self@,
    {
        Atom {
            name: self.name.clone(),
            shape: tensor::copy_of(&self.shape),
            kind: match &self.kind {
                AtomKind::Var => AtomKind::Var,
                AtomKind::Const(t) => AtomKind::Const(t.dup()),
            },
        }
    }
}

/// A variable.
pub open spec fn variable<S>(name: Seq<char>, shape: Seq<usize>) -> AtomV<S> {
    AtomV { name, shape, value: None }
}

impl<S: Scalar> Atom<S> {
    /// A variable.
    pub fn var(name: String, shape: Vec<usize>) -> (r: Atom<S>)
        ensures
            r@ == variable::<S>(name@, shape@),
    {
        Atom { name, shape, kind: AtomKind::Var }
    }
}

/// A tensor operation with its operands.
#[allow(inconsistent_fields)]
#[derive(Debug, PartialEq)]
pub enum Primitive<S> {
    // elementwise unary
    Neg(Atom<S>),
    Reciprocal(Atom<S>),
    Square(Atom<S>),
    Sqrt(Atom<S>),
    Exp(Atom<S>),
    Log(Atom<S>),
    // elementwise binary
    Add(Atom<S>, Atom<S>),
    Mul(Atom<S>, Atom<S>),
    // selection: where(cond, x, y)
    Where(Atom<S>, Atom<S>, Atom<S>),
    // activations
    Relu(Atom<S>),
    LeakyRelu { operand: Atom<S>, slope: S },
    Elu { operand: Atom<S>, slope: S },
    Gelu(Atom<S>),
    /// Standard-normal CDF (the nonlinearity behind GELU).
    NormalCdf(Atom<S>),
    // linear algebra
    Dot(Atom<S>, Atom<S>),
    // reduction
    ReduceSum { operand: Atom<S>, axes: Vec<isize> },
    // shape manipulation
    ExpandDims { operand: Atom<S>, axes: Vec<isize> },
    MoveAxis { operand: Atom<S>, source: isize, destination: isize },
    Reshape { operand: Atom<S>, new_shape: Vec<isize> },
    // strided slice: y = x[start:end:step] along a single axis
    Slice { operand: Atom<S>, axis: isize, start: isize, end: Option<isize>, step: isize },
    // padding
    Pad { operand: Atom<S>, options: PaddingOptions<S> },
    // 2d convolution: conv(input, kernel)
    Conv { input: Atom<S>, kernel: Atom<S>, options: ConvOptions },
    // gradient of conv w.r.t. kernel: conv_kernel_grad(grad_out, input)
    ConvKernelGrad {
        grad_out: Atom<S>,
        input: Atom<S>,
        options: ConvOptions,
        kernel_shape: Vec<usize>,
    },
    // average pooling
    AvgPool { operand: Atom<S>, options: PoolOptions },
    // sum pooling (same options as average pooling)
    SumPool { operand: Atom<S>, options: PoolOptions },
}

/// A mathematical tensor operation with its operands.
#[verifier::ext_equal]
pub enum PrimV<S> {
    Un(UnOpV<S>, AtomV<S>),
    Bin(BinOpV, AtomV<S>, AtomV<S>),
    Select(AtomV<S>, AtomV<S>, AtomV<S>),
}

impl<S> View for Primitive<S> {
    type V = PrimV<S>;

    open spec fn view(&self) -> PrimV<S> {
        match self {
            Primitive::Neg(a) => PrimV::Un(UnOpV::Neg, a@),
            Primitive::Reciprocal(a) => PrimV::Un(UnOpV::Reciprocal, a@),
            Primitive::Square(a) => PrimV::Un(UnOpV::Square, a@),
            Primitive::Sqrt(a) => PrimV::Un(UnOpV::Sqrt, a@),
            Primitive::Exp(a) => PrimV::Un(UnOpV::Exp, a@),
            Primitive::Log(a) => PrimV::Un(UnOpV::Log, a@),
            Primitive::Add(a, b) => PrimV::Bin(BinOpV::Add, a@, b@),
            Primitive::Mul(a, b) => PrimV::Bin(BinOpV::Mul, a@, b@),
            Primitive::Where(c, x, y) => PrimV::Select(c@, x@, y@),
            Primitive::Relu(a) => PrimV::Un(UnOpV::Relu, a@),
            Primitive::LeakyRelu { operand, slope } => PrimV::Un(
                UnOpV::LeakyRelu(*slope),
                operand@,
            ),
            Primitive::Elu { operand, slope } => PrimV::Un(UnOpV::Elu(*slope), operand@),
            Primitive::Gelu(a) => PrimV::Un(UnOpV::Gelu, a@),
            Primitive::NormalCdf(a) => PrimV::Un(UnOpV::NormalCdf, a@),
            Primitive::Dot(a, b) => PrimV::Bin(BinOpV::Dot, a@, b@),
            Primitive::ReduceSum { operand, axes } => PrimV::Un(
                UnOpV::ReduceSum(axes@),
                operand@,
            ),
            Primitive::ExpandDims { operand, axes } => PrimV::Un(
                UnOpV::ExpandDims(axes@),
                operand@,
            ),
            Primitive::MoveAxis { operand, source, destination } => PrimV::Un(
                UnOpV::MoveAxis(*source, *destination),
                operand@,
            ),
            Primitive::Reshape { operand, new_shape } => PrimV::Un(
                UnOpV::Reshape(new_shape@),
                operand@,
            ),
            Primitive::Slice { operand, axis, start, end, step } => PrimV::Un(
                UnOpV::Slice(*axis, *start, *end, *step),
                operand@,
            ),
            Primitive::Pad { operand, options } => PrimV::Un(UnOpV::Pad(options@), operand@),
            Primitive::Conv { input, kernel, options } => PrimV::Bin(
                BinOpV::Conv(options.stride),
                input@,
                kernel@,
            ),
            Primitive::ConvKernelGrad { grad_out, input, options, kernel_shape } => PrimV::Bin(
                BinOpV::ConvKernelGrad(options.stride, kernel_shape@),
                grad_out@,
                input@,
            ),
            Primitive::AvgPool { operand, options } => PrimV::Un(
                UnOpV::Pool(options.window_size@, options.stride@, true),
                operand@,
            ),
            Primitive::SumPool { operand, options } => PrimV::Un(
                UnOpV::Pool(options.window_size@, options.stride@, false),
                operand@,
            ),
        }
    }
}

/// A tensor operation beside references to its operands.
pub enum Form<'a, S> {
    Un(UnOp<S>, &'a Atom<S>),
    Bin(BinOp, &'a Atom<S>, &'a Atom<S>),
    Select(&'a Atom<S>, &'a Atom<S>, &'a Atom<S>),
}

impl<'a, S> View for Form<'a, S> {
    type V = PrimV<S>;

    open spec fn view(&self) -> PrimV<S> {
        match self {
            Form::Un(op, a) => PrimV::Un(op@, a@),
            Form::Bin(op, a, b) => PrimV::Bin(op@, a@, b@),
            Form::Select(c, x, y) => PrimV::Select(c@, x@, y@),
        }
    }
}

/// The operands of an operation, in graph order.
pub open spec fn operands_of<S>(p: PrimV<S>) -> Seq<AtomV<S>> {
    match p {
        PrimV::Un(_, a) => seq![a],
        PrimV::Bin(_, a, b) => seq![a, b],
        PrimV::Select(c, x, y) => seq![c, x, y],
    }
}

/// The name of an operation.
pub open spec fn name_of<S>(p: PrimV<S>) -> Seq<char> {
    match p {
        PrimV::Un(op, _) => match op {
            UnOpV::Neg => "neg"@,
            UnOpV::Reciprocal => "reciprocal"@,
            UnOpV::Square => "square"@,
            UnOpV::Sqrt => "sqrt"@,
            UnOpV::Exp => "exp"@,
            UnOpV::Log => "log"@,
            UnOpV::Relu => "relu"@,
            UnOpV::LeakyRelu(_) => "leaky_relu"@,
            UnOpV::Elu(_) => "elu"@,
            UnOpV::Gelu => "gelu"@,
            UnOpV::NormalCdf => "normalcdf"@,
            UnOpV::ReduceSum(_) => "reduce_sum"@,
            UnOpV::ExpandDims(_) => "expand_dims"@,
            UnOpV::MoveAxis(_, _) => "moveaxis"@,
            UnOpV::Reshape(_) => "reshape"@,
            UnOpV::Slice(_, _, _, _) => "slice"@,
            UnOpV::Pad(_) => "pad"@,
            UnOpV::Pool(_, _, average) => if average {
                "avgpool"@
            } else {
                "sumpool"@
            },
        },
        PrimV::Bin(op, _, _) => match op {
            BinOpV::Add => "add"@,
            BinOpV::Mul => "mul"@,
            BinOpV::Dot => "dot"@,
            BinOpV::Conv(_) => "conv"@,
            BinOpV::ConvKernelGrad(_, _) => "conv_kernel_grad"@,
        },
        PrimV::Select(_, _, _) => "where"@,
    }
}

/// The views of a list of references to atoms.
pub open spec fn ref_views<S>(v: Seq<&Atom<S>>) -> Seq<AtomV<S>> {
    Seq::new(v.len(), |i: int| v[i]@)
}

/// The views of a list of atoms.
pub open spec fn atom_views<S>(v: Seq<Atom<S>>) -> Seq<AtomV<S>> {
    Seq::new(v.len(), |i: int| v[i]@)
}

impl<S: Scalar> Primitive<S> {
    /// The `.mininn` primitive name (as it appears in `graph.txt`).
    pub fn name(&self) -> (r: &'static str)
        ensures
            r@ == name_of(self@),
    {
        match self {
            Primitive::Neg(_) => "neg",
            Primitive::Reciprocal(_) => "reciprocal",
            Primitive::Square(_) => "square",
            Primitive::Sqrt(_) => "sqrt",
            Primitive::Exp(_) => "exp",
            Primitive::Log(_) => "log",
            Primitive::Add(..) => "add",
            Primitive::Mul(..) => "mul",
            Primitive::Where(..) => "where",
            Primitive::Relu(_) => "relu",
            Primitive::LeakyRelu { .. } => "leaky_relu",
            Primitive::Elu { .. } => "elu",
            Primitive::Gelu(_) => "gelu",
            Primitive::NormalCdf(_) => "normalcdf",
            Primitive::Dot(..) => "dot",
            Primitive::ReduceSum { .. } => "reduce_sum",
            Primitive::ExpandDims { .. } => "expand_dims",
            Primitive::MoveAxis { .. } => "moveaxis",
            Primitive::Reshape { .. } => "reshape",
            Primitive::Slice { .. } => "slice",
            Primitive::Pad { .. } => "pad",
            Primitive::Conv { .. } => "conv",
            Primitive::ConvKernelGrad { .. } => "conv_kernel_grad",
            Primitive::AvgPool { .. } => "avgpool",
            Primitive::SumPool { .. } => "sumpool",
        }
    }

    /// The operation, beside its operands.
    pub fn form(&self) -> (r: Form<'_, S>)
        ensures
            r@ == self@,
    {
        match self {
            Primitive::Neg(a) => Form::Un(UnOp::Neg, a),
            Primitive::Reciprocal(a) => Form::Un(UnOp::Reciprocal, a),
            Primitive::Square(a) => Form::Un(UnOp::Square, a),
            Primitive::Sqrt(a) => Form::Un(UnOp::Sqrt, a),
            Primitive::Exp(a) => Form::Un(UnOp::Exp, a),
            Primitive::Log(a) => Form::Un(UnOp::Log, a),
            Primitive::Add(a, b) => Form::Bin(BinOp::Add, a, b),
            Primitive::Mul(a, b) => Form::Bin(BinOp::Mul, a, b),
            Primitive::Where(c, x, y) => Form::Select(c, x, y),
            Primitive::Relu(a) => Form::Un(UnOp::Relu, a),
            Primitive::LeakyRelu { operand, slope } => Form::Un(UnOp::LeakyRelu(*slope), operand),
            Primitive::Elu { operand, slope } => Form::Un(UnOp::Elu(*slope), operand),
            Primitive::Gelu(a) => Form::Un(UnOp::Gelu, a),
            Primitive::NormalCdf(a) => Form::Un(UnOp::NormalCdf, a),
            Primitive::Dot(a, b) => Form::Bin(BinOp::Dot, a, b),
            Primitive::ReduceSum { operand, axes } => Form::Un(
                UnOp::ReduceSum(crate::op::copy_signed(axes)),
                operand,
            ),
            Primitive::ExpandDims { operand, axes } => Form::Un(
                UnOp::ExpandDims(crate::op::copy_signed(axes)),
                operand,
            ),
            Primitive::MoveAxis { operand, source, destination } => Form::Un(
                UnOp::MoveAxis(*source, *destination),
                operand,
            ),
            Primitive::Reshape { operand, new_shape } => Form::Un(
                UnOp::Reshape(crate::op::copy_signed(new_shape)),
                operand,
            ),
            Primitive::Slice { operand, axis, start, end, step } => Form::Un(
                UnOp::Slice(*axis, *start, *end, *step),
                operand,
            ),
            Primitive::Pad { operand, options } => Form::Un(UnOp::Pad(options.clone()), operand),
            Primitive::Conv { input, kernel, options } => Form::Bin(
                BinOp::Conv(options.stride),
                input,
                kernel,
            ),
            Primitive::ConvKernelGrad { grad_out, input, options, kernel_shape } => Form::Bin(
                BinOp::ConvKernelGrad(options.stride, tensor::copy_of(kernel_shape)),
                grad_out,
                input,
            ),
            Primitive::AvgPool { operand, options } => Form::Un(
                UnOp::Pool(options.clone(), true),
                operand,
            ),
            Primitive::SumPool { operand, options } => Form::Un(
                UnOp::Pool(options.clone(), false),
                operand,
            ),
        }
    }

    /// Whether the operation is an activation function.
    pub fn activates(&self) -> (r: bool)
        ensures
            r == is_activation(self@),
    {
        match self {
            Primitive::Relu(_)
            | Primitive::LeakyRelu { .. }
            | Primitive::Elu { .. }
            | Primitive::Gelu(_) => true,
            _ => false,
        }
    }

    /// The operands, in graph order.
    pub fn operands(&self) -> (r: Vec<&Atom<S>>)
        ensures
            ref_views(r@) == operands_of(self@),
    {
        let r: Vec<&Atom<S>> = match self.form() {
            Form::Un(_, a) => vec![a],
            Form::Bin(_, a, b) => vec![a, b],
            Form::Select(c, x, y) => vec![c, x, y],
        };
        assert(ref_views(r@) =~= operands_of(self@));
        r
    }

    /// The application of an operation to one operand.
    pub fn from_unary(op: UnOp<S>, a: Atom<S>) -> (r: Primitive<S>)
        ensures
            r@ == PrimV::Un(op@, a@),
    {
        match op {
            UnOp::Neg => Primitive::Neg(a),
            UnOp::Reciprocal => Primitive::Reciprocal(a),
            UnOp::Square => Primitive::Square(a),
            UnOp::Sqrt => Primitive::Sqrt(a),
            UnOp::Exp => Primitive::Exp(a),
            UnOp::Log => Primitive::Log(a),
            UnOp::Relu => Primitive::Relu(a),
            UnOp::LeakyRelu(slope) => Primitive::LeakyRelu { operand: a, slope },
            UnOp::Elu(slope) => Primitive::Elu { operand: a, slope },
            UnOp::Gelu => Primitive::Gelu(a),
            UnOp::NormalCdf => Primitive::NormalCdf(a),
            UnOp::ReduceSum(axes) => Primitive::ReduceSum { operand: a, axes },
            UnOp::ExpandDims(axes) => Primitive::ExpandDims { operand: a, axes },
            UnOp::MoveAxis(source, destination) => Primitive::MoveAxis {
                operand: a,
                source,
                destination,
            },
            UnOp::Reshape(new_shape) => Primitive::Reshape { operand: a, new_shape },
            UnOp::Slice(axis, start, end, step) => Primitive::Slice {
                operand: a,
                axis,
                start,
                end,
                step,
            },
            UnOp::Pad(options) => Primitive::Pad { operand: a, options },
            UnOp::Pool(options, average) => if average {
                Primitive::AvgPool { operand: a, options }
            } else {
                Primitive::SumPool { operand: a, options }
            },
        }
    }

    /// The application of an operation to two operands.
    pub fn from_binary(op: BinOp, a: Atom<S>, b: Atom<S>) -> (r: Primitive<S>)
        ensures
            r@ == PrimV::Bin(op@, a@, b@),
    {
        match op {
            BinOp::Add => Primitive::Add(a, b),
            BinOp::Mul => Primitive::Mul(a, b),
            BinOp::Dot => Primitive::Dot(a, b),
            BinOp::Conv(stride) => Primitive::Conv {
                input: a,
                kernel: b,
                options: ConvOptions { stride },
            },
            BinOp::ConvKernelGrad(stride, kernel_shape) => Primitive::ConvKernelGrad {
                grad_out: a,
                input: b,
                options: ConvOptions { stride },
                kernel_shape,
            },
        }
    }
}

impl<S: Scalar> Clone for Primitive<S> {
    fn clone(&self) -> (r: Primitive<S>)
        ensures
            r@ == self@,
    {
        match self.form() {
            Form::Un(op, a) => Primitive::from_unary(op, a.clone()),
            Form::Bin(op, a, b) => Primitive::from_binary(op, a.clone(), b.clone()),
            Form::Select(c, x, y) => Primitive::Where(c.clone(), x.clone(), y.clone()),
        }
    }
}

/// An operation and the variable that gets its result.
#[derive(Debug, PartialEq)]
pub struct Equation<S> {
    pub primitive: Primitive<S>,
    pub outvar: Atom<S>,
}

/// A mathematical equation.
#[verifier::ext_equal]
pub struct EqnV<S> {
    pub prim: PrimV<S>,
    pub out: AtomV<S>,
}

impl<S> View for Equation<S> {
    type V = EqnV<S>;

    open spec fn view(&self) -> EqnV<S> {
        EqnV { prim: self.primitive@, out: self.outvar@ }
    }
}

impl<S: Scalar> Clone for Equation<S> {
    fn clone(&self) -> (r: Equation<S>)
        ensures
            r@ == self@,
    {
        Equation { primitive: self.primitive.clone(), outvar: self.outvar.clone() }
    }
}

/// A network: its inputs, its equations in evaluation order, its outputs.
#[derive(Debug, PartialEq)]
pub struct ComputeGraph<S> {
    pub invars: Vec<Atom<S>>,
    pub outvars: Vec<Atom<S>>,
    pub equations: Vec<Equation<S>>,
}

/// A mathematical network.
#[verifier::ext_equal]
pub struct GraphV<S> {
    pub invars: Seq<AtomV<S>>,
    pub outvars: Seq<AtomV<S>>,
    pub equations: Seq<EqnV<S>>,
}

/// The views of a list of equations.
pub open spec fn eqn_views<S>(v: Seq<Equation<S>>) -> Seq<EqnV<S>> {
    Seq::new(v.len(), |i: int| v[i]@)
}

impl<S> View for ComputeGraph<S> {
    type V = GraphV<S>;

    open spec fn view(&self) -> GraphV<S> {
        GraphV {
            invars: atom_views(self.invars@),
            outvars: atom_views(self.outvars@),
            equations: eqn_views(self.equations@),
        }
    }
}

/// A copy of a list of atoms.
pub fn copy_atoms<S: Scalar>(v: &Vec<Atom<S>>) -> (r: Vec<Atom<S>>)
    ensures
        atom_views(r@) == atom_views(v@),
{
    let mut out: Vec<Atom<S>> = Vec::new();
    for i in 0..v.len()
        invariant
            out@.len() == i,
            forall|j: int| 0 <= j < i ==> (#[trigger] out@[j])@ == v@[j]@,
    {
        out.push(v[i].clone());
    }
    assert(atom_views(out@) =~= atom_views(v@));
    out
}

/// A copy of a list of equations.
pub fn copy_equations<S: Scalar>(v: &Vec<Equation<S>>) -> (r: Vec<Equation<S>>)
    ensures
        eqn_views(r@) == eqn_views(v@),
{
    let mut out: Vec<Equation<S>> = Vec::new();
    for i in 0..v.len()
        invariant
            out@.len() == i,
            forall|j: int| 0 <= j < i ==> (#[trigger] out@[j])@ == v@[j]@,
    {
        out.push(v[i].clone());
    }
    assert(eqn_views(out@) =~= eqn_views(v@));
    out
}

impl<S: Scalar> Clone for ComputeGraph<S> {
    fn clone(&self) -> (r: ComputeGraph<S>)
        ensures
            r@ == self@,
    {
        ComputeGraph {
            invars: copy_atoms(&self.invars),
            outvars: copy_atoms(&self.outvars),
            equations: copy_equations(&self.equations),
        }
    }
}

/// An activation function with its operand.
#[derive(Debug, PartialEq)]
pub enum Activation<S> {
    Relu(Atom<S>),
    LeakyRelu { operand: Atom<S>, slope: S },
    Elu { operand: Atom<S>, slope: S },
    Gelu(Atom<S>),
}

impl<S> View for Activation<S> {
    type V = PrimV<S>;

    open spec fn view(&self) -> PrimV<S> {
        match self {
            Activation::Relu(a) => PrimV::Un(UnOpV::Relu, a@),
            Activation::LeakyRelu { operand, slope } => PrimV::Un(
                UnOpV::LeakyRelu(*slope),
                operand@,
            ),
            Activation::Elu { operand, slope } => PrimV::Un(UnOpV::Elu(*slope), operand@),
            Activation::Gelu(a) => PrimV::Un(UnOpV::Gelu, a@),
        }
    }
}

/// Whether an operation is an activation function.
pub open spec fn is_activation<S>(p: PrimV<S>) -> bool {
    match p {
        PrimV::Un(op, _) => match op {
            UnOpV::Relu | UnOpV::LeakyRelu(_) | UnOpV::Elu(_) | UnOpV::Gelu => true,
            _ => false,
        },
        _ => false,
    }
}

impl<S: Scalar> Activation<S> {
    /// The activation function that a primitive is. Any other primitive is an error.
    pub fn try_from(primitive: &Primitive<S>) -> (r: Result<Activation<S>, EvalError>)
        ensures
            match r {
                Ok(a) => is_activation(primitive@) && a@ == primitive@,
                Err(e) => !is_activation(primitive@) && e@ == Fault::NotActivation,
            },
    {
        match primitive {
            Primitive::Relu(a) => Ok(Activation::Relu(a.clone())),
            Primitive::LeakyRelu { operand, slope } => Ok(
                Activation::LeakyRelu { operand: operand.clone(), slope: *slope },
            ),
            Primitive::Gelu(a) => Ok(Activation::Gelu(a.clone())),
            Primitive::Elu { operand, slope } => Ok(
                Activation::Elu { operand: operand.clone(), slope: *slope },
            ),
            _ => Err(EvalError::NotActivation),
        }
    }
}

} // verus!
