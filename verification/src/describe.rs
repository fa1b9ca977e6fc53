//! Descriptions of errors, variables and operations.

use vstd::prelude::*;
use vstd::string::StringExecFns;
use crate::error::EvalError;
use crate::model::Fault;
use crate::nn;
use crate::nn::{Atom, AtomKind, AtomV, PrimV, Primitive};
use crate::scalar::Scalar;
use crate::text;

verus! {

/// What an error is reported as.
pub open spec fn fault_text(f: Fault) -> Seq<char> {
    match f {
        Fault::Undefined(name) => "undefined variable '"@ + name + "'"@,
        Fault::NeverComputed(name) => "output '"@ + name + "' was never computed"@,
        Fault::Broadcast => "shapes do not broadcast"@,
        Fault::Dot => "contracted axes differ in length"@,
        Fault::Reshape => "reshape changes the number of elements"@,
        Fault::ConvRank => "conv expects 4-D input and kernel"@,
        Fault::ConvChannels => "conv input and kernel differ in channels"@,
        Fault::PoolRank => "pool window or stride differs in rank from its operand"@,
        Fault::Axis => "axis out of range"@,
        Fault::Step => "slice step is zero"@,
        Fault::Window => "window leaves its operand"@,
        Fault::Size => "too many elements"@,
        Fault::Interval => "interval ends differ in shape"@,
        Fault::NotActivation => "not an activation function"@,
        Fault::Unsupported => "operation not supported"@,
        Fault::Graph => "graph does not have the expected form"@,
        Fault::Empty => "nothing to split or divide"@,
        Fault::Domain => "no linear relaxation on this interval"@,
    }
}

impl EvalError {
    /// What the error is reported as.
    pub fn message(&self) -> (r: String)
        ensures
            r@ == fault_text(self@),
    {
        match self {
            EvalError::Undefined(name) => {
                let mut s = text::copied("undefined variable '");
                s.append(name.as_str());
                s.append("'");
                s
            },
            EvalError::NeverComputed(name) => {
                let mut s = text::copied("output '");
                s.append(name.as_str());
                s.append("' was never computed");
                s
            },
            EvalError::Broadcast => text::copied("shapes do not broadcast"),
            EvalError::Dot => text::copied("contracted axes differ in length"),
            EvalError::Reshape => text::copied("reshape changes the number of elements"),
            EvalError::ConvRank => text::copied("conv expects 4-D input and kernel"),
            EvalError::ConvChannels => text::copied("conv input and kernel differ in channels"),
            EvalError::PoolRank => text::copied(
                "pool window or stride differs in rank from its operand",
            ),
            EvalError::Axis => text::copied("axis out of range"),
            EvalError::Step => text::copied("slice step is zero"),
            EvalError::Window => text::copied("window leaves its operand"),
            EvalError::Size => text::copied("too many elements"),
            EvalError::Interval => text::copied("interval ends differ in shape"),
            EvalError::NotActivation => text::copied("not an activation function"),
            EvalError::Unsupported => text::copied("operation not supported"),
            EvalError::Graph => text::copied("graph does not have the expected form"),
            EvalError::Empty => text::copied("nothing to split or divide"),
            EvalError::Domain => text::copied("no linear relaxation on this interval"),
        }
    }
}

/// The first `k` numbers of a list, separated by commas.
pub open spec fn joined(v: Seq<usize>, k: nat) -> Seq<char>
    decreases k,
{
    if k == 0 {
        Seq::empty()
    } else if k == 1 {
        text::digits(v[0] as nat)
    } else {
        joined(v, (k - 1) as nat) + ", "@ + text::digits(v[k - 1] as nat)
    }
}

/// The name, the shape in brackets, and the kind of a variable or constant.
pub open spec fn atom_text<S>(a: AtomV<S>) -> Seq<char> {
    let kind = match a.value {
        None => "var"@,
        Some(t) => "const["@ + text::digits(t.data.len()) + " elems]"@,
    };
    a.name + "["@ + joined(a.shape, a.shape.len()) + "] ("@ + kind + ")"@
}

/// The descriptions of the first `k` operands, separated by commas.
pub open spec fn operands_text<S>(v: Seq<AtomV<S>>, k: nat) -> Seq<char>
    decreases k,
{
    if k == 0 {
        Seq::empty()
    } else if k == 1 {
        atom_text(v[0])
    } else {
        operands_text(v, (k - 1) as nat) + ", "@ + atom_text(v[k - 1])
    }
}

/// The name of an operation, with its operands in brackets.
pub open spec fn prim_text<S>(p: PrimV<S>) -> Seq<char> {
    let v = nn::operands_of(p);
    nn::name_of(p) + "("@ + operands_text(v, v.len()) + ")"@
}

impl<S: Scalar> Atom<S> {
    /// The name, the shape in brackets, and the kind of the variable or constant.
    pub fn to_text(&self) -> (r: String)
        ensures
            r@ == atom_text(self@),
    {
        let mut dims = String::new();
        for i in 0..self.shape.len()
            invariant
                dims@ == joined(self.shape@, i as nat),
        {
            if i > 0 {
                dims.append(", ");
                dims.append(text::decimal(self.shape[i]).as_str());
            } else {
                dims = text::decimal(self.shape[i]);
            }
        }
        let kind = match &self.kind {
            AtomKind::Var => text::copied("var"),
            AtomKind::Const(data) => {
                let mut k = text::with_number("const[", data.len());
                k.append(" elems]");
                k
            },
        };
        let mut s = self.name.clone();
        s.append("[");
        s.append(dims.as_str());
        s.append("] (");
        s.append(kind.as_str());
        s.append(")");
        s
    }
}

impl<S: Scalar> Primitive<S> {
    /// The name of the operation, with its operands in brackets.
    pub fn to_text(&self) -> (r: String)
        ensures
            r@ == prim_text(self@),
    {
        let operands = self.operands();
        let ghost v = nn::operands_of(self@);
        let mut list = String::new();
        for i in 0..operands.len()
            invariant
                v == nn::ref_views(operands@),
                list@ == operands_text(v, i as nat),
        {
            assert(v[i as int] == operands@[i as int]@);
            if i > 0 {
                list.append(", ");
                list.append(operands[i].to_text().as_str());
            } else {
                list = operands[i].to_text();
            }
        }
        let mut s = text::copied(self.name());
        s.append("(");
        s.append(list.as_str());
        s.append(")");
        s
    }
}

} // verus!
