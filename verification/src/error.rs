//! Errors.

use vstd::prelude::*;
use crate::model::Fault;

verus! {

/// Why an operation has no result.
#[derive(Debug, Clone, PartialEq, Eq)]
pub enum EvalError {
    /// A variable is not bound.
    Undefined(String),
    /// An output variable is not bound after the last equation.
    NeverComputed(String),
    /// Shapes that do not broadcast.
    Broadcast,
    /// Contracted axes of different lengths.
    Dot,
    /// A reshape that changes the number of elements.
    Reshape,
    /// A convolution of tensors that are not of rank four.
    ConvRank,
    /// A convolution of tensors with different channel counts.
    ConvChannels,
    /// A pooling window or stride of another rank than the tensor.
    PoolRank,
    /// An axis number out of range.
    Axis,
    /// A slice with step zero.
    Step,
    /// A window that leaves the tensor, or a stride of zero.
    Window,
    /// A result with more elements than a tensor can hold.
    Size,
    /// An interval whose ends have different shapes.
    Interval,
    /// A primitive that is no activation function.
    NotActivation,
    /// An operation that the interpreter does not handle.
    Unsupported,
    /// A graph of another form than the interpreter handles.
    Graph,
    /// A division or split that needs at least one element.
    Empty,
    /// An interval on which a function has no linear relaxation.
    Domain,
}

impl View for EvalError {
    type V = Fault;

    open spec fn view(&self) -> Fault {
        match self {
            EvalError::Undefined(name) => Fault::Undefined(name@),
            EvalError::NeverComputed(name) => Fault::NeverComputed(name@),
            EvalError::Broadcast => Fault::Broadcast,
            EvalError::Dot => Fault::Dot,
            EvalError::Reshape => Fault::Reshape,
            EvalError::ConvRank => Fault::ConvRank,
            EvalError::ConvChannels => Fault::ConvChannels,
            EvalError::PoolRank => Fault::PoolRank,
            EvalError::Axis => Fault::Axis,
            EvalError::Step => Fault::Step,
            EvalError::Window => Fault::Window,
            EvalError::Size => Fault::Size,
            EvalError::Interval => Fault::Interval,
            EvalError::NotActivation => Fault::NotActivation,
            EvalError::Unsupported => Fault::Unsupported,
            EvalError::Graph => Fault::Graph,
            EvalError::Empty => Fault::Empty,
            EvalError::Domain => Fault::Domain,
        }
    }
}

} // verus!
