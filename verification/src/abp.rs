//! Affine bound propagation from the output of a graph.

use vstd::prelude::*;
use crate::affine::AffineBounds;
use crate::alpha_crown;
use crate::alpha_crown::AlphaCrownInterpreter;
use crate::crown;
use crate::crown::{ParamsV, Relaxation, Start, StartV};
use crate::env;
use crate::env::Env;
use crate::error::EvalError;
use crate::interval::IBPTensor;
use crate::nn::ComputeGraph;
use crate::scalar::Scalar;
use crate::tensor::Tensor;
use crate::value;
use crate::value::Value;

verus! {

/// The affine function `sum(weights * x) + biases`.
pub type ABPTensor<T> = AffineBounds<T>;

/// An affine function, mathematically.
pub open spec fn abp_result<S: Scalar, T: Value<S>>(r: Result<ABPTensor<T>, EvalError>) -> Result<
    crate::affine::AffineV<T::M>,
    crate::model::Fault,
> {
    match r {
        Ok(a) => Ok(crate::affine::affine::<S, T>(a)),
        Err(e) => Err(e@),
    }
}

/// Bounds a graph by affine functions, from its output variable on.
pub struct ABPInterpreter {}

impl ABPInterpreter {
    /// The affine function below the sum of the output of a graph with one input and one output,
    /// for the given bounds of its variables and slopes below its activations.
    pub fn linear_lower_bound<S: Scalar, T: Value<S>>(
        graph: &ComputeGraph<S>,
        var_bounds: &Env<IBPTensor<S>>,
        params: &Env<T>,
        cx: &mut T::Cx,
    ) -> (r: Result<ABPTensor<T>, EvalError>)
        ensures
            ({
                let want = crown::lower_bound::<S, T>(
                    T::c(old(cx)),
                    graph@,
                    alpha_crown::intervals(*var_bounds),
                    ParamsV { alphas: env::scope::<S, T>(params@), splitting: None },
                    StartV::Output,
                );
                &&& T::c(final(cx)) == want.0
                &&& abp_result::<S, T>(r) == match want.1 {
                    Ok((a, _)) => Ok(a),
                    Err(f) => Err(f),
                }
            }),
    {
        let relaxation = Relaxation { alphas: params, splitting: None };
        let (bound, _) = crown::linear_lower_bound::<S, T>(
            graph,
            var_bounds,
            &relaxation,
            &Start::Output,
            cx,
        )?;
        Ok(bound)
    }

    /// The affine functions below and above the sum of the output of a graph on a box.
    pub fn run<S: Scalar>(graph: &ComputeGraph<S>, inputs: &Vec<IBPTensor<S>>) -> (r: Result<
        (ABPTensor<Tensor<S>>, ABPTensor<Tensor<S>>),
        EvalError,
    >)
        ensures
            alpha_crown::affines_of(r) == alpha_crown::alpha_bounds(
                graph@,
                value::models::<S, IBPTensor<S>>(inputs@),
                StartV::Output,
            ),
    {
        AlphaCrownInterpreter::run_from(graph, inputs, &Start::Output)
    }
}

} // verus!
