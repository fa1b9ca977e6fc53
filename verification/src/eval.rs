//! Evaluation of compute graphs.

use vstd::prelude::*;
use crate::env;
use crate::env::Env;
use crate::error::EvalError;
use crate::model::{Fault, TensorV};
use crate::nn::{Atom, AtomV, ComputeGraph, EqnV, Equation, Form, GraphV, PrimV, Primitive};
use crate::scalar::Scalar;
use crate::tensor::Tensor;
use crate::value;
use crate::value::Value;

verus! {

/// The result of an operation on operands that an environment gives values.
pub open spec fn prim_value<S: Scalar, T: Value<S>>(
    c: T::C,
    e: Map<Seq<char>, T::M>,
    p: PrimV<S>,
) -> (T::C, Result<T::M, Fault>) {
    match p {
        PrimV::Un(op, a) => match env::resolved::<S, T>(e, a) {
            Ok(x) => T::unary(c, op, x),
            Err(f) => (c, Err(f)),
        },
        PrimV::Bin(op, a, b) => match env::resolved::<S, T>(e, a) {
            Ok(x) => match env::resolved::<S, T>(e, b) {
                Ok(y) => T::binary(c, op, x, y),
                Err(f) => (c, Err(f)),
            },
            Err(f) => (c, Err(f)),
        },
        PrimV::Select(p, a, b) => match env::resolved::<S, T>(e, p) {
            Ok(q) => match env::resolved::<S, T>(e, a) {
                Ok(x) => match env::resolved::<S, T>(e, b) {
                    Ok(y) => T::select(c, q, x, y),
                    Err(f) => (c, Err(f)),
                },
                Err(f) => (c, Err(f)),
            },
            Err(f) => (c, Err(f)),
        },
    }
}

/// The environment after the equations from number `i` on.
pub open spec fn forward<S: Scalar, T: Value<S>>(
    c: T::C,
    eqns: Seq<EqnV<S>>,
    e: Map<Seq<char>, T::M>,
    i: nat,
) -> (T::C, Result<Map<Seq<char>, T::M>, Fault>)
    decreases eqns.len() - i,
{
    if i >= eqns.len() {
        (c, Ok(e))
    } else {
        match prim_value::<S, T>(c, e, eqns[i as int].prim) {
            (c2, Ok(v)) => forward::<S, T>(c2, eqns, e.insert(eqns[i as int].out.name, v), i + 1),
            (c2, Err(f)) => (c2, Err(f)),
        }
    }
}

/// The environment that gives the first `k` variables the first `k` values.
pub open spec fn bound<S: Scalar, M>(vars: Seq<AtomV<S>>, values: Seq<M>, k: nat) -> Map<
    Seq<char>,
    M,
>
    decreases k,
{
    if k == 0 {
        Map::empty()
    } else {
        bound(vars, values, (k - 1) as nat).insert(vars[k - 1].name, values[k - 1])
    }
}

/// The smaller of two lengths.
pub open spec fn shorter(a: nat, b: nat) -> nat {
    if a <= b {
        a
    } else {
        b
    }
}

/// The values of the first `k` variables; a variable without a value is an error.
pub open spec fn gathered<S: Scalar, M>(vars: Seq<AtomV<S>>, e: Map<Seq<char>, M>, k: nat) -> Result<
    Seq<M>,
    Fault,
>
    decreases k,
{
    if k == 0 {
        Ok(Seq::empty())
    } else {
        match gathered(vars, e, (k - 1) as nat) {
            Ok(s) => if e.dom().contains(vars[k - 1].name) {
                Ok(s.push(e[vars[k - 1].name]))
            } else {
                Err(Fault::NeverComputed(vars[k - 1].name))
            },
            Err(f) => Err(f),
        }
    }
}

/// The environment after a graph has been evaluated on the given inputs.
pub open spec fn environment<S: Scalar, T: Value<S>>(
    c: T::C,
    g: GraphV<S>,
    inputs: Seq<T::M>,
) -> (T::C, Result<Map<Seq<char>, T::M>, Fault>) {
    forward::<S, T>(
        c,
        g.equations,
        bound(g.invars, inputs, shorter(g.invars.len(), inputs.len())),
        0,
    )
}

/// The outputs of a graph on the given inputs.
pub open spec fn evaluated<S: Scalar, T: Value<S>>(c: T::C, g: GraphV<S>, inputs: Seq<T::M>) -> (
    T::C,
    Result<Seq<T::M>, Fault>,
) {
    match environment::<S, T>(c, g, inputs) {
        (c2, Ok(e)) => (c2, gathered(g.outvars, e, g.outvars.len())),
        (c2, Err(f)) => (c2, Err(f)),
    }
}

/// An interpreter of compute graphs over one kind of values.
pub trait Interpreter<S: Scalar, V: Value<S>> {
    /// The outputs of a graph on the given inputs.
    spec fn meaning(g: GraphV<S>, inputs: Seq<V::M>) -> Result<Seq<V::M>, Fault>;

    /// Runs a graph on the given inputs.
    fn run(graph: &ComputeGraph<S>, inputs: &Vec<V>) -> (r: Result<Vec<V>, EvalError>)
        ensures
            value::results::<S, V>(r) == Self::meaning(graph@, value::models::<S, V>(inputs@)),
    ;
}

/// Evaluates a graph over any kind of values.
pub struct EvalGenInterpreter;

impl EvalGenInterpreter {
    pub fn new() -> (r: Self)
        ensures
            r == EvalGenInterpreter,
    {
        EvalGenInterpreter
    }

    /// The result of one operation.
    pub fn process_primitive<S: Scalar, T: Value<S>>(
        primitive: &Primitive<S>,
        env: &Env<T>,
        cx: &mut T::Cx,
    ) -> (r: Result<T, EvalError>)
        ensures
            (T::c(final(cx)), value::result::<S, T>(r)) == prim_value::<S, T>(
                T::c(old(cx)),
                env::scope::<S, T>(env@),
                primitive@,
            ),
    {
        match primitive.form() {
            Form::Un(op, a) => {
                let x: T = env.resolve(a)?;
                x.apply1(&op, cx)
            },
            Form::Bin(op, a, b) => {
                let x: T = env.resolve(a)?;
                let y: T = env.resolve(b)?;
                x.apply2(&op, &y, cx)
            },
            Form::Select(p, a, b) => {
                let q: T = env.resolve(p)?;
                let x: T = env.resolve(a)?;
                let y: T = env.resolve(b)?;
                T::apply3(&q, &x, &y, cx)
            },
        }
    }

    /// The environment that gives the inputs of a graph their values.
    pub fn bind<S: Scalar, T: Value<S>>(vars: &Vec<Atom<S>>, values: &Vec<T>) -> (r: Env<T>)
        ensures
            env::scope::<S, T>(r@) == bound(
                crate::nn::atom_views(vars@),
                value::models::<S, T>(values@),
                shorter(vars@.len(), values@.len()),
            ),
    {
        let mut e: Env<T> = Env::new();
        let n: usize = if vars.len() <= values.len() {
            vars.len()
        } else {
            values.len()
        };
        let ghost vs = crate::nn::atom_views(vars@);
        let ghost ms = value::models::<S, T>(values@);
        assert(env::scope::<S, T>(e@) =~= Map::<Seq<char>, T::M>::empty());
        for i in 0..n
            invariant
                n == shorter(vars@.len(), values@.len()),
                vs == crate::nn::atom_views(vars@),
                ms == value::models::<S, T>(values@),
                env::scope::<S, T>(e@) == bound(vs, ms, i as nat),
        {
            let v = values[i].copy();
            proof {
                env::lemma_scope_insert::<S, T>(e@, vars@[i as int].name@, v);
            }
            e.insert(vars[i].name.clone(), v);
        }
        e
    }

    /// Evaluates all equations.
    pub fn forward<S: Scalar, T: Value<S>>(
        equations: &Vec<Equation<S>>,
        start: Env<T>,
        cx: &mut T::Cx,
    ) -> (r: Result<Env<T>, EvalError>)
        ensures
            ({
                let f = forward::<S, T>(
                    T::c(old(cx)),
                    crate::nn::eqn_views(equations@),
                    env::scope::<S, T>(start@),
                    0,
                );
                &&& T::c(final(cx)) == f.0
                &&& match (r, f.1) {
                    (Ok(e), Ok(m)) => env::scope::<S, T>(e@) == m,
                    (Err(e), Err(g)) => e@ == g,
                    _ => false,
                }
            }),
    {
        let mut e = start;
        let ghost eqns = crate::nn::eqn_views(equations@);
        let ghost goal = forward::<S, T>(T::c(cx), eqns, env::scope::<S, T>(e@), 0);
        for i in 0..equations.len()
            invariant
                eqns == crate::nn::eqn_views(equations@),
                goal == forward::<S, T>(T::c(cx), eqns, env::scope::<S, T>(e@), i as nat),
                goal == forward::<S, T>(
                    T::c(old(cx)),
                    crate::nn::eqn_views(equations@),
                    env::scope::<S, T>(start@),
                    0,
                ),
        {
            let v = Self::process_primitive::<S, T>(&equations[i].primitive, &e, cx)?;
            proof {
                env::lemma_scope_insert::<S, T>(e@, equations@[i as int].outvar.name@, v);
            }
            e.insert(equations[i].outvar.name.clone(), v);
        }
        Ok(e)
    }

    /// Runs a graph on the given inputs.
    pub fn run<S: Scalar, T: Value<S>>(
        graph: &ComputeGraph<S>,
        inputs: &Vec<T>,
        cx: &mut T::Cx,
    ) -> (r: Result<Vec<T>, EvalError>)
        ensures
            (T::c(final(cx)), value::results::<S, T>(r)) == evaluated::<S, T>(
                T::c(old(cx)),
                graph@,
                value::models::<S, T>(inputs@),
            ),
    {
        let start = Self::bind::<S, T>(&graph.invars, inputs);
        let e = Self::forward::<S, T>(&graph.equations, start, cx)?;
        let ghost outs = crate::nn::atom_views(graph.outvars@);
        let mut out: Vec<T> = Vec::new();
        assert(value::models::<S, T>(out@) =~= Seq::<T::M>::empty());
        for i in 0..graph.outvars.len()
            invariant
                outs == crate::nn::atom_views(graph.outvars@),
                evaluated::<S, T>(T::c(old(cx)), graph@, value::models::<S, T>(inputs@)) == (
                    T::c(cx),
                    gathered(outs, env::scope::<S, T>(e@), outs.len()),
                ),
                gathered(outs, env::scope::<S, T>(e@), i as nat) == Ok::<Seq<T::M>, Fault>(
                    value::models::<S, T>(out@),
                ),
        {
            match e.get(graph.outvars[i].name.as_str()) {
                Some(v) => {
                    let ghost before = value::models::<S, T>(out@);
                    out.push(v.copy());
                    assert(value::models::<S, T>(out@) =~= before.push(v.m()));
                },
                None => {
                    proof {
                        lemma_gathered_missing(
                            outs,
                            env::scope::<S, T>(e@),
                            (i + 1) as nat,
                            outs.len(),
                        );
                    }
                    return Err(EvalError::NeverComputed(graph.outvars[i].name.clone()));
                },
            }
        }
        Ok(out)
    }
}

/// The first variable without a value decides the error.
pub proof fn lemma_gathered_missing<S: Scalar, M>(
    vars: Seq<AtomV<S>>,
    e: Map<Seq<char>, M>,
    i: nat,
    k: nat,
)
    requires
        i <= k,
        gathered(vars, e, i) is Err,
    ensures
        gathered(vars, e, k) == gathered(vars, e, i),
    decreases k,
{
    if i < k {
        lemma_gathered_missing(vars, e, i, (k - 1) as nat);
    }
}

/// Evaluates a graph over tensors.
pub struct EvalInterpreter;

impl EvalInterpreter {
    pub fn new() -> (r: Self)
        ensures
            r == EvalInterpreter,
    {
        EvalInterpreter
    }

    /// The result of one operation.
    pub fn process_primitive<S: Scalar>(primitive: &Primitive<S>, env: &Env<Tensor<S>>) -> (r:
        Result<Tensor<S>, EvalError>)
        ensures
            value::result::<S, Tensor<S>>(r) == prim_value::<S, Tensor<S>>(
                (),
                env::scope::<S, Tensor<S>>(env@),
                primitive@,
            ).1,
    {
        let mut cx: () = ();
        EvalGenInterpreter::process_primitive::<S, Tensor<S>>(primitive, env, &mut cx)
    }
}

impl<S: Scalar> Interpreter<S, Tensor<S>> for EvalInterpreter {
    open spec fn meaning(g: GraphV<S>, inputs: Seq<TensorV<S>>) -> Result<Seq<TensorV<S>>, Fault> {
        evaluated::<S, Tensor<S>>((), g, inputs).1
    }

    fn run(graph: &ComputeGraph<S>, inputs: &Vec<Tensor<S>>) -> (r: Result<
        Vec<Tensor<S>>,
        EvalError,
    >) {
        let mut cx: () = ();
        EvalGenInterpreter::run::<S, Tensor<S>>(graph, inputs, &mut cx)
    }
}

} // verus!
