//! Building compute graphs by tracing.

use vstd::prelude::*;
use crate::env;
use crate::env::Env;
use crate::error::EvalError;
use crate::model::Fault;
use crate::nn;
use crate::nn::{Atom, AtomV, ComputeGraph, GraphV};
use crate::scalar::Scalar;
use crate::tensor;
use crate::tracer;
use crate::tracer::{BuilderV, ComputeGraphBuilder, Tracer, TracerV};
use crate::value::Value;

verus! {

/// The names and shapes of some inputs.
pub open spec fn input_views(v: Seq<(String, Vec<usize>)>) -> Seq<(Seq<char>, Seq<usize>)> {
    Seq::new(v.len(), |i: int| (v[i].0@, v[i].1@))
}

/// The inputs as variables.
pub open spec fn input_atoms<S>(v: Seq<(Seq<char>, Seq<usize>)>) -> Seq<AtomV<S>> {
    Seq::new(v.len(), |i: int| nn::variable(v[i].0, v[i].1))
}

/// A graph without equations that has the given inputs. Generated names start behind theirs.
pub open spec fn fresh<S>(v: Seq<(Seq<char>, Seq<usize>)>) -> BuilderV<S> {
    BuilderV {
        next: tracer::first_number(tracer::atom_names(input_atoms::<S>(v))),
        equations: Seq::empty(),
        invars: input_atoms(v),
    }
}

/// The traced values of the first `k` atoms, by name.
pub open spec fn traced_vars<S>(atoms: Seq<AtomV<S>>, k: nat) -> Map<Seq<char>, TracerV<S>>
    decreases k,
{
    if k == 0 {
        Map::empty()
    } else {
        traced_vars(atoms, (k - 1) as nat).insert(
            atoms[k - 1].name,
            tracer::tracing(atoms[k - 1]),
        )
    }
}

/// The variables of a graph: its inputs and the results of its equations.
pub open spec fn graph_vars<S>(g: GraphV<S>) -> Seq<AtomV<S>> {
    g.invars + Seq::new(g.equations.len(), |i: int| g.equations[i].out)
}

/// The graph under construction, finished with one output.
pub open spec fn finished<S>(b: BuilderV<S>, out: TracerV<S>) -> GraphV<S> {
    GraphV { invars: b.invars, outvars: seq![out.atom], equations: b.equations }
}

/// A graph under construction with the given inputs, and their traced values.
pub fn build_env<S: Scalar>(inputs: &Vec<(String, Vec<usize>)>) -> (r: (
    ComputeGraphBuilder<S>,
    Env<Tracer<S>>,
))
    ensures
        r.0@ == fresh::<S>(input_views(inputs@)),
        env::scope::<S, Tracer<S>>(r.1@) == traced_vars(
            input_atoms::<S>(input_views(inputs@)),
            inputs@.len(),
        ),
{
    let mut builder: ComputeGraphBuilder<S> = ComputeGraphBuilder::beside(inputs);
    let mut e: Env<Tracer<S>> = Env::new();
    let ghost vars = input_atoms::<S>(input_views(inputs@));
    let ghost first = builder@.next;
    assert(Seq::new(inputs@.len(), |i: int| inputs@[i].0@) =~= tracer::atom_names(vars));
    assert(env::scope::<S, Tracer<S>>(e@) =~= Map::<Seq<char>, TracerV<S>>::empty());
    assert(vars.subrange(0, 0) =~= Seq::<AtomV<S>>::empty());
    for i in 0..inputs.len()
        invariant
            vars == input_atoms::<S>(input_views(inputs@)),
            builder@ == (BuilderV::<S> {
                next: first,
                equations: Seq::empty(),
                invars: vars.subrange(0, i as int),
            }),
            env::scope::<S, Tracer<S>>(e@) == traced_vars(vars, i as nat),
    {
        let name = inputs[i].0.clone();
        let shape = tensor::copy_of(&inputs[i].1);
        let atom = builder.register_invar(inputs[i].0.clone(), shape);
        let t = Tracer::new(atom);
        proof {
            assert(vars.subrange(0, i as int).push(vars[i as int]) =~= vars.subrange(0, i + 1));
            env::lemma_scope_insert::<S, Tracer<S>>(e@, name@, t);
        }
        e.insert(name, t);
    }
    assert(vars.subrange(0, vars.len() as int) =~= vars);
    (builder, e)
}

/// The traced values of some atoms, by name, beside those there are.
fn insert_all<S: Scalar>(
    e: Env<Tracer<S>>,
    atoms: &Vec<Atom<S>>,
    Ghost(all): Ghost<Seq<AtomV<S>>>,
    Ghost(from): Ghost<nat>,
) -> (r: Env<Tracer<S>>)
    requires
        env::scope::<S, Tracer<S>>(e@) == traced_vars(all, from),
        from + atoms@.len() <= all.len(),
        forall|i: int| 0 <= i < atoms@.len() ==> (#[trigger] atoms@[i])@ == all[from + i],
    ensures
        env::scope::<S, Tracer<S>>(r@) == traced_vars(all, from + atoms@.len()),
{
    let mut e = e;
    for i in 0..atoms.len()
        invariant
            from + atoms@.len() <= all.len(),
            forall|i: int| 0 <= i < atoms@.len() ==> (#[trigger] atoms@[i])@ == all[from + i],
            env::scope::<S, Tracer<S>>(e@) == traced_vars(all, from + i as nat),
    {
        let t = Tracer::new(atoms[i].clone());
        proof {
            env::lemma_scope_insert::<S, Tracer<S>>(e@, atoms@[i as int].name@, t);
        }
        e.insert(atoms[i].name.clone(), t);
    }
    e
}

/// A reopened graph, and the traced values of all its variables.
pub fn reopen<S: Scalar>(graph: &ComputeGraph<S>) -> (r: Result<
    (ComputeGraphBuilder<S>, Env<Tracer<S>>),
    EvalError,
>)
    ensures
        match r {
            Ok((b, e)) => {
                &&& b@ == tracer::reopened(graph@)
                &&& tracer::reopened(graph@).next <= usize::MAX
                &&& env::scope::<S, Tracer<S>>(e@) == traced_vars(
                    graph_vars(graph@),
                    graph_vars(graph@).len(),
                )
            },
            Err(f) => f@ == Fault::Size && tracer::reopened(graph@).next > usize::MAX,
        },
{
    let builder = match ComputeGraphBuilder::from_graph(graph.clone()) {
        Some(b) => b,
        None => {
            return Err(EvalError::Size);
        },
    };
    let ghost all = graph_vars(graph@);
    let e: Env<Tracer<S>> = Env::new();
    assert(env::scope::<S, Tracer<S>>(e@) =~= Map::<Seq<char>, TracerV<S>>::empty());
    let e = insert_all(e, &graph.invars, Ghost(all), Ghost(0));
    let mut outs: Vec<Atom<S>> = Vec::new();
    for i in 0..graph.equations.len()
        invariant
            outs@.len() == i,
            forall|j: int|
                0 <= j < i ==> (#[trigger] outs@[j])@ == graph.equations@[j].outvar@,
    {
        outs.push(graph.equations[i].outvar.clone());
    }
    let e = insert_all(e, &outs, Ghost(all), Ghost(graph.invars@.len()));
    Ok((builder, e))
}

/// Whether `r` is what a tracing function `f` leads to on the given graph and values.
pub open spec fn leads_to<S: Scalar, F>(
    f: F,
    b: BuilderV<S>,
    e: Map<Seq<char>, TracerV<S>>,
    r: Result<ComputeGraph<S>, EvalError>,
) -> bool where
    F: FnOnce(Env<Tracer<S>>, ComputeGraphBuilder<S>) -> (
        ComputeGraphBuilder<S>,
        Result<Tracer<S>, EvalError>,
    ),
 {
    exists|
        env: Env<Tracer<S>>,
        builder: ComputeGraphBuilder<S>,
        out: (ComputeGraphBuilder<S>, Result<Tracer<S>, EvalError>),
    |
        #![trigger call_ensures(f, (env, builder), out)]
        {
            &&& env::scope::<S, Tracer<S>>(env@) == e
            &&& builder@ == b
            &&& call_ensures(f, (env, builder), out)
            &&& match (r, out.1) {
                (Ok(g), Ok(t)) => g@ == finished(out.0@, t@),
                (Err(x), Err(y)) => x@ == y@,
                _ => false,
            }
        }
}

/// The graph that a function of the given inputs records. The function takes the graph under
/// construction and hands it back.
pub fn try_trace<S: Scalar, F>(inputs: &Vec<(String, Vec<usize>)>, f: F) -> (r: Result<
    ComputeGraph<S>,
    EvalError,
>) where
    F: FnOnce(Env<Tracer<S>>, ComputeGraphBuilder<S>) -> (
        ComputeGraphBuilder<S>,
        Result<Tracer<S>, EvalError>,
    ),

    requires
        forall|e: Env<Tracer<S>>, b: ComputeGraphBuilder<S>| call_requires(f, (e, b)),
    ensures
        leads_to(
            f,
            fresh::<S>(input_views(inputs@)),
            traced_vars(input_atoms::<S>(input_views(inputs@)), inputs@.len()),
            r,
        ),
{
    let (builder, e) = build_env::<S>(inputs);
    let out = f(e, builder);
    match out.1 {
        Ok(t) => Ok(out.0.build(t.atom().clone())),
        Err(x) => Err(x),
    }
}

/// The graph that a function of the variables of another graph records: with `None` the other
/// graph is reopened, keeping its equations and names; with `Some` the graph is a fresh one that
/// has the given inputs.
pub fn try_trace_graph<S: Scalar, F>(
    graph: &ComputeGraph<S>,
    extra_invars: Option<Vec<(String, Vec<usize>)>>,
    f: F,
) -> (r: Result<ComputeGraph<S>, EvalError>) where
    F: FnOnce(Env<Tracer<S>>, ComputeGraphBuilder<S>) -> (
        ComputeGraphBuilder<S>,
        Result<Tracer<S>, EvalError>,
    ),

    requires
        forall|e: Env<Tracer<S>>, b: ComputeGraphBuilder<S>| call_requires(f, (e, b)),
    ensures
        match extra_invars {
            Some(v) => leads_to(
                f,
                fresh::<S>(input_views(v@)),
                traced_vars(input_atoms::<S>(input_views(v@)), v@.len()),
                r,
            ),
            None => if tracer::reopened(graph@).next > usize::MAX {
                r matches Err(x) && x@ == Fault::Size
            } else {
                leads_to(
                    f,
                    tracer::reopened(graph@),
                    traced_vars(graph_vars(graph@), graph_vars(graph@).len()),
                    r,
                )
            },
        },
{
    match extra_invars {
        Some(v) => try_trace(&v, f),
        None => {
            let (builder, e) = reopen(graph)?;
            let out = f(e, builder);
            match out.1 {
                Ok(t) => Ok(out.0.build(t.atom().clone())),
                Err(x) => Err(x),
            }
        },
    }
}

/// The graph that a function of the given inputs records, where the function cannot fail.
pub fn trace<S: Scalar, F>(inputs: &Vec<(String, Vec<usize>)>, f: F) -> (r: ComputeGraph<S>) where
    F: FnOnce(Env<Tracer<S>>, ComputeGraphBuilder<S>) -> (ComputeGraphBuilder<S>, Tracer<S>),

    requires
        forall|e: Env<Tracer<S>>, b: ComputeGraphBuilder<S>| call_requires(f, (e, b)),
    ensures
        exists|
            env: Env<Tracer<S>>,
            builder: ComputeGraphBuilder<S>,
            out: (ComputeGraphBuilder<S>, Tracer<S>),
        |
            #![trigger call_ensures(f, (env, builder), out)]
            {
                &&& env::scope::<S, Tracer<S>>(env@) == traced_vars(
                    input_atoms::<S>(input_views(inputs@)),
                    inputs@.len(),
                )
                &&& builder@ == fresh::<S>(input_views(inputs@))
                &&& call_ensures(f, (env, builder), out)
                &&& r@ == finished(out.0@, out.1@)
            },
{
    let (builder, e) = build_env::<S>(inputs);
    let out = f(e, builder);
    out.0.build(out.1.atom().clone())
}

} // verus!
