//! Optimised slopes: bounds by gradient ascent over the relaxation of the activations.

use vstd::prelude::*;
use crate::affine;
use crate::affine::{AffineBounds, AffineV};
use crate::compute_graph;
use crate::crown;
use crate::crown::{ParamsV, Relaxation, Start, StartV};
use crate::env;
use crate::env::Env;
use crate::error::EvalError;
use crate::eval;
use crate::eval::EvalGenInterpreter;
use crate::grad;
use crate::grad::GradInterpreter;
use crate::interval;
use crate::interval::{IBPInterpreter, IBPTensor, IBPV};
use crate::model;
use crate::model::{BinOpV, Fault, TensorV, UnOpV};
use crate::nn;
use crate::nn::{ComputeGraph, EqnV, Equation, GraphV, PrimV, Primitive};
use crate::op::{BinOp, UnOp};
use crate::scalar;
use crate::scalar::Scalar;
use crate::tensor;
use crate::tensor::Tensor;
use crate::tracer;
use crate::tracer::Tracer;
use crate::value;
use crate::value::Value;

verus! {

/// The number of ascent steps.
pub const ITERS: usize = 10;

/// The interval bounds that names stand for.
pub open spec fn intervals<S: Scalar>(e: Env<IBPTensor<S>>) -> Map<Seq<char>, IBPV<S>> {
    env::scope::<S, IBPTensor<S>>(e@)
}

// ---- the parameters ----
/// The activations among the first `k` equations that have parameters, with their shapes.
pub open spec fn slots<S>(eqns: Seq<EqnV<S>>, params: Map<Seq<char>, TensorV<S>>, k: nat) -> Seq<
    (Seq<char>, Seq<usize>),
>
    decreases k,
{
    if k == 0 {
        Seq::empty()
    } else {
        let s = slots(eqns, params, (k - 1) as nat);
        let name = eqns[k - 1].out.name;
        if nn::is_activation(eqns[k - 1].prim) && params.dom().contains(name) {
            s.push((name, params[name].shape))
        } else {
            s
        }
    }
}

/// The activations that have parameters, with their shapes.
pub(crate) fn slot_list<S: Scalar>(eqns: &Vec<Equation<S>>, params: &Env<Tensor<S>>) -> (r: Vec<
    (String, Vec<usize>),
>)
    ensures
        compute_graph::input_views(r@) == slots(
            nn::eqn_views(eqns@),
            crown::tensors(*params),
            eqns@.len(),
        ),
{
    let ghost views = nn::eqn_views(eqns@);
    let ghost ps = crown::tensors(*params);
    let mut out: Vec<(String, Vec<usize>)> = Vec::new();
    assert(compute_graph::input_views(out@) =~= slots(views, ps, 0));
    for i in 0..eqns.len()
        invariant
            views == nn::eqn_views(eqns@),
            ps == crown::tensors(*params),
            compute_graph::input_views(out@) == slots(views, ps, i as nat),
    {
        let eqn = &eqns[i];
        assert(views[i as int] == eqn@);
        let ghost before = compute_graph::input_views(out@);
        if eqn.primitive.activates() {
            if let Some(alpha) = params.get(eqn.outvar.name.as_str()) {
                let shape = tensor::copy_of(alpha.shape());
                out.push((eqn.outvar.name.clone(), shape));
                assert(compute_graph::input_views(out@) =~= before.push(
                    (eqn.outvar.name@, alpha@.shape),
                ));
            }
        }
    }
    out
}

/// The slope that a line below an activation starts from.
pub open spec fn first_slope<S: Scalar>(l: S, u: S) -> S {
    if u.at_most(l.opposite()) {
        scalar::zero()
    } else {
        scalar::one()
    }
}

/// The slopes that the lines below an activation start from.
pub open spec fn first_slopes<S: Scalar>(x: IBPV<S>) -> TensorV<S> {
    interval::zipped(x.lb, x.ub, |l: S, u: S| first_slope(l, u))
}

/// The slopes that the lines below an activation start from.
pub(crate) fn initial_alpha<S: Scalar>(bound: &IBPTensor<S>) -> (r: Tensor<S>)
    ensures
        r@ == first_slopes(bound@),
{
    let zero = scalar::number::<S>(0);
    let one = scalar::number::<S>(1);
    let f = |l: S, u: S| -> (z: S)
        ensures
            z == first_slope(l, u),
        {
            if u.is_le(l.neg()) {
                zero
            } else {
                one
            }
        };
    let r = interval::zip_with(bound.lb(), bound.ub(), f);
    assert(r@ =~= first_slopes(bound@));
    r
}

// ---- one ascent step ----
/// A number between zero and one.
pub open spec fn in_unit<S: Scalar>(v: S) -> S {
    if v.less(scalar::zero()) {
        scalar::zero()
    } else if scalar::one::<S>().less(v) {
        scalar::one()
    } else {
        v
    }
}

/// A parameter moved along its gradient.
pub open spec fn nudged<S: Scalar>(p: TensorV<S>, g: TensorV<S>) -> Result<TensorV<S>, Fault> {
    model::bin_tensor(BinOpV::Add, p, model::mapped(g, |x: S| x.times(S::ratio(1, 100))))
}

/// A slope moved along its gradient, and back to between zero and one.
pub open spec fn next_alpha<S: Scalar>(p: TensorV<S>, g: TensorV<S>) -> Result<TensorV<S>, Fault> {
    match nudged(p, g) {
        Ok(t) => Ok(model::mapped(t, |v: S| in_unit(v))),
        Err(f) => Err(f),
    }
}

/// A parameter moved along its gradient.
pub(crate) fn nudge<S: Scalar>(p: &Tensor<S>, g: &Tensor<S>) -> (r: Result<Tensor<S>, EvalError>)
    ensures
        tensor::outcome(r) == nudged(p@, g@),
{
    let rate = S::from_ratio(1, 100);
    let f = |x: S| -> (y: S)
        ensures
            y == x.times(S::ratio(1, 100)),
        { x.mul(rate) };
    let scaled = g.mapv(f);
    assert(scaled@ =~= model::mapped(g@, |x: S| x.times(S::ratio(1, 100))));
    p.pairwise(&BinOp::Add, &scaled)
}

/// A slope moved along its gradient, and back to between zero and one.
pub(crate) fn project_alpha<S: Scalar>(p: &Tensor<S>, g: &Tensor<S>) -> (r: Result<
    Tensor<S>,
    EvalError,
>)
    ensures
        tensor::outcome(r) == next_alpha(p@, g@),
{
    let zero = scalar::number::<S>(0);
    let one = scalar::number::<S>(1);
    let moved = nudge(p, g)?;
    let f = |v: S| -> (y: S)
        ensures
            y == in_unit(v),
        {
            if v.is_lt(zero) {
                zero
            } else if one.is_lt(v) {
                one
            } else {
                v
            }
        };
    let r = moved.mapv(f);
    assert(r@ =~= model::mapped(moved@, |v: S| in_unit(v)));
    Ok(r)
}

/// The values of the first `k` parameters.
pub open spec fn looked_up<S>(
    names: Seq<(Seq<char>, Seq<usize>)>,
    params: Map<Seq<char>, TensorV<S>>,
    k: nat,
) -> Result<Seq<TensorV<S>>, Fault>
    decreases k,
{
    if k == 0 {
        Ok(Seq::empty())
    } else {
        match looked_up(names, params, (k - 1) as nat) {
            Err(f) => Err(f),
            Ok(s) => if params.dom().contains(names[k - 1].0) {
                Ok(s.push(params[names[k - 1].0]))
            } else {
                Err(Fault::Undefined(names[k - 1].0))
            },
        }
    }
}

/// The parameters after the first `k` have moved along their gradients.
pub open spec fn ascended<S: Scalar>(
    names: Seq<(Seq<char>, Seq<usize>)>,
    grads: Seq<TensorV<S>>,
    params: Map<Seq<char>, TensorV<S>>,
    k: nat,
) -> Result<Map<Seq<char>, TensorV<S>>, Fault>
    decreases k,
{
    if k == 0 {
        Ok(params)
    } else {
        match ascended(names, grads, params, (k - 1) as nat) {
            Err(f) => Err(f),
            Ok(p) => {
                let name = names[k - 1].0;
                if !p.dom().contains(name) {
                    Err(Fault::Undefined(name))
                } else {
                    match next_alpha(p[name], grads[k - 1]) {
                        Ok(t) => Ok(p.insert(name, t)),
                        Err(f) => Err(f),
                    }
                }
            },
        }
    }
}

/// The parameters after one ascent step on the graph `loss`, whose inputs are the parameters.
#[verifier::opaque]
pub open spec fn climbed<S: Scalar>(
    loss: GraphV<S>,
    names: Seq<(Seq<char>, Seq<usize>)>,
    params: Map<Seq<char>, TensorV<S>>,
) -> Result<Map<Seq<char>, TensorV<S>>, Fault> {
    match looked_up(names, params, names.len()) {
        Err(f) => Err(f),
        Ok(inputs) => match grad::loss_gradients(loss, inputs, None) {
            Err(f) => Err(f),
            Ok(grads) => ascended(names, grads, params, eval::shorter(names.len(), grads.len())),
        },
    }
}

/// The parameters after `n` ascent steps.
pub open spec fn climbed_often<S: Scalar>(
    loss: GraphV<S>,
    names: Seq<(Seq<char>, Seq<usize>)>,
    params: Map<Seq<char>, TensorV<S>>,
    n: nat,
) -> Result<Map<Seq<char>, TensorV<S>>, Fault>
    decreases n,
{
    if n == 0 {
        Ok(params)
    } else {
        match climbed(loss, names, params) {
            Ok(p) => climbed_often(loss, names, p, (n - 1) as nat),
            Err(f) => Err(f),
        }
    }
}

/// A missing value decides the outcome.
proof fn lemma_lookup_fails<S>(
    names: Seq<(Seq<char>, Seq<usize>)>,
    params: Map<Seq<char>, TensorV<S>>,
    i: nat,
    k: nat,
)
    requires
        i <= k,
        looked_up(names, params, i) is Err,
    ensures
        looked_up(names, params, k) == looked_up(names, params, i),
    decreases k,
{
    if i < k {
        lemma_lookup_fails(names, params, i, (k - 1) as nat);
    }
}

/// The values of the parameters.
pub(crate) fn look_up<S: Scalar>(names: &Vec<(String, Vec<usize>)>, params: &Env<Tensor<S>>) -> (r:
    Result<Vec<Tensor<S>>, EvalError>)
    ensures
        value::results::<S, Tensor<S>>(r) == looked_up(
            compute_graph::input_views(names@),
            crown::tensors(*params),
            names@.len(),
        ),
{
    let ghost list = compute_graph::input_views(names@);
    let ghost ps = crown::tensors(*params);
    let mut out: Vec<Tensor<S>> = Vec::new();
    assert(value::models::<S, Tensor<S>>(out@) =~= Seq::<TensorV<S>>::empty());
    for i in 0..names.len()
        invariant
            list == compute_graph::input_views(names@),
            ps == crown::tensors(*params),
            looked_up(list, ps, i as nat) == Ok::<Seq<TensorV<S>>, Fault>(
                value::models::<S, Tensor<S>>(out@),
            ),
    {
        assert(list[i as int].0 == names@[i as int].0@);
        match params.get(names[i].0.as_str()) {
            Some(t) => {
                let ghost before = value::models::<S, Tensor<S>>(out@);
                out.push(t.dup());
                assert(value::models::<S, Tensor<S>>(out@) =~= before.push(t@));
            },
            None => {
                proof {
                    lemma_lookup_fails(list, ps, (i + 1) as nat, names@.len());
                }
                return Err(EvalError::Undefined(names[i].0.clone()));
            },
        }
    }
    Ok(out)
}

/// A failure decides the outcome.
proof fn lemma_ascent_fails<S: Scalar>(
    names: Seq<(Seq<char>, Seq<usize>)>,
    grads: Seq<TensorV<S>>,
    params: Map<Seq<char>, TensorV<S>>,
    i: nat,
    k: nat,
)
    requires
        i <= k,
        ascended(names, grads, params, i) is Err,
    ensures
        ascended(names, grads, params, k) == ascended(names, grads, params, i),
    decreases k,
{
    if i < k {
        lemma_ascent_fails(names, grads, params, i, (k - 1) as nat);
    }
}

/// Parameters, mathematically.
pub open spec fn params_of<S: Scalar>(r: Result<Env<Tensor<S>>, EvalError>) -> Result<
    Map<Seq<char>, TensorV<S>>,
    Fault,
> {
    match r {
        Ok(e) => Ok(crown::tensors(e)),
        Err(e) => Err(e@),
    }
}

/// Moves the parameters along their gradients.
fn ascend<S: Scalar>(
    names: &Vec<(String, Vec<usize>)>,
    grads: &Vec<Tensor<S>>,
    params: Env<Tensor<S>>,
) -> (r: Result<Env<Tensor<S>>, EvalError>)
    ensures
        params_of(r) == ascended(
            compute_graph::input_views(names@),
            value::models::<S, Tensor<S>>(grads@),
            crown::tensors(params),
            eval::shorter(names@.len(), grads@.len()),
        ),
{
    let ghost list = compute_graph::input_views(names@);
    let ghost start = crown::tensors(params);
    let ghost gs = value::models::<S, Tensor<S>>(grads@);
    let n: usize = if names.len() <= grads.len() {
        names.len()
    } else {
        grads.len()
    };
    let mut now = params;
    for i in 0..n
        invariant
            start == crown::tensors(params),
            n == eval::shorter(names@.len(), grads@.len()),
            list == compute_graph::input_views(names@),
            gs == value::models::<S, Tensor<S>>(grads@),
            ascended(list, gs, start, i as nat) == Ok::<Map<Seq<char>, TensorV<S>>, Fault>(
                crown::tensors(now),
            ),
    {
        assert(list[i as int].0 == names@[i as int].0@);
        assert(gs[i as int] == grads@[i as int]@);
        proof {
            if ascended(list, gs, start, (i + 1) as nat) is Err {
                lemma_ascent_fails(list, gs, start, (i + 1) as nat, n as nat);
            }
        }
        let next = match now.get(names[i].0.as_str()) {
            Some(alpha) => project_alpha(alpha, &grads[i])?,
            None => {
                return Err(EvalError::Undefined(names[i].0.clone()));
            },
        };
        proof {
            env::lemma_scope_insert::<S, Tensor<S>>(now@, names@[i as int].0@, next);
        }
        now.insert(names[i].0.clone(), next);
    }
    Ok(now)
}

/// Makes one ascent step.
fn climb<S: Scalar>(
    loss: &ComputeGraph<S>,
    names: &Vec<(String, Vec<usize>)>,
    params: Env<Tensor<S>>,
) -> (r: Result<Env<Tensor<S>>, EvalError>)
    ensures
        params_of(r) == climbed(
            loss@,
            compute_graph::input_views(names@),
            crown::tensors(params),
        ),
{
    proof {
        reveal(climbed);
    }
    let inputs = look_up(names, &params)?;
    let grads = GradInterpreter::run_loss(loss, &inputs, None)?;
    ascend(names, &grads, params)
}

/// Makes all ascent steps.
fn climb_often<S: Scalar>(
    loss: &ComputeGraph<S>,
    names: &Vec<(String, Vec<usize>)>,
    params: Env<Tensor<S>>,
) -> (r: Result<Env<Tensor<S>>, EvalError>)
    ensures
        params_of(r) == climbed_often(
            loss@,
            compute_graph::input_views(names@),
            crown::tensors(params),
            ITERS as nat,
        ),
{
    let ghost list = compute_graph::input_views(names@);
    let ghost goal = climbed_often(loss@, list, crown::tensors(params), ITERS as nat);
    let mut now = params;
    for i in 0..ITERS
        invariant
            list == compute_graph::input_views(names@),
            goal == climbed_often(loss@, list, crown::tensors(params), ITERS as nat),
            goal == climbed_often(loss@, list, crown::tensors(now), (ITERS - i) as nat),
    {
        now = climb(loss, names, now)?;
    }
    Ok(now)
}

// ---- the loss ----
/// The graph of the concretised bound as a function of the slopes.
pub open spec fn slope_loss<S: Scalar>(
    g: GraphV<S>,
    e: Map<Seq<char>, IBPV<S>>,
    names: Seq<(Seq<char>, Seq<usize>)>,
    x: IBPV<S>,
    start: StartV,
) -> Result<GraphV<S>, Fault> {
    let vars = compute_graph::traced_vars(compute_graph::input_atoms::<S>(names), names.len());
    match crown::lower_bound::<S, Tracer<S>>(
        compute_graph::fresh(names),
        g,
        e,
        ParamsV { alphas: vars, splitting: None },
        start,
    ) {
        (_, Err(f)) => Err(f),
        (b, Ok((a, _))) => match affine::concretized::<S, Tracer<S>>(
            b,
            a,
            tracer::constant_tracer(x.lb),
            tracer::constant_tracer(x.ub),
        ) {
            (_, Err(f)) => Err(f),
            (b2, Ok(t)) => Ok(compute_graph::finished(b2, t)),
        },
    }
}

/// A graph, mathematically.
pub open spec fn graph_of<S>(r: Result<ComputeGraph<S>, EvalError>) -> Result<GraphV<S>, Fault> {
    match r {
        Ok(g) => Ok(g@),
        Err(e) => Err(e@),
    }
}

/// The graph of the concretised bound as a function of the slopes.
fn trace_slopes<S: Scalar>(
    graph: &ComputeGraph<S>,
    ibp_bounds: &Env<IBPTensor<S>>,
    names: &Vec<(String, Vec<usize>)>,
    x: &IBPTensor<S>,
    start: &Start,
) -> (r: Result<ComputeGraph<S>, EvalError>)
    ensures
        graph_of(r) == slope_loss(
            graph@,
            intervals(*ibp_bounds),
            compute_graph::input_views(names@),
            x@,
            start@,
        ),
{
    let (mut builder, vars) = compute_graph::build_env::<S>(names);
    let relaxation = Relaxation { alphas: &vars, splitting: None };
    let (alb, _) = crown::linear_lower_bound::<S, Tracer<S>>(
        graph,
        ibp_bounds,
        &relaxation,
        start,
        &mut builder,
    )?;
    let lb = Tracer::from_tensor(x.lb().dup());
    let ub = Tracer::from_tensor(x.ub().dup());
    let loss = alb.concretize::<S>(&lb, &ub, &mut builder)?;
    Ok(builder.build(loss.atom().clone()))
}

// ---- the interpreter ----
/// The slopes after the ascent; without any there is none.
pub open spec fn best_slopes<S: Scalar>(
    g: GraphV<S>,
    e: Map<Seq<char>, IBPV<S>>,
    params: Map<Seq<char>, TensorV<S>>,
    start: StartV,
) -> Result<Map<Seq<char>, TensorV<S>>, Fault> {
    if params == Map::<Seq<char>, TensorV<S>>::empty() {
        Ok(params)
    } else if g.invars.len() == 0 {
        Err(Fault::Graph)
    } else {
        match crown::bounds_of(e, g.invars[0]) {
            Err(f) => Err(f),
            Ok(x) => {
                let names = slots(g.equations, params, g.equations.len());
                match slope_loss(g, e, names, x, start) {
                    Err(f) => Err(f),
                    Ok(loss) => climbed_often(loss, names, params, ITERS as nat),
                }
            },
        }
    }
}

/// The affine function below the output of a graph, with optimised slopes.
pub open spec fn best_bound<S: Scalar>(
    g: GraphV<S>,
    e: Map<Seq<char>, IBPV<S>>,
    params: Map<Seq<char>, TensorV<S>>,
    start: StartV,
) -> Result<AffineV<TensorV<S>>, Fault> {
    match best_slopes(g, e, params, start) {
        Err(f) => Err(f),
        Ok(p) => match crown::lower_bound::<S, Tensor<S>>(
            (),
            g,
            e,
            ParamsV { alphas: p, splitting: None },
            start,
        ).1 {
            Err(f) => Err(f),
            Ok((a, _)) => Ok(a),
        },
    }
}

/// The bounds of all variables and the first slopes, after equations number `i` on.
pub open spec fn prepared<S: Scalar>(
    eqns: Seq<EqnV<S>>,
    e: Map<Seq<char>, IBPV<S>>,
    params: Map<Seq<char>, TensorV<S>>,
    i: nat,
) -> Result<(Map<Seq<char>, IBPV<S>>, Map<Seq<char>, TensorV<S>>), Fault>
    decreases eqns.len() - i,
{
    if i >= eqns.len() {
        Ok((e, params))
    } else {
        let (prim, name) = (eqns[i as int].prim, eqns[i as int].out.name);
        match eval::prim_value::<S, IBPTensor<S>>((), e, prim).1 {
            Err(f) => Err(f),
            Ok(v) => {
                let e2 = e.insert(name, v);
                match prim {
                    PrimV::Un(op, a) => if nn::is_activation(prim) {
                        match crown::bounds_of(e2, a) {
                            Err(f) => Err(f),
                            Ok(x) => prepared(eqns, e2, params.insert(name, first_slopes(x)), i + 1),
                        }
                    } else {
                        prepared(eqns, e2, params, i + 1)
                    },
                    _ => prepared(eqns, e2, params, i + 1),
                }
            },
        }
    }
}

/// The graph whose output is the negative of the output of another.
pub open spec fn negated<S: Scalar>(g: GraphV<S>) -> Result<GraphV<S>, Fault> {
    if g.outvars.len() == 0 {
        Err(Fault::Graph)
    } else if tracer::reopened(g).next > usize::MAX {
        Err(Fault::Size)
    } else {
        let vars = compute_graph::graph_vars(g);
        match env::resolved::<S, Tracer<S>>(
            compute_graph::traced_vars(vars, vars.len()),
            g.outvars[0],
        ) {
            Err(f) => Err(f),
            Ok(out) => match tracer::traced_unary(tracer::reopened(g), UnOpV::Neg, out) {
                (_, Err(f)) => Err(f),
                (b, Ok(t)) => Ok(compute_graph::finished(b, t)),
            },
        }
    }
}

/// An affine function of tensors, negated.
pub open spec fn minus_affine<S: Scalar>(a: AffineV<TensorV<S>>) -> AffineV<TensorV<S>> {
    AffineV {
        weights: model::mapped(a.weights, |x: S| x.opposite()),
        biases: model::mapped(a.biases, |x: S| x.opposite()),
    }
}

/// The affine functions below and above the output of a graph on a box.
pub open spec fn alpha_bounds<S: Scalar>(
    g: GraphV<S>,
    inputs: Seq<IBPV<S>>,
    start: StartV,
) -> Result<(AffineV<TensorV<S>>, AffineV<TensorV<S>>), Fault> {
    let given = eval::bound(g.invars, inputs, eval::shorter(g.invars.len(), inputs.len()));
    match prepared(g.equations, given, Map::empty(), 0) {
        Err(f) => Err(f),
        Ok((e, params)) => match best_bound(g, e, params, start) {
            Err(f) => Err(f),
            Ok(low) => match negated(g) {
                Err(f) => Err(f),
                Ok(n) => match best_bound(n, e, params, start) {
                    Err(f) => Err(f),
                    Ok(high) => Ok((low, minus_affine(high))),
                },
            },
        },
    }
}

/// An affine function, mathematically.
pub open spec fn affine_of<S: Scalar>(r: Result<AffineBounds<Tensor<S>>, EvalError>) -> Result<
    AffineV<TensorV<S>>,
    Fault,
> {
    match r {
        Ok(a) => Ok(affine::affine::<S, Tensor<S>>(a)),
        Err(e) => Err(e@),
    }
}

/// Two affine functions, mathematically.
pub open spec fn affines_of<S: Scalar>(
    r: Result<(AffineBounds<Tensor<S>>, AffineBounds<Tensor<S>>), EvalError>,
) -> Result<(AffineV<TensorV<S>>, AffineV<TensorV<S>>), Fault> {
    match r {
        Ok((a, b)) => Ok(
            (affine::affine::<S, Tensor<S>>(a), affine::affine::<S, Tensor<S>>(b)),
        ),
        Err(e) => Err(e@),
    }
}

/// A copy of named tensors.
pub(crate) fn copy_tensors<S: Scalar>(e: &Env<Tensor<S>>) -> (r: Env<Tensor<S>>)
    ensures
        crown::tensors(r) == crown::tensors(*e),
{
    let n = e.len();
    let ghost names = e.names();
    let ghost goal = crown::tensors(*e);
    let mut out: Env<Tensor<S>> = Env::new();
    assert(crown::tensors(out) =~= Map::<Seq<char>, TensorV<S>>::empty());
    for i in 0..n
        invariant
            n == names.len(),
            names == e.names(),
            e.wf(),
            goal == crown::tensors(*e),
            forall|k: Seq<char>|
                #[trigger]
                crown::tensors(out).dom().contains(k) ==> goal.dom().contains(k)
                    && crown::tensors(out)[k] == goal[k],
            forall|j: int| 0 <= j < i ==> crown::tensors(out).dom().contains(#[trigger] names[j]),
    {
        let t = e.value_at(i).dup();
        proof {
            env::lemma_place(names, i as int);
            assert(goal[names[i as int]] == t@);
            env::lemma_scope_insert::<S, Tensor<S>>(out@, names[i as int], t);
        }
        let ghost before = crown::tensors(out);
        out.insert(e.name_at(i).clone(), t);
        assert(crown::tensors(out) == before.insert(names[i as int], t@));
    }
    proof {
        assert forall|k: Seq<char>| goal.dom().contains(k) implies #[trigger] crown::tensors(
            out,
        ).dom().contains(k) by {
            let j = env::place(names, k);
            assert(names[j] == k);
        }
        assert(crown::tensors(out) =~= goal);
    }
    out
}

/// Bounds a graph by affine functions, with the slopes below its activations optimised.
pub struct AlphaCrownInterpreter {}

impl AlphaCrownInterpreter {
    /// The affine function below the output of a graph, with slopes optimised from `params` on.
    pub fn alpha_crown_optim<S: Scalar>(
        graph: &ComputeGraph<S>,
        ibp_bounds: &Env<IBPTensor<S>>,
        params: Env<Tensor<S>>,
        start: &Start,
    ) -> (r: Result<AffineBounds<Tensor<S>>, EvalError>)
        ensures
            affine_of(r) == best_bound(
                graph@,
                intervals(*ibp_bounds),
                crown::tensors(params),
                start@,
            ),
    {
        let ghost e = intervals(*ibp_bounds);
        let ghost given_params = crown::tensors(params);
        let mut params = params;
        let given = !params.is_empty();
        proof {
            if given {
                let k = params.names()[0];
                assert(given_params.dom().contains(k));
                assert(given_params != Map::<Seq<char>, TensorV<S>>::empty());
            } else {
                assert(given_params =~= Map::<Seq<char>, TensorV<S>>::empty());
            }
        }
        if given {
            if graph.invars.len() == 0 {
                return Err(EvalError::Graph);
            }
            assert(graph@.invars[0] == graph.invars@[0]@);
            let invar_bounds: IBPTensor<S> = ibp_bounds.resolve(&graph.invars[0])?;
            let names = slot_list(&graph.equations, &params);
            let loss = trace_slopes(graph, ibp_bounds, &names, &invar_bounds, start)?;
            params = climb_often(&loss, &names, params)?;
        }
        assert(best_slopes(graph@, e, given_params, start@) == Ok::<Map<Seq<char>, TensorV<S>>, Fault>(
            crown::tensors(params),
        ));
        let relaxation = Relaxation { alphas: &params, splitting: None };
        let mut cx: () = ();
        let (bound, _) = crown::linear_lower_bound::<S, Tensor<S>>(
            graph,
            ibp_bounds,
            &relaxation,
            start,
            &mut cx,
        )?;
        Ok(bound)
    }

    /// Bounds all variables by intervals, and starts the slopes.
    #[verifier::spinoff_prover]
    #[verifier::rlimit(100)]
    fn prepare<S: Scalar>(graph: &ComputeGraph<S>, inputs: &Vec<IBPTensor<S>>) -> (r: Result<
        (Env<IBPTensor<S>>, Env<Tensor<S>>),
        EvalError,
    >)
        ensures
            (match r {
                Ok((e, p)) => Ok((intervals(e), crown::tensors(p))),
                Err(e) => Err(e@),
            }) == prepared(
                graph@.equations,
                eval::bound(
                    graph@.invars,
                    value::models::<S, IBPTensor<S>>(inputs@),
                    eval::shorter(graph@.invars.len(), inputs@.len()),
                ),
                Map::empty(),
                0,
            ),
    {
        let mut ibp_bounds = EvalGenInterpreter::bind::<S, IBPTensor<S>>(&graph.invars, inputs);
        let mut params: Env<Tensor<S>> = Env::new();
        assert(crown::tensors(params) =~= Map::<Seq<char>, TensorV<S>>::empty());
        let ghost eqns = graph@.equations;
        let ghost goal = prepared(eqns, intervals(ibp_bounds), Map::empty(), 0);
        for i in 0..graph.equations.len()
            invariant
                eqns == nn::eqn_views(graph.equations@),
                goal == prepared(
                    eqns,
                    eval::bound(
                        graph@.invars,
                        value::models::<S, IBPTensor<S>>(inputs@),
                        eval::shorter(graph@.invars.len(), inputs@.len()),
                    ),
                    Map::empty(),
                    0,
                ),
                goal == prepared(eqns, intervals(ibp_bounds), crown::tensors(params), i as nat),
        {
            let eqn = &graph.equations[i];
            assert(eqns[i as int] == eqn@);
            let out = IBPInterpreter::process_primitive(&eqn.primitive, &ibp_bounds)?;
            proof {
                env::lemma_scope_insert::<S, IBPTensor<S>>(ibp_bounds@, eqn.outvar.name@, out);
            }
            ibp_bounds.insert(eqn.outvar.name.clone(), out);
            match &eqn.primitive {
                Primitive::Relu(operand)
                | Primitive::LeakyRelu { operand, .. }
                | Primitive::Elu { operand, .. }
                | Primitive::Gelu(operand) => {
                    let bound: IBPTensor<S> = ibp_bounds.resolve(operand)?;
                    let alpha = initial_alpha(&bound);
                    proof {
                        env::lemma_scope_insert::<S, Tensor<S>>(
                            params@,
                            eqn.outvar.name@,
                            alpha,
                        );
                    }
                    params.insert(eqn.outvar.name.clone(), alpha);
                },
                _ => {},
            }
        }
        Ok((ibp_bounds, params))
    }

    /// The graph whose output is the negative of the output of another.
    fn negate<S: Scalar>(graph: &ComputeGraph<S>) -> (r: Result<ComputeGraph<S>, EvalError>)
        ensures
            graph_of(r) == negated(graph@),
    {
        if graph.outvars.len() == 0 {
            return Err(EvalError::Graph);
        }
        assert(graph@.outvars[0] == graph.outvars@[0]@);
        let (mut builder, vars) = compute_graph::reopen(graph)?;
        let out: Tracer<S> = vars.resolve(&graph.outvars[0])?;
        let neg = out.apply1(&UnOp::Neg, &mut builder)?;
        Ok(builder.build(neg.atom().clone()))
    }

    /// The affine functions below and above the sum of the result of the last equation of a graph
    /// on a box.
    pub fn run<S: Scalar>(graph: &ComputeGraph<S>, inputs: &Vec<IBPTensor<S>>) -> (r: Result<
        (AffineBounds<Tensor<S>>, AffineBounds<Tensor<S>>),
        EvalError,
    >)
        ensures
            affines_of(r) == alpha_bounds(
                graph@,
                value::models::<S, IBPTensor<S>>(inputs@),
                StartV::Last,
            ),
    {
        Self::run_from(graph, inputs, &Start::Last)
    }

    /// The affine functions below and above the sum of a variable of a graph on a box.
    pub(crate) fn run_from<S: Scalar>(
        graph: &ComputeGraph<S>,
        inputs: &Vec<IBPTensor<S>>,
        start: &Start,
    ) -> (r: Result<(AffineBounds<Tensor<S>>, AffineBounds<Tensor<S>>), EvalError>)
        ensures
            affines_of(r) == alpha_bounds(
                graph@,
                value::models::<S, IBPTensor<S>>(inputs@),
                start@,
            ),
    {
        let (ibp_bounds, params) = Self::prepare(graph, inputs)?;
        let lb = Self::alpha_crown_optim(graph, &ibp_bounds, copy_tensors(&params), start)?;
        let neg_graph = Self::negate(graph)?;
        let lb_neg = Self::alpha_crown_optim(&neg_graph, &ibp_bounds, params, start)?;
        let f = |x: S| -> (y: S)
            ensures
                y == x.opposite(),
            { x.neg() };
        let weights = lb_neg.weights.mapv(f);
        let biases = lb_neg.biases.mapv(f);
        proof {
            assert(weights@ =~= model::mapped(lb_neg.weights@, |x: S| x.opposite()));
            assert(biases@ =~= model::mapped(lb_neg.biases@, |x: S| x.opposite()));
        }
        let ub = AffineBounds { weights, biases };
        Ok((lb, ub))
    }
}

} // verus!
