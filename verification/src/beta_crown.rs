//! Bounds under constraints: optimised slopes, and multipliers of constraints that fix the phases
//! of some neurons.

use vstd::prelude::*;
use vstd::string::{StrSliceExecFns, StringExecFns};
use crate::affine;
use crate::affine::{AffineBounds, AffineV};
use crate::alpha_crown;
use crate::alpha_crown::ITERS;
use crate::compute_graph;
use crate::crown;
use crate::crown::{ParamsV, Relaxation, Splitting, SplittingV, Start, StartV};
use crate::env;
use crate::env::Env;
use crate::error::EvalError;
use crate::eval;
use crate::grad;
use crate::grad::GradInterpreter;
use crate::interval::{IBPTensor, IBPV};
use crate::model;
use crate::model::{BinOpV, Fault, TensorV, UnOpV};
use crate::nn;
use crate::nn::{Atom, AtomKind, AtomV, ComputeGraph, EqnV, Equation, GraphV, PrimV, Primitive};
use crate::op::BinOp;
use crate::scalar;
use crate::scalar::Scalar;
use crate::shape;
use crate::tensor;
use crate::tensor::Tensor;
use crate::text;
use crate::tracer;
use crate::tracer::{Tracer, TracerV};
use crate::value;
use crate::value::Value;

verus! {

// ---- the biases that feed rectifiers ----
/// The bias of the layer that feeds a value of the given shape: the constant in the sum that the
/// value is, or zeros.
pub open spec fn fed_by<S: Scalar>(eqns: Seq<EqnV<S>>, operand: AtomV<S>, s: Seq<usize>) -> Result<
    TensorV<S>,
    Fault,
> {
    if !shape::fits(s) {
        Err(Fault::Size)
    } else {
        let zeros = model::filled(s, scalar::zero::<S>());
        match crown::first_named(eqns, operand.name, 0) {
            None => Ok(zeros),
            Some(i) => match eqns[i as int].prim {
                PrimV::Bin(BinOpV::Add, a, b) => match (a.value, b.value) {
                    (Some(c), _) => model::bin_tensor(BinOpV::Add, zeros, c),
                    (None, Some(c)) => model::bin_tensor(BinOpV::Add, zeros, c),
                    (None, None) => Ok(zeros),
                },
                _ => Ok(zeros),
            },
        }
    }
}

/// The biases that feed the rectifiers among the first `k` equations.
pub open spec fn all_fed_by<S: Scalar>(
    eqns: Seq<EqnV<S>>,
    e: Map<Seq<char>, IBPV<S>>,
    k: nat,
) -> Result<Map<Seq<char>, TensorV<S>>, Fault>
    decreases k,
{
    if k == 0 {
        Ok(Map::empty())
    } else {
        match all_fed_by(eqns, e, (k - 1) as nat) {
            Err(f) => Err(f),
            Ok(m) => match eqns[k - 1].prim {
                PrimV::Un(UnOpV::Relu, a) => match crown::bounds_of(e, a) {
                    Err(f) => Err(f),
                    Ok(x) => match fed_by(eqns, a, x.lb.shape) {
                        Err(f) => Err(f),
                        Ok(b) => Ok(m.insert(eqns[k - 1].out.name, b)),
                    },
                },
                _ => Ok(m),
            },
        }
    }
}

// ---- the bound ----
/// The affine function below the output of a graph under constraints, with branching scores.
pub open spec fn split_bound<S: Scalar, T: Value<S>>(
    c: T::C,
    g: GraphV<S>,
    e: Map<Seq<char>, IBPV<S>>,
    alphas: Map<Seq<char>, T::M>,
    betas: Map<Seq<char>, T::M>,
    splits: Map<Seq<char>, TensorV<S>>,
    start: StartV,
) -> (T::C, Result<(AffineV<T::M>, Map<Seq<char>, TensorV<S>>), Fault>) {
    match all_fed_by(g.equations, e, g.equations.len()) {
        Err(f) => (c, Err(f)),
        Ok(biases) => crown::lower_bound::<S, T>(
            c,
            g,
            e,
            ParamsV { alphas, splitting: Some(SplittingV { betas, splits, biases }) },
            start,
        ),
    }
}

// ---- the loss ----
/// The length of the longest name of a result among the first `k` equations.
pub open spec fn longest<S>(eqns: Seq<EqnV<S>>, k: nat) -> nat
    decreases k,
{
    if k == 0 {
        0
    } else {
        let n = longest(eqns, (k - 1) as nat);
        if eqns[k - 1].out.name.len() > n {
            eqns[k - 1].out.name.len()
        } else {
            n
        }
    }
}

/// The mark of multipliers, repeated.
pub open spec fn marks(n: nat) -> Seq<char>
    decreases n,
{
    if n == 0 {
        Seq::empty()
    } else {
        marks((n - 1) as nat) + "::beta"@
    }
}

/// What is put behind the name of an activation for its multipliers. It is longer than all names
/// of results, so that no activation is named like multipliers.
pub open spec fn mark_of<S>(eqns: Seq<EqnV<S>>) -> Seq<char> {
    marks(longest(eqns, eqns.len()) / 6 + 1)
}

/// The name of the multipliers that go with an activation.
pub open spec fn beta_name(mark: Seq<char>, name: Seq<char>) -> Seq<char> {
    name + mark
}

/// The inputs of the loss: for each activation its slopes and its multipliers.
pub open spec fn both(mark: Seq<char>, names: Seq<(Seq<char>, Seq<usize>)>) -> Seq<
    (Seq<char>, Seq<usize>),
> {
    Seq::new(
        2 * names.len(),
        |i: int|
            if i % 2 == 0 {
                names[i / 2]
            } else {
                (beta_name(mark, names[i / 2].0), names[i / 2].1)
            },
    )
}

/// The traced slopes of the results of the first `k` equations.
pub open spec fn traced_alphas<S>(
    eqns: Seq<EqnV<S>>,
    vars: Map<Seq<char>, TracerV<S>>,
    k: nat,
) -> Map<Seq<char>, TracerV<S>>
    decreases k,
{
    if k == 0 {
        Map::empty()
    } else {
        let m = traced_alphas(eqns, vars, (k - 1) as nat);
        let name = eqns[k - 1].out.name;
        if vars.dom().contains(name) {
            m.insert(name, vars[name])
        } else {
            m
        }
    }
}

/// The traced multipliers of the results of the first `k` equations.
pub open spec fn traced_betas<S>(
    mark: Seq<char>,
    eqns: Seq<EqnV<S>>,
    vars: Map<Seq<char>, TracerV<S>>,
    k: nat,
) -> Map<Seq<char>, TracerV<S>>
    decreases k,
{
    if k == 0 {
        Map::empty()
    } else {
        let m = traced_betas(mark, eqns, vars, (k - 1) as nat);
        let name = eqns[k - 1].out.name;
        if vars.dom().contains(beta_name(mark, name)) {
            m.insert(name, vars[beta_name(mark, name)])
        } else {
            m
        }
    }
}

/// The graph of the concretised bound as a function of the slopes and the multipliers.
pub open spec fn split_loss<S: Scalar>(
    g: GraphV<S>,
    e: Map<Seq<char>, IBPV<S>>,
    names: Seq<(Seq<char>, Seq<usize>)>,
    x: IBPV<S>,
    splits: Map<Seq<char>, TensorV<S>>,
    start: StartV,
) -> Result<GraphV<S>, Fault> {
    let mark = mark_of(g.equations);
    let inputs = both(mark, names);
    let vars = compute_graph::traced_vars(compute_graph::input_atoms::<S>(inputs), inputs.len());
    let n = g.equations.len();
    match split_bound::<S, Tracer<S>>(
        compute_graph::fresh(inputs),
        g,
        e,
        traced_alphas(g.equations, vars, n),
        traced_betas(mark, g.equations, vars, n),
        splits,
        start,
    ) {
        (_, Err(f)) => Err(f),
        (b, Ok((a, _))) => match affine::concretized::<S, Tracer<S>>(
            b,
            a,
            tracer::constant_tracer(x.lb),
            tracer::constant_tracer(x.ub),
        ) {
            (_, Err(f)) => Err(f),
            (b2, Ok(t)) => Ok(compute_graph::finished(b2, t)),
        },
    }
}

// ---- one ascent step ----
/// Slopes and multipliers.
pub struct PairV<S> {
    pub alphas: Map<Seq<char>, TensorV<S>>,
    pub betas: Map<Seq<char>, TensorV<S>>,
}

/// Multipliers moved along their gradient, and back to zero or more.
pub open spec fn next_beta<S: Scalar>(p: TensorV<S>, g: TensorV<S>) -> Result<TensorV<S>, Fault> {
    match alpha_crown::nudged(p, g) {
        Ok(t) => Ok(model::mapped(t, |v: S| v.larger(scalar::zero()))),
        Err(f) => Err(f),
    }
}

/// The slopes and multipliers of the first `k` activations, in turn.
pub open spec fn paired<S>(names: Seq<(Seq<char>, Seq<usize>)>, p: PairV<S>, k: nat) -> Result<
    Seq<TensorV<S>>,
    Fault,
>
    decreases k,
{
    if k == 0 {
        Ok(Seq::empty())
    } else {
        match paired(names, p, (k - 1) as nat) {
            Err(f) => Err(f),
            Ok(s) => {
                let name = names[k - 1].0;
                if p.alphas.dom().contains(name) && p.betas.dom().contains(name) {
                    Ok(s.push(p.alphas[name]).push(p.betas[name]))
                } else {
                    Err(Fault::Undefined(name))
                }
            },
        }
    }
}

/// The parameters after those of the first `k` activations have moved along their gradients.
pub open spec fn pair_ascended<S: Scalar>(
    names: Seq<(Seq<char>, Seq<usize>)>,
    grads: Seq<TensorV<S>>,
    p: PairV<S>,
    k: nat,
) -> Result<PairV<S>, Fault>
    decreases k,
{
    if k == 0 {
        Ok(p)
    } else {
        match pair_ascended(names, grads, p, (k - 1) as nat) {
            Err(f) => Err(f),
            Ok(q) => {
                let name = names[k - 1].0;
                if !q.alphas.dom().contains(name) || !q.betas.dom().contains(name) {
                    Err(Fault::Undefined(name))
                } else {
                    match alpha_crown::next_alpha(q.alphas[name], grads[2 * (k - 1)]) {
                        Err(f) => Err(f),
                        Ok(a) => match next_beta(q.betas[name], grads[2 * (k - 1) + 1]) {
                            Err(f) => Err(f),
                            Ok(b) => Ok(
                                PairV {
                                    alphas: q.alphas.insert(name, a),
                                    betas: q.betas.insert(name, b),
                                },
                            ),
                        },
                    }
                }
            },
        }
    }
}

/// The parameters after one ascent step on the graph `loss`.
#[verifier::opaque]
pub open spec fn pair_climbed<S: Scalar>(
    loss: GraphV<S>,
    names: Seq<(Seq<char>, Seq<usize>)>,
    p: PairV<S>,
) -> Result<PairV<S>, Fault> {
    match paired(names, p, names.len()) {
        Err(f) => Err(f),
        Ok(inputs) => match grad::loss_gradients(loss, inputs, None) {
            Err(f) => Err(f),
            Ok(grads) => pair_ascended(
                names,
                grads,
                p,
                eval::shorter(names.len(), grads.len() / 2),
            ),
        },
    }
}

/// The parameters after `n` ascent steps.
pub open spec fn pair_climbed_often<S: Scalar>(
    loss: GraphV<S>,
    names: Seq<(Seq<char>, Seq<usize>)>,
    p: PairV<S>,
    n: nat,
) -> Result<PairV<S>, Fault>
    decreases n,
{
    if n == 0 {
        Ok(p)
    } else {
        match pair_climbed(loss, names, p) {
            Ok(q) => pair_climbed_often(loss, names, q, (n - 1) as nat),
            Err(f) => Err(f),
        }
    }
}

/// The parameters after the ascent; without slopes there is none.
pub open spec fn best_pair<S: Scalar>(
    g: GraphV<S>,
    e: Map<Seq<char>, IBPV<S>>,
    splits: Map<Seq<char>, TensorV<S>>,
    p: PairV<S>,
    start: StartV,
) -> Result<PairV<S>, Fault> {
    if p.alphas == Map::<Seq<char>, TensorV<S>>::empty() {
        Ok(p)
    } else if g.invars.len() == 0 {
        Err(Fault::Graph)
    } else {
        match crown::bounds_of(e, g.invars[0]) {
            Err(f) => Err(f),
            Ok(x) => {
                let names = alpha_crown::slots(g.equations, p.alphas, g.equations.len());
                match split_loss(g, e, names, x, splits, start) {
                    Err(f) => Err(f),
                    Ok(loss) => pair_climbed_often(loss, names, p, ITERS as nat),
                }
            },
        }
    }
}

/// What a bound under constraints comes with: the bound, the parameters, and the scores.
pub struct OutcomeV<S> {
    pub bound: AffineV<TensorV<S>>,
    pub params: PairV<S>,
    pub scores: Map<Seq<char>, TensorV<S>>,
}

/// The bound under constraints, with optimised parameters.
pub open spec fn best_split_bound<S: Scalar>(
    g: GraphV<S>,
    e: Map<Seq<char>, IBPV<S>>,
    splits: Map<Seq<char>, TensorV<S>>,
    p: PairV<S>,
    start: StartV,
) -> Result<OutcomeV<S>, Fault> {
    match best_pair(g, e, splits, p, start) {
        Err(f) => Err(f),
        Ok(q) => match split_bound::<S, Tensor<S>>(
            (),
            g,
            e,
            q.alphas,
            q.betas,
            splits,
            start,
        ).1 {
            Err(f) => Err(f),
            Ok((bound, scores)) => Ok(OutcomeV { bound, params: q, scores }),
        },
    }
}

/// The parameters with those of the first `k` equations added that were not given.
pub open spec fn seeded<S: Scalar>(
    eqns: Seq<EqnV<S>>,
    e: Map<Seq<char>, IBPV<S>>,
    p: PairV<S>,
    k: nat,
) -> Result<PairV<S>, Fault>
    decreases k,
{
    if k == 0 {
        Ok(p)
    } else {
        match seeded(eqns, e, p, (k - 1) as nat) {
            Err(f) => Err(f),
            Ok(q) => match eqns[k - 1].prim {
                PrimV::Un(op, a) => {
                    let name = eqns[k - 1].out.name;
                    if !nn::is_activation(eqns[k - 1].prim) || (q.alphas.dom().contains(name)
                        && q.betas.dom().contains(name)) {
                        Ok(q)
                    } else {
                        match crown::bounds_of(e, a) {
                            Err(f) => Err(f),
                            Ok(x) => Ok(
                                PairV {
                                    alphas: if q.alphas.dom().contains(name) {
                                        q.alphas
                                    } else {
                                        q.alphas.insert(name, alpha_crown::first_slopes(x))
                                    },
                                    betas: if q.betas.dom().contains(name) {
                                        q.betas
                                    } else {
                                        q.betas.insert(
                                            name,
                                            model::filled(x.lb.shape, scalar::zero()),
                                        )
                                    },
                                },
                            ),
                        }
                    }
                },
                _ => Ok(q),
            },
        }
    }
}

/// The bound under constraints, with parameters optimised from the given ones on.
pub open spec fn beta_bound<S: Scalar>(
    g: GraphV<S>,
    e: Map<Seq<char>, IBPV<S>>,
    splits: Map<Seq<char>, TensorV<S>>,
    start: StartV,
    p: PairV<S>,
) -> Result<OutcomeV<S>, Fault> {
    match seeded(g.equations, e, p, g.equations.len()) {
        Err(f) => Err(f),
        Ok(q) => best_split_bound(g, e, splits, q, start),
    }
}

// ---- execution ----
/// A failure decides the outcome.
proof fn lemma_fed_fails<S: Scalar>(
    eqns: Seq<EqnV<S>>,
    e: Map<Seq<char>, IBPV<S>>,
    i: nat,
    k: nat,
)
    requires
        i <= k,
        all_fed_by(eqns, e, i) is Err,
    ensures
        all_fed_by(eqns, e, k) == all_fed_by(eqns, e, i),
    decreases k,
{
    if i < k {
        lemma_fed_fails(eqns, e, i, (k - 1) as nat);
    }
}

/// A failure decides the outcome.
proof fn lemma_paired_fails<S>(
    names: Seq<(Seq<char>, Seq<usize>)>,
    p: PairV<S>,
    i: nat,
    k: nat,
)
    requires
        i <= k,
        paired(names, p, i) is Err,
    ensures
        paired(names, p, k) == paired(names, p, i),
    decreases k,
{
    if i < k {
        lemma_paired_fails(names, p, i, (k - 1) as nat);
    }
}

/// A failure decides the outcome.
proof fn lemma_pair_ascent_fails<S: Scalar>(
    names: Seq<(Seq<char>, Seq<usize>)>,
    grads: Seq<TensorV<S>>,
    p: PairV<S>,
    i: nat,
    k: nat,
)
    requires
        i <= k,
        pair_ascended(names, grads, p, i) is Err,
    ensures
        pair_ascended(names, grads, p, k) == pair_ascended(names, grads, p, i),
    decreases k,
{
    if i < k {
        lemma_pair_ascent_fails(names, grads, p, i, (k - 1) as nat);
    }
}

/// A failure decides the outcome.
proof fn lemma_seeding_fails<S: Scalar>(
    eqns: Seq<EqnV<S>>,
    e: Map<Seq<char>, IBPV<S>>,
    p: PairV<S>,
    i: nat,
    k: nat,
)
    requires
        i <= k,
        seeded(eqns, e, p, i) is Err,
    ensures
        seeded(eqns, e, p, k) == seeded(eqns, e, p, i),
    decreases k,
{
    if i < k {
        lemma_seeding_fails(eqns, e, p, i, (k - 1) as nat);
    }
}

/// Slopes and multipliers, mathematically.
pub open spec fn pair<S: Scalar>(alphas: Env<Tensor<S>>, betas: Env<Tensor<S>>) -> PairV<S> {
    PairV { alphas: crown::tensors(alphas), betas: crown::tensors(betas) }
}

/// Slopes and multipliers, mathematically.
pub open spec fn pair_of<S: Scalar>(
    r: Result<(Env<Tensor<S>>, Env<Tensor<S>>), EvalError>,
) -> Result<PairV<S>, Fault> {
    match r {
        Ok((a, b)) => Ok(pair(a, b)),
        Err(e) => Err(e@),
    }
}

/// What is put behind the name of an activation for its multipliers.
fn write_mark<S: Scalar>(eqns: &Vec<Equation<S>>) -> (r: String)
    ensures
        r@ == mark_of(nn::eqn_views(eqns@)),
{
    let ghost views = nn::eqn_views(eqns@);
    let mut most: usize = 0;
    for i in 0..eqns.len()
        invariant
            views == nn::eqn_views(eqns@),
            most == longest(views, i as nat),
    {
        assert(views[i as int].out.name == eqns@[i as int].outvar.name@);
        let n = eqns[i].outvar.name.as_str().unicode_len();
        if n > most {
            most = n;
        }
    }
    let mut mark = text::copied("::beta");
    proof {
        reveal_with_fuel(marks, 2);
        assert(mark@ =~= marks(1));
    }
    for i in 0..most / 6
        invariant
            mark@ == marks((i + 1) as nat),
    {
        mark.append("::beta");
    }
    mark
}

/// The inputs of the loss.
fn both_inputs(mark: &str, names: &Vec<(String, Vec<usize>)>) -> (r: Vec<(String, Vec<usize>)>)
    ensures
        compute_graph::input_views(r@) == both(mark@, compute_graph::input_views(names@)),
{
    let ghost list = compute_graph::input_views(names@);
    let ghost goal = both(mark@, list);
    let mut out: Vec<(String, Vec<usize>)> = Vec::new();
    for i in 0..names.len()
        invariant
            list == compute_graph::input_views(names@),
            goal == both(mark@, list),
            out@.len() == 2 * i,
            forall|j: int|
                0 <= j < 2 * i ==> ((#[trigger] out@[j]).0@, out@[j].1@) == goal[j],
    {
        let name = names[i].0.clone();
        let mut other = names[i].0.clone();
        other.append(mark);
        assert(list[i as int] == (names@[i as int].0@, names@[i as int].1@));
        let (s1, s2) = (tensor::copy_of(&names[i].1), tensor::copy_of(&names[i].1));
        assert(goal[2 * i] == list[i as int]);
        assert(goal[2 * i + 1] == (beta_name(mark@, list[i as int].0), list[i as int].1));
        out.push((name, s1));
        out.push((other, s2));
    }
    assert(compute_graph::input_views(out@) =~= goal);
    out
}

/// The traced slopes and multipliers, by activation.
fn sort_traced<S: Scalar>(
    mark: &str,
    eqns: &Vec<Equation<S>>,
    vars: &Env<Tracer<S>>,
) -> (r: (Env<Tracer<S>>, Env<Tracer<S>>))
    ensures
        env::scope::<S, Tracer<S>>(r.0@) == traced_alphas(
            nn::eqn_views(eqns@),
            env::scope::<S, Tracer<S>>(vars@),
            eqns@.len(),
        ),
        env::scope::<S, Tracer<S>>(r.1@) == traced_betas(
            mark@,
            nn::eqn_views(eqns@),
            env::scope::<S, Tracer<S>>(vars@),
            eqns@.len(),
        ),
{
    let ghost views = nn::eqn_views(eqns@);
    let ghost v = env::scope::<S, Tracer<S>>(vars@);
    let mut a_env: Env<Tracer<S>> = Env::new();
    let mut b_env: Env<Tracer<S>> = Env::new();
    assert(env::scope::<S, Tracer<S>>(a_env@) =~= Map::<Seq<char>, TracerV<S>>::empty());
    assert(env::scope::<S, Tracer<S>>(b_env@) =~= Map::<Seq<char>, TracerV<S>>::empty());
    for i in 0..eqns.len()
        invariant
            views == nn::eqn_views(eqns@),
            v == env::scope::<S, Tracer<S>>(vars@),
            env::scope::<S, Tracer<S>>(a_env@) == traced_alphas(views, v, i as nat),
            env::scope::<S, Tracer<S>>(b_env@) == traced_betas(mark@, views, v, i as nat),
    {
        let name = &eqns[i].outvar.name;
        assert(views[i as int].out.name == name@);
        if let Some(a) = vars.get(name.as_str()) {
            let t = a.dup();
            proof {
                env::lemma_scope_insert::<S, Tracer<S>>(a_env@, name@, t);
            }
            a_env.insert(name.clone(), t);
        }
        let mut other = name.clone();
        other.append(mark);
        if let Some(b) = vars.get(other.as_str()) {
            let t = b.dup();
            proof {
                env::lemma_scope_insert::<S, Tracer<S>>(b_env@, name@, t);
            }
            b_env.insert(name.clone(), t);
        }
    }
    (a_env, b_env)
}

/// The slopes and multipliers, in turn.
fn pair_up<S: Scalar>(
    names: &Vec<(String, Vec<usize>)>,
    alphas: &Env<Tensor<S>>,
    betas: &Env<Tensor<S>>,
) -> (r: Result<Vec<Tensor<S>>, EvalError>)
    ensures
        value::results::<S, Tensor<S>>(r) == paired(
            compute_graph::input_views(names@),
            pair(*alphas, *betas),
            names@.len(),
        ),
{
    let ghost list = compute_graph::input_views(names@);
    let ghost p = pair(*alphas, *betas);
    let mut out: Vec<Tensor<S>> = Vec::new();
    assert(value::models::<S, Tensor<S>>(out@) =~= Seq::<TensorV<S>>::empty());
    for i in 0..names.len()
        invariant
            list == compute_graph::input_views(names@),
            p == pair(*alphas, *betas),
            paired(list, p, i as nat) == Ok::<Seq<TensorV<S>>, Fault>(
                value::models::<S, Tensor<S>>(out@),
            ),
    {
        assert(list[i as int].0 == names@[i as int].0@);
        match (alphas.get(names[i].0.as_str()), betas.get(names[i].0.as_str())) {
            (Some(a), Some(b)) => {
                let ghost before = value::models::<S, Tensor<S>>(out@);
                out.push(a.dup());
                out.push(b.dup());
                assert(value::models::<S, Tensor<S>>(out@) =~= before.push(a@).push(b@));
            },
            _ => {
                proof {
                    lemma_paired_fails(list, p, (i + 1) as nat, names@.len());
                }
                return Err(EvalError::Undefined(names[i].0.clone()));
            },
        }
    }
    Ok(out)
}

/// Multipliers moved along their gradient, and back to zero or more.
fn project_beta<S: Scalar>(p: &Tensor<S>, g: &Tensor<S>) -> (r: Result<Tensor<S>, EvalError>)
    ensures
        tensor::outcome(r) == next_beta(p@, g@),
{
    let zero = scalar::number::<S>(0);
    let moved = alpha_crown::nudge(p, g)?;
    let f = |v: S| -> (y: S)
        ensures
            y == v.larger(scalar::zero()),
        { v.max_of(zero) };
    let r = moved.mapv(f);
    assert(r@ =~= model::mapped(moved@, |v: S| v.larger(scalar::zero())));
    Ok(r)
}

/// Moves the parameters along their gradients.
fn ascend<S: Scalar>(
    names: &Vec<(String, Vec<usize>)>,
    grads: &Vec<Tensor<S>>,
    alphas: Env<Tensor<S>>,
    betas: Env<Tensor<S>>,
) -> (r: Result<(Env<Tensor<S>>, Env<Tensor<S>>), EvalError>)
    ensures
        pair_of(r) == pair_ascended(
            compute_graph::input_views(names@),
            value::models::<S, Tensor<S>>(grads@),
            pair(alphas, betas),
            eval::shorter(names@.len(), grads@.len() / 2),
        ),
{
    let ghost list = compute_graph::input_views(names@);
    let ghost p = pair(alphas, betas);
    let ghost gs = value::models::<S, Tensor<S>>(grads@);
    let n: usize = if names.len() <= grads.len() / 2 {
        names.len()
    } else {
        grads.len() / 2
    };
    let mut a = alphas;
    let mut b = betas;
    for i in 0..n
        invariant
            n == eval::shorter(names@.len(), grads@.len() / 2),
            2 * n <= grads@.len(),
            list == compute_graph::input_views(names@),
            gs == value::models::<S, Tensor<S>>(grads@),
            p == pair(alphas, betas),
            pair_ascended(list, gs, p, i as nat) == Ok::<PairV<S>, Fault>(pair(a, b)),
    {
        let name = &names[i].0;
        assert(2 * i + 1 < grads.len());
        assert(list[i as int].0 == name@);
        assert(gs[2 * i] == grads@[2 * i]@);
        assert(gs[2 * i + 1] == grads@[2 * i + 1]@);
        proof {
            if pair_ascended(list, gs, p, (i + 1) as nat) is Err {
                lemma_pair_ascent_fails(list, gs, p, (i + 1) as nat, n as nat);
            }
        }
        let (alpha, beta) = match (a.get(name.as_str()), b.get(name.as_str())) {
            (Some(x), Some(y)) => {
                let alpha = alpha_crown::project_alpha(x, &grads[2 * i])?;
                let beta = project_beta(y, &grads[2 * i + 1])?;
                (alpha, beta)
            },
            _ => {
                return Err(EvalError::Undefined(name.clone()));
            },
        };
        proof {
            env::lemma_scope_insert::<S, Tensor<S>>(a@, name@, alpha);
            env::lemma_scope_insert::<S, Tensor<S>>(b@, name@, beta);
        }
        a.insert(name.clone(), alpha);
        b.insert(name.clone(), beta);
    }
    Ok((a, b))
}

/// Makes one ascent step.
fn climb<S: Scalar>(
    loss: &ComputeGraph<S>,
    names: &Vec<(String, Vec<usize>)>,
    alphas: Env<Tensor<S>>,
    betas: Env<Tensor<S>>,
) -> (r: Result<(Env<Tensor<S>>, Env<Tensor<S>>), EvalError>)
    ensures
        pair_of(r) == pair_climbed(
            loss@,
            compute_graph::input_views(names@),
            pair(alphas, betas),
        ),
{
    proof {
        reveal(pair_climbed);
    }
    let inputs = pair_up(names, &alphas, &betas)?;
    let grads = GradInterpreter::run_loss(loss, &inputs, None)?;
    ascend(names, &grads, alphas, betas)
}

/// Makes all ascent steps.
fn climb_often<S: Scalar>(
    loss: &ComputeGraph<S>,
    names: &Vec<(String, Vec<usize>)>,
    alphas: Env<Tensor<S>>,
    betas: Env<Tensor<S>>,
) -> (r: Result<(Env<Tensor<S>>, Env<Tensor<S>>), EvalError>)
    ensures
        pair_of(r) == pair_climbed_often(
            loss@,
            compute_graph::input_views(names@),
            pair(alphas, betas),
            ITERS as nat,
        ),
{
    let ghost list = compute_graph::input_views(names@);
    let ghost goal = pair_climbed_often(loss@, list, pair(alphas, betas), ITERS as nat);
    let mut a = alphas;
    let mut b = betas;
    for i in 0..ITERS
        invariant
            list == compute_graph::input_views(names@),
            goal == pair_climbed_often(loss@, list, pair(alphas, betas), ITERS as nat),
            goal == pair_climbed_often(loss@, list, pair(a, b), (ITERS - i) as nat),
    {
        let (x, y) = climb(loss, names, a, b)?;
        a = x;
        b = y;
    }
    Ok((a, b))
}

/// A bound under constraints: the bound, the slopes, the multipliers, and the branching scores.
pub struct SplitBound<S> {
    pub bound: AffineBounds<Tensor<S>>,
    pub alphas: Env<Tensor<S>>,
    pub betas: Env<Tensor<S>>,
    pub scores: Env<Tensor<S>>,
}

/// A bound under constraints, mathematically.
pub open spec fn split_outcome<S: Scalar>(b: SplitBound<S>) -> OutcomeV<S> {
    OutcomeV {
        bound: affine::affine::<S, Tensor<S>>(b.bound),
        params: pair(b.alphas, b.betas),
        scores: crown::tensors(b.scores),
    }
}

/// A bound under constraints, mathematically.
pub open spec fn outcome_of<S: Scalar>(r: Result<SplitBound<S>, EvalError>) -> Result<
    OutcomeV<S>,
    Fault,
> {
    match r {
        Ok(b) => Ok(split_outcome(b)),
        Err(e) => Err(e@),
    }
}

/// Bounds a graph under constraints that fix the phases of some neurons.
pub struct BetaCrownInterpreter {}

impl BetaCrownInterpreter {
    /// The bias of the layer that feeds a value of the given shape: the constant in the sum that
    /// the value is, or zeros.
    pub fn feeding_bias<S: Scalar>(graph: &ComputeGraph<S>, operand: &Atom<S>, shape: &[usize]) -> (r:
        Result<Tensor<S>, EvalError>)
        ensures
            tensor::outcome(r) == fed_by(graph@.equations, operand@, shape@),
    {
        let zeros = Tensor::from_elem(tensor::copy_of(shape), scalar::number::<S>(0))?;
        let i = match crown::find_named(&graph.equations, &operand.name) {
            Some(i) => i,
            None => {
                return Ok(zeros);
            },
        };
        assert(graph@.equations[i as int] == graph.equations@[i as int]@);
        match &graph.equations[i].primitive {
            Primitive::Add(a, b) => match &a.kind {
                AtomKind::Const(c) => zeros.pairwise(&BinOp::Add, c),
                AtomKind::Var => match &b.kind {
                    AtomKind::Const(c) => zeros.pairwise(&BinOp::Add, c),
                    AtomKind::Var => Ok(zeros),
                },
            },
            _ => Ok(zeros),
        }
    }

    /// The biases that feed the rectifiers of a graph.
    fn feeding_biases<S: Scalar>(graph: &ComputeGraph<S>, var_bounds: &Env<IBPTensor<S>>) -> (r:
        Result<Env<Tensor<S>>, EvalError>)
        ensures
            alpha_crown::params_of(r) == all_fed_by(
                graph@.equations,
                alpha_crown::intervals(*var_bounds),
                graph@.equations.len(),
            ),
    {
        let ghost eqns = graph@.equations;
        let ghost e = alpha_crown::intervals(*var_bounds);
        let mut relu_bias: Env<Tensor<S>> = Env::new();
        assert(crown::tensors(relu_bias) =~= Map::<Seq<char>, TensorV<S>>::empty());
        for i in 0..graph.equations.len()
            invariant
                eqns == graph@.equations,
                e == alpha_crown::intervals(*var_bounds),
                all_fed_by(eqns, e, i as nat) == Ok::<Map<Seq<char>, TensorV<S>>, Fault>(
                    crown::tensors(relu_bias),
                ),
        {
            let eqn = &graph.equations[i];
            assert(eqns[i as int] == eqn@);
            proof {
                if all_fed_by(eqns, e, (i + 1) as nat) is Err {
                    lemma_fed_fails(eqns, e, (i + 1) as nat, eqns.len());
                }
            }
            if let Primitive::Relu(operand) = &eqn.primitive {
                let x: IBPTensor<S> = var_bounds.resolve(operand)?;
                let bias = Self::feeding_bias(graph, operand, x.lb().shape())?;
                proof {
                    env::lemma_scope_insert::<S, Tensor<S>>(
                        relu_bias@,
                        eqn.outvar.name@,
                        bias,
                    );
                }
                relu_bias.insert(eqn.outvar.name.clone(), bias);
            }
        }
        Ok(relu_bias)
    }

    /// The affine function below the output of a graph under constraints, with branching scores.
    pub fn linear_lower_bound<S: Scalar, T: Value<S>>(
        graph: &ComputeGraph<S>,
        var_bounds: &Env<IBPTensor<S>>,
        alphas: &Env<T>,
        betas: &Env<T>,
        splits: &Env<Tensor<S>>,
        start: &Start,
        cx: &mut T::Cx,
    ) -> (r: Result<(AffineBounds<T>, Env<Tensor<S>>), EvalError>)
        ensures
            (T::c(final(cx)), crown::bound_result::<S, T>(r)) == split_bound::<S, T>(
                T::c(old(cx)),
                graph@,
                alpha_crown::intervals(*var_bounds),
                env::scope::<S, T>(alphas@),
                env::scope::<S, T>(betas@),
                crown::tensors(*splits),
                start@,
            ),
    {
        let relu_bias = Self::feeding_biases(graph, var_bounds)?;
        let relaxation = Relaxation {
            alphas,
            splitting: Some(Splitting { betas, splits, biases: &relu_bias }),
        };
        crown::linear_lower_bound::<S, T>(graph, var_bounds, &relaxation, start, cx)
    }

    /// The graph of the concretised bound as a function of the slopes and the multipliers.
    fn trace_params<S: Scalar>(
        graph: &ComputeGraph<S>,
        ibp_bounds: &Env<IBPTensor<S>>,
        names: &Vec<(String, Vec<usize>)>,
        x: &IBPTensor<S>,
        splits: &Env<Tensor<S>>,
        start: &Start,
    ) -> (r: Result<ComputeGraph<S>, EvalError>)
        ensures
            alpha_crown::graph_of(r) == split_loss(
                graph@,
                alpha_crown::intervals(*ibp_bounds),
                compute_graph::input_views(names@),
                x@,
                crown::tensors(*splits),
                start@,
            ),
    {
        let mark = write_mark(&graph.equations);
        let inputs = both_inputs(mark.as_str(), names);
        let (mut builder, vars) = compute_graph::build_env::<S>(&inputs);
        let (a_env, b_env) = sort_traced(mark.as_str(), &graph.equations, &vars);
        let (alb, _) = Self::linear_lower_bound::<S, Tracer<S>>(
            graph,
            ibp_bounds,
            &a_env,
            &b_env,
            splits,
            start,
            &mut builder,
        )?;
        let lb = Tracer::from_tensor(x.lb().dup());
        let ub = Tracer::from_tensor(x.ub().dup());
        let loss = alb.concretize::<S>(&lb, &ub, &mut builder)?;
        Ok(builder.build(loss.atom().clone()))
    }

    /// The bound under constraints, with parameters optimised from the given ones on.
    pub fn beta_crown_optim<S: Scalar>(
        graph: &ComputeGraph<S>,
        ibp_bounds: &Env<IBPTensor<S>>,
        splits: &Env<Tensor<S>>,
        alphas: Env<Tensor<S>>,
        betas: Env<Tensor<S>>,
        start: &Start,
    ) -> (r: Result<SplitBound<S>, EvalError>)
        ensures
            outcome_of(r) == best_split_bound(
                graph@,
                alpha_crown::intervals(*ibp_bounds),
                crown::tensors(*splits),
                pair(alphas, betas),
                start@,
            ),
    {
        let ghost e = alpha_crown::intervals(*ibp_bounds);
        let ghost ss = crown::tensors(*splits);
        let ghost p = pair(alphas, betas);
        let given = !alphas.is_empty();
        proof {
            if given {
                let k = alphas.names()[0];
                assert(p.alphas.dom().contains(k));
                assert(p.alphas != Map::<Seq<char>, TensorV<S>>::empty());
            } else {
                assert(p.alphas =~= Map::<Seq<char>, TensorV<S>>::empty());
            }
        }
        let mut a = alphas;
        let mut b = betas;
        if given {
            if graph.invars.len() == 0 {
                return Err(EvalError::Graph);
            }
            assert(graph@.invars[0] == graph.invars@[0]@);
            let invar_bounds: IBPTensor<S> = ibp_bounds.resolve(&graph.invars[0])?;
            let names = alpha_crown::slot_list(&graph.equations, &a);
            let loss = Self::trace_params(graph, ibp_bounds, &names, &invar_bounds, splits, start)?;
            let (x, y) = climb_often(&loss, &names, a, b)?;
            a = x;
            b = y;
        }
        assert(best_pair(graph@, e, ss, p, start@) == Ok::<PairV<S>, Fault>(
            pair(a, b),
        ));
        let mut cx: () = ();
        let (bound, scores) = Self::linear_lower_bound::<S, Tensor<S>>(
            graph,
            ibp_bounds,
            &a,
            &b,
            splits,
            start,
            &mut cx,
        )?;
        Ok(SplitBound { bound, alphas: a, betas: b, scores })
    }

    /// Adds the parameters that were not given.
    fn seed<S: Scalar>(
        graph: &ComputeGraph<S>,
        var_bounds: &Env<IBPTensor<S>>,
        alphas: Env<Tensor<S>>,
        betas: Env<Tensor<S>>,
    ) -> (r: Result<(Env<Tensor<S>>, Env<Tensor<S>>), EvalError>)
        ensures
            pair_of(r) == seeded(
                graph@.equations,
                alpha_crown::intervals(*var_bounds),
                pair(alphas, betas),
                graph@.equations.len(),
            ),
    {
        let ghost eqns = graph@.equations;
        let ghost e = alpha_crown::intervals(*var_bounds);
        let ghost p = pair(alphas, betas);
        let mut a = alphas;
        let mut b = betas;
        for i in 0..graph.equations.len()
            invariant
                eqns == graph@.equations,
                e == alpha_crown::intervals(*var_bounds),
                p == pair(alphas, betas),
                seeded(eqns, e, p, i as nat) == Ok::<PairV<S>, Fault>(pair(a, b)),
        {
            let eqn = &graph.equations[i];
            assert(eqns[i as int] == eqn@);
            proof {
                if seeded(eqns, e, p, (i + 1) as nat) is Err {
                    lemma_seeding_fails(eqns, e, p, (i + 1) as nat, eqns.len());
                }
            }
            match &eqn.primitive {
                Primitive::Relu(operand)
                | Primitive::LeakyRelu { operand, .. }
                | Primitive::Elu { operand, .. }
                | Primitive::Gelu(operand) => {
                    let name = &eqn.outvar.name;
                    let has_alpha = a.get(name.as_str()).is_some();
                    let has_beta = b.get(name.as_str()).is_some();
                    if !has_alpha || !has_beta {
                        let bound: IBPTensor<S> = var_bounds.resolve(operand)?;
                        if !has_alpha {
                            let alpha = alpha_crown::initial_alpha(&bound);
                            proof {
                                env::lemma_scope_insert::<S, Tensor<S>>(a@, name@, alpha);
                            }
                            a.insert(name.clone(), alpha);
                        }
                        if !has_beta {
                            let s = tensor::copy_of(bound.lb().shape());
                            let zeros = Tensor::from_elem(s, scalar::number::<S>(0))?;
                            proof {
                                env::lemma_scope_insert::<S, Tensor<S>>(b@, name@, zeros);
                            }
                            b.insert(name.clone(), zeros);
                        }
                    }
                },
                _ => {},
            }
        }
        Ok((a, b))
    }

    /// The affine function below the sum of the output of a graph, or of the variable `start`,
    /// where the inputs of activations have the signs in `splits`. `warmstart` holds slopes and
    /// multipliers to start the ascent from.
    pub fn run<S: Scalar>(
        graph: &ComputeGraph<S>,
        var_bounds: &Env<IBPTensor<S>>,
        splits: &Env<Tensor<S>>,
        start: Option<String>,
        warmstart: Option<(Env<Tensor<S>>, Env<Tensor<S>>)>,
    ) -> (r: Result<SplitBound<S>, EvalError>)
        ensures
            outcome_of(r) == beta_bound(
                graph@,
                alpha_crown::intervals(*var_bounds),
                crown::tensors(*splits),
                match start {
                    Some(name) => StartV::Named(name@),
                    None => StartV::Last,
                },
                match warmstart {
                    Some((a, b)) => pair(a, b),
                    None => PairV { alphas: Map::empty(), betas: Map::empty() },
                },
            ),
    {
        let (alphas, betas) = match warmstart {
            Some((a, b)) => (a, b),
            None => {
                let a: Env<Tensor<S>> = Env::new();
                let b: Env<Tensor<S>> = Env::new();
                assert(crown::tensors(a) =~= Map::<Seq<char>, TensorV<S>>::empty());
                assert(crown::tensors(b) =~= Map::<Seq<char>, TensorV<S>>::empty());
                (a, b)
            },
        };
        let (a, b) = Self::seed(graph, var_bounds, alphas, betas)?;
        let from = match start {
            Some(name) => Start::Named(name),
            None => Start::Last,
        };
        Self::beta_crown_optim(graph, var_bounds, splits, a, b, &from)
    }
}

} // verus!
