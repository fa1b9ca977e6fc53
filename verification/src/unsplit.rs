//! Bounds under constraints, where there are none, are the bounds with optimized slopes.

use vstd::prelude::*;
use crate::affine;
use crate::affine::AffineV;
use crate::alpha_crown;
use crate::beta_crown;
use crate::beta_crown::{OutcomeV, PairV};
use crate::compute_graph;
use crate::crown;
use crate::crown::{ParamsV, SplittingV, StartV, WalkV};
use crate::env;
use crate::eval;
use crate::exact;
use crate::grad;
use crate::interval::{IBPTensor, IBPV};
use crate::layer_params;
use crate::layer_slopes;
use crate::layered;
use crate::model::{BinOpV, Fault, TensorV, UnOpV};
use crate::nn;
use crate::nn::{AtomV, EqnV, GraphV, PrimV};
use crate::node_verdicts;
use crate::scalar::Scalar;
use crate::shaping;
use crate::slope_bounds;
use crate::support;
use crate::tensor::Tensor;
use crate::tracer;
use crate::tracer::{BuilderV, Tracer, TracerV};
use crate::value;
use crate::value::{Reg, StepV, Value};
use crate::vjp;
use crate::vjp::RuleV;

verus! {

// ---- inputs that a program does not read ----
/// Whether a place is a result or one of the first `n` inputs.
pub open spec fn place_below(r: Reg, n: int) -> bool {
    r matches Reg::In(k) ==> k < n
}

/// Whether a step reads results and the first `n` inputs only.
pub open spec fn step_below<S>(s: StepV<S>, n: int) -> bool {
    match s {
        StepV::Load(_) => true,
        StepV::Un(_, r) => place_below(r, n),
        StepV::Bin(_, r, q) => place_below(r, n) && place_below(q, n),
        StepV::Select(p, r, q) => place_below(p, n) && place_below(r, n) && place_below(q, n),
        StepV::SumAll(r) => place_below(r, n),
    }
}

/// Whether a program reads the first `n` inputs only.
pub open spec fn rule_below<S>(rule: RuleV<S>, n: int) -> bool {
    &&& forall|i: int| 0 <= i < rule.steps.len() ==> step_below(#[trigger] rule.steps[i], n)
    &&& forall|i: int| 0 <= i < rule.outs.len() ==> place_below(#[trigger] rule.outs[i], n)
}

/// A program does not see an input that it does not read.
proof fn lemma_play_below<S: Scalar, T: Value<S>>(
    c: T::C,
    steps: Seq<StepV<S>>,
    ins: Seq<T::M>,
    more: Seq<T::M>,
    done: Seq<T::M>,
)
    requires
        forall|i: int|
            0 <= i < steps.len() ==> step_below(#[trigger] steps[i], ins.len() as int),
        ins.len() <= more.len(),
        forall|i: int| 0 <= i < ins.len() ==> more[i] == #[trigger] ins[i],
    ensures
        value::play::<S, T>(c, steps, more, done) == value::play::<S, T>(c, steps, ins, done),
    decreases steps.len() - done.len(),
{
    if done.len() < steps.len() {
        let s = steps[done.len() as int];
        assert(step_below(s, ins.len() as int));
        assert(value::step::<S, T>(c, s, more, done) == value::step::<S, T>(c, s, ins, done));
        if let (c2, Ok(v)) = value::step::<S, T>(c, s, ins, done) {
            lemma_play_below::<S, T>(c2, steps, ins, more, done.push(v));
        }
    }
}

/// Results do not change with an input that is not read.
proof fn lemma_picked_below<M>(outs: Seq<Reg>, ins: Seq<M>, more: Seq<M>, done: Seq<M>, k: nat)
    requires
        k <= outs.len(),
        forall|i: int| 0 <= i < outs.len() ==> place_below(#[trigger] outs[i], ins.len() as int),
        ins.len() <= more.len(),
        forall|i: int| 0 <= i < ins.len() ==> more[i] == #[trigger] ins[i],
    ensures
        vjp::picked_all(outs, more, done, k) == vjp::picked_all(outs, ins, done, k),
    decreases k,
{
    if k > 0 {
        lemma_picked_below(outs, ins, more, done, (k - 1) as nat);
        assert(place_below(outs[k - 1], ins.len() as int));
    }
}

/// A program with places does not see an input that it does not read.
proof fn lemma_applied_below<S: Scalar, T: Value<S>>(
    c: T::C,
    rule: RuleV<S>,
    ins: Seq<T::M>,
    more: Seq<T::M>,
)
    requires
        rule_below(rule, ins.len() as int),
        ins.len() <= more.len(),
        forall|i: int| 0 <= i < ins.len() ==> more[i] == #[trigger] ins[i],
    ensures
        vjp::applied::<S, T>(c, rule, more) == vjp::applied::<S, T>(c, rule, ins),
{
    lemma_play_below::<S, T>(c, rule.steps, ins, more, Seq::empty());
    if let (_, Ok(done)) = value::run_steps::<S, T>(c, rule.steps, ins) {
        lemma_picked_below(rule.outs, ins, more, done, rule.outs.len());
    }
}

/// The programs of activations read a weight and slopes.
#[verifier::spinoff_prover]
proof fn lemma_activation_below<S: Scalar>(op: UnOpV<S>, x: IBPV<S>)
    ensures
        crown::activation_rule(op, x) matches Ok(rule) ==> rule_below(rule, 2),
{
    reveal(affine::relu_rule);
    reveal(affine::convex_rule);
}

// ---- walks without constraints ----
/// Whether two sets of parameters agree on the slopes of all activations of a graph, the second
/// one under constraints that there are none of.
pub open spec fn unconstrained<S: Scalar, T: Value<S>>(
    eqns: Seq<EqnV<S>>,
    p: ParamsV<S, T::M>,
    q: ParamsV<S, T::M>,
) -> bool {
    &&& p.splitting is None
    &&& q.splitting matches Some(s) && s.splits == Map::<Seq<char>, TensorV<S>>::empty()
    &&& forall|j: int|
        0 <= j < eqns.len() && nn::is_activation((#[trigger] eqns[j]).prim) ==> env::resolved::<
            S,
            T,
        >(p.alphas, eqns[j].out) == env::resolved::<S, T>(q.alphas, eqns[j].out)
}

/// Whether two walks have the same weights and biases.
pub open spec fn same_walk<S, M>(a: WalkV<S, M>, b: WalkV<S, M>) -> bool {
    a.bias == b.bias && a.weights == b.weights
}

/// An operand takes over the same weight in both walks.
proof fn lemma_absorbed_same<S: Scalar, T: Value<S>>(
    c: T::C,
    a: WalkV<S, T::M>,
    b: WalkV<S, T::M>,
    atoms: Seq<AtomV<S>>,
    parts: Seq<T::M>,
    k: nat,
)
    requires
        same_walk(a, b),
    ensures
        ({
            let (x, y) = (
                crown::absorbed_all::<S, T>(c, a, atoms, parts, k),
                crown::absorbed_all::<S, T>(c, b, atoms, parts, k),
            );
            &&& x.0 == y.0
            &&& x.1 is Ok == y.1 is Ok
            &&& x.1 is Ok ==> same_walk(x.1->Ok_0, y.1->Ok_0)
        }),
    decreases k,
{
    if k > 0 {
        lemma_absorbed_same::<S, T>(c, a, b, atoms, parts, (k - 1) as nat);
    }
}

/// A walk through one equation without constraints.
proof fn lemma_stepped_same<S: Scalar, T: Value<S>>(
    c: T::C,
    a: WalkV<S, T::M>,
    b: WalkV<S, T::M>,
    eqns: Seq<EqnV<S>>,
    e: Map<Seq<char>, IBPV<S>>,
    p: ParamsV<S, T::M>,
    q: ParamsV<S, T::M>,
    j: int,
)
    requires
        0 <= j < eqns.len(),
        unconstrained::<S, T>(eqns, p, q),
        same_walk(a, b),
        crown::stepped::<S, T>(c, b, eqns[j], e, q).1 is Ok,
    ensures
        ({
            let (x, y) = (
                crown::stepped::<S, T>(c, a, eqns[j], e, p),
                crown::stepped::<S, T>(c, b, eqns[j], e, q),
            );
            x.0 == y.0 && x.1 is Ok && same_walk(x.1->Ok_0, y.1->Ok_0)
        }),
{
    let (prim, out) = (eqns[j].prim, eqns[j].out);
    if b.weights.dom().contains(out.name) {
        let w = env::resolved::<S, T>(b.weights, out)->Ok_0;
        let t = T::shape_of(w);
        assert(crown::crown_rule(prim, out, t, e, p) == crown::crown_rule(prim, out, t, e, q));
        let rule = crown::crown_rule(prim, out, t, e, q)->Ok_0;
        let more = crown::crown_inputs::<S, T>(prim, out, w, q)->Ok_0;
        if nn::is_activation(prim) {
            let alpha = env::resolved::<S, T>(q.alphas, out)->Ok_0;
            assert(env::resolved::<S, T>(p.alphas, out) == Ok::<T::M, Fault>(alpha));
            let ins = seq![w, alpha];
            if let PrimV::Un(op, arg) = prim {
                lemma_activation_below(op, crown::bounds_of(e, arg)->Ok_0);
            }
            lemma_applied_below::<S, T>(c, rule, ins, more);
        }
        let (d, r) = vjp::applied::<S, T>(c, rule, more);
        let parts = r->Ok_0;
        let sb = crown::scored::<S, T>(prim, out, w, e, q, b.scores)->Ok_0;
        lemma_absorbed_same::<S, T>(
            d,
            WalkV { scores: a.scores, ..a },
            WalkV { scores: sb, ..b },
            nn::operands_of(prim),
            parts,
            parts.len() / 2,
        );
    }
}

/// A walk through the first `k` equations without constraints.
proof fn lemma_walked_same<S: Scalar, T: Value<S>>(
    c: T::C,
    a: WalkV<S, T::M>,
    b: WalkV<S, T::M>,
    eqns: Seq<EqnV<S>>,
    e: Map<Seq<char>, IBPV<S>>,
    p: ParamsV<S, T::M>,
    q: ParamsV<S, T::M>,
    k: nat,
)
    requires
        k <= eqns.len(),
        unconstrained::<S, T>(eqns, p, q),
        same_walk(a, b),
        crown::walked::<S, T>(c, b, eqns, k, e, q).1 is Ok,
    ensures
        ({
            let (x, y) = (
                crown::walked::<S, T>(c, a, eqns, k, e, p),
                crown::walked::<S, T>(c, b, eqns, k, e, q),
            );
            x.0 == y.0 && x.1 is Ok && same_walk(x.1->Ok_0, y.1->Ok_0)
        }),
    decreases k,
{
    if k > 0 {
        lemma_stepped_same::<S, T>(c, a, b, eqns, e, p, q, k - 1);
        let (d, x) = crown::stepped::<S, T>(c, a, eqns[k - 1], e, p);
        let y = crown::stepped::<S, T>(c, b, eqns[k - 1], e, q).1;
        lemma_walked_same::<S, T>(d, x->Ok_0, y->Ok_0, eqns, e, p, q, (k - 1) as nat);
    }
}

/// The walk under constraints that there are none of leads where the walk without leads.
pub proof fn lemma_bound_same<S: Scalar, T: Value<S>>(
    c: T::C,
    g: GraphV<S>,
    e: Map<Seq<char>, IBPV<S>>,
    p: ParamsV<S, T::M>,
    q: ParamsV<S, T::M>,
    start: StartV,
)
    requires
        unconstrained::<S, T>(g.equations, p, q),
        crown::start_of(g, start) matches Some((_, k)) ==> k <= g.equations.len(),
        crown::lower_bound::<S, T>(c, g, e, q, start).1 is Ok,
    ensures
        ({
            let (x, y) = (
                crown::lower_bound::<S, T>(c, g, e, p, start),
                crown::lower_bound::<S, T>(c, g, e, q, start),
            );
            x.0 == y.0 && x.1 is Ok && x.1->Ok_0.0 == y.1->Ok_0.0
        }),
{
    let (out, k) = crown::start_of(g, start)->Some_0;
    let at = crown::departed::<S, T>(out);
    lemma_walked_same::<S, T>(c, at, at, g.equations, e, p, q, k);
}

// ---- graphs under construction with other inputs ----
/// A graph under construction with other inputs.
pub open spec fn with_inputs<S>(b: BuilderV<S>, ins: Seq<AtomV<S>>) -> BuilderV<S> {
    BuilderV { next: b.next, equations: b.equations, invars: ins }
}

/// What is recorded does not depend on the inputs.
proof fn lemma_recorded_same<S: Scalar>(b: BuilderV<S>, ins: Seq<AtomV<S>>)
    ensures
        forall|op: UnOpV<S>, x: TracerV<S>| #[trigger]
            tracer::traced_unary(with_inputs(b, ins), op, x) == (
                with_inputs(tracer::traced_unary(b, op, x).0, ins),
                tracer::traced_unary(b, op, x).1,
            ),
        forall|op: BinOpV, x: TracerV<S>, y: TracerV<S>| #[trigger]
            tracer::traced_binary(with_inputs(b, ins), op, x, y) == (
                with_inputs(tracer::traced_binary(b, op, x, y).0, ins),
                tracer::traced_binary(b, op, x, y).1,
            ),
        forall|p: TracerV<S>, x: TracerV<S>, y: TracerV<S>| #[trigger]
            tracer::traced_select(with_inputs(b, ins), p, x, y) == (
                with_inputs(tracer::traced_select(b, p, x, y).0, ins),
                tracer::traced_select(b, p, x, y).1,
            ),
{
    assert forall|p: PrimV<S>, s: Result<Seq<usize>, Fault>| #[trigger]
        tracer::emitted(with_inputs(b, ins), p, s) == (
        with_inputs(tracer::emitted(b, p, s).0, ins),
        tracer::emitted(b, p, s).1,
    ) by {
        if s is Ok && b.next < usize::MAX {
            assert(tracer::extended(with_inputs(b, ins), p, s->Ok_0) =~= with_inputs(
                tracer::extended(b, p, s->Ok_0),
                ins,
            ));
        }
    }
}

/// A program records the same whatever the inputs.
proof fn lemma_play_inputs<S: Scalar>(
    b: BuilderV<S>,
    ins: Seq<AtomV<S>>,
    steps: Seq<StepV<S>>,
    inputs: Seq<TracerV<S>>,
    done: Seq<TracerV<S>>,
)
    ensures
        value::play::<S, Tracer<S>>(with_inputs(b, ins), steps, inputs, done) == (
            with_inputs(value::play::<S, Tracer<S>>(b, steps, inputs, done).0, ins),
            value::play::<S, Tracer<S>>(b, steps, inputs, done).1,
        ),
    decreases steps.len() - done.len(),
{
    if done.len() < steps.len() {
        lemma_recorded_same(b, ins);
        let s = steps[done.len() as int];
        let c = with_inputs(b, ins);
        assert(value::step::<S, Tracer<S>>(c, s, inputs, done) == (
            with_inputs(value::step::<S, Tracer<S>>(b, s, inputs, done).0, ins),
            value::step::<S, Tracer<S>>(b, s, inputs, done).1,
        ));
        if let (d, Ok(v)) = value::step::<S, Tracer<S>>(b, s, inputs, done) {
            lemma_play_inputs(d, ins, steps, inputs, done.push(v));
        }
    }
}

/// An operand takes over a weight whatever the inputs.
proof fn lemma_absorbed_inputs<S: Scalar>(
    b: BuilderV<S>,
    ins: Seq<AtomV<S>>,
    at: WalkV<S, TracerV<S>>,
    a: AtomV<S>,
    w: TracerV<S>,
    z: TracerV<S>,
)
    ensures
        crown::absorbed::<S, Tracer<S>>(with_inputs(b, ins), at, a, w, z) == (
            with_inputs(crown::absorbed::<S, Tracer<S>>(b, at, a, w, z).0, ins),
            crown::absorbed::<S, Tracer<S>>(b, at, a, w, z).1,
        ),
{
    if let Ok(ops) = vjp::unbroadcast_ops::<S>(w.atom.shape, a.shape) {
        lemma_play_inputs(b, ins, vjp::chain(ops, Reg::In(0), 0), seq![w], Seq::empty());
        if let (b1, Ok(in_w)) = vjp::unbroadcasted::<S, Tracer<S>>(b, w, a.shape) {
            lemma_recorded_same(b1, ins);
            if let (b2, Ok(bias)) = tracer::traced_binary(b1, BinOpV::Add, at.bias, z) {
                lemma_recorded_same(b2, ins);
                if let Some(k) = a.value {
                    let inputs = seq![tracer::constant_tracer(k), in_w, bias];
                    lemma_play_inputs(b2, ins, crown::absorb_steps(), inputs, Seq::empty());
                }
            }
        }
    }
}

/// The operands take over their weights whatever the inputs.
proof fn lemma_absorbed_all_inputs<S: Scalar>(
    b: BuilderV<S>,
    ins: Seq<AtomV<S>>,
    at: WalkV<S, TracerV<S>>,
    atoms: Seq<AtomV<S>>,
    parts: Seq<TracerV<S>>,
    k: nat,
)
    ensures
        crown::absorbed_all::<S, Tracer<S>>(with_inputs(b, ins), at, atoms, parts, k) == (
            with_inputs(crown::absorbed_all::<S, Tracer<S>>(b, at, atoms, parts, k).0, ins),
            crown::absorbed_all::<S, Tracer<S>>(b, at, atoms, parts, k).1,
        ),
    decreases k,
{
    if k > 0 {
        lemma_absorbed_all_inputs(b, ins, at, atoms, parts, (k - 1) as nat);
        if let (d, Ok(next)) = crown::absorbed_all::<S, Tracer<S>>(
            b,
            at,
            atoms,
            parts,
            (k - 1) as nat,
        ) {
            lemma_absorbed_inputs(
                d,
                ins,
                next,
                atoms[k - 1],
                parts[2 * (k - 1)],
                parts[2 * (k - 1) + 1],
            );
        }
    }
}

/// The walk goes the same way whatever the inputs.
proof fn lemma_walked_inputs<S: Scalar>(
    b: BuilderV<S>,
    ins: Seq<AtomV<S>>,
    at: WalkV<S, TracerV<S>>,
    eqns: Seq<EqnV<S>>,
    e: Map<Seq<char>, IBPV<S>>,
    p: ParamsV<S, TracerV<S>>,
    k: nat,
)
    ensures
        crown::walked::<S, Tracer<S>>(with_inputs(b, ins), at, eqns, k, e, p) == (
            with_inputs(crown::walked::<S, Tracer<S>>(b, at, eqns, k, e, p).0, ins),
            crown::walked::<S, Tracer<S>>(b, at, eqns, k, e, p).1,
        ),
    decreases k,
{
    if k > 0 {
        let (prim, out) = (eqns[k - 1].prim, eqns[k - 1].out);
        let c = with_inputs(b, ins);
        assert(crown::stepped::<S, Tracer<S>>(c, at, eqns[k - 1], e, p) == (
            with_inputs(crown::stepped::<S, Tracer<S>>(b, at, eqns[k - 1], e, p).0, ins),
            crown::stepped::<S, Tracer<S>>(b, at, eqns[k - 1], e, p).1,
        )) by {
            if at.weights.dom().contains(out.name) {
                if let Ok(w) = env::resolved::<S, Tracer<S>>(at.weights, out) {
                    if let (Ok(rule), Ok(inputs)) = (
                        crown::crown_rule(prim, out, w.atom.shape, e, p),
                        crown::crown_inputs::<S, Tracer<S>>(prim, out, w, p),
                    ) {
                        lemma_play_inputs(b, ins, rule.steps, inputs, Seq::empty());
                        if let (d, Ok(parts)) = vjp::applied::<S, Tracer<S>>(b, rule, inputs) {
                            if let Ok(scores) = crown::scored::<S, Tracer<S>>(
                                prim,
                                out,
                                w,
                                e,
                                p,
                                at.scores,
                            ) {
                                lemma_absorbed_all_inputs(
                                    d,
                                    ins,
                                    WalkV { scores, ..at },
                                    nn::operands_of(prim),
                                    parts,
                                    parts.len() / 2,
                                );
                            }
                        }
                    }
                }
            }
        }
        if let (d, Ok(next)) = crown::stepped::<S, Tracer<S>>(b, at, eqns[k - 1], e, p) {
            lemma_walked_inputs(d, ins, next, eqns, e, p, (k - 1) as nat);
        }
    }
}

/// The bound is traced the same way whatever the inputs.
proof fn lemma_bound_inputs<S: Scalar>(
    b: BuilderV<S>,
    ins: Seq<AtomV<S>>,
    g: GraphV<S>,
    e: Map<Seq<char>, IBPV<S>>,
    p: ParamsV<S, TracerV<S>>,
    start: StartV,
)
    ensures
        crown::lower_bound::<S, Tracer<S>>(with_inputs(b, ins), g, e, p, start) == (
            with_inputs(crown::lower_bound::<S, Tracer<S>>(b, g, e, p, start).0, ins),
            crown::lower_bound::<S, Tracer<S>>(b, g, e, p, start).1,
        ),
{
    if let Some((out, k)) = crown::start_of(g, start) {
        lemma_walked_inputs(
            b,
            ins,
            crown::departed::<S, Tracer<S>>(out),
            g.equations,
            e,
            p,
            k,
        );
    }
}

// ---- names ----
/// The name of multipliers is not that of a generated variable.
proof fn lemma_beta_number(mark: Seq<char>, name: Seq<char>)
    requires
        mark.len() > 1,
        mark.last() == 'a',
    ensures
        tracer::generated_number(beta_crown::beta_name(mark, name)) is None,
{
    let s = beta_crown::beta_name(mark, name);
    let t = s.drop_first();
    assert(s.last() == 'a');
    assert(t.last() == 'a');
    if t[0] == '+' {
        assert(t.drop_first().last() == 'a');
    }
}

/// Names of multipliers do not change from where on names are generated.
proof fn lemma_number_both(mark: Seq<char>, names: Seq<(Seq<char>, Seq<usize>)>, k: nat)
    requires
        mark.len() > 1,
        mark.last() == 'a',
        k <= names.len(),
    ensures
        ({
            let all = beta_crown::both(mark, names);
            tracer::number_above(Seq::new(all.len(), |i: int| all[i].0), 2 * k)
                == tracer::number_above(Seq::new(names.len(), |i: int| names[i].0), k)
        }),
    decreases k,
{
    if k > 0 {
        lemma_number_both(mark, names, (k - 1) as nat);
        let all = beta_crown::both(mark, names);
        let ns = Seq::new(all.len(), |i: int| all[i].0);
        lemma_beta_number(mark, names[k - 1].0);
        assert(ns[2 * k - 1] == beta_crown::beta_name(mark, names[k - 1].0));
        assert(ns[2 * k - 2] == names[k - 1].0);
        assert(tracer::number_above(ns, 2 * k) == tracer::number_above(ns, (2 * k - 1) as nat));
    }
}

/// The graph that slopes are traced in, with the multipliers as further inputs.
proof fn lemma_fresh_both<S>(mark: Seq<char>, names: Seq<(Seq<char>, Seq<usize>)>)
    requires
        mark.len() > 1,
        mark.last() == 'a',
    ensures
        compute_graph::fresh::<S>(beta_crown::both(mark, names)) == with_inputs(
            compute_graph::fresh::<S>(names),
            compute_graph::input_atoms::<S>(beta_crown::both(mark, names)),
        ),
{
    let all = beta_crown::both(mark, names);
    lemma_number_both(mark, names, names.len());
    assert(tracer::atom_names(compute_graph::input_atoms::<S>(all)) =~= Seq::new(
        all.len(),
        |i: int| all[i].0,
    ));
    assert(tracer::atom_names(compute_graph::input_atoms::<S>(names)) =~= Seq::new(
        names.len(),
        |i: int| names[i].0,
    ));
}

/// A traced input is found by its name.
proof fn lemma_traced_there<S>(atoms: Seq<AtomV<S>>, k: nat, i: int)
    requires
        0 <= i < k <= atoms.len(),
    ensures
        compute_graph::traced_vars(atoms, k).dom().contains(atoms[i].name),
    decreases k,
{
    if i < k - 1 {
        lemma_traced_there(atoms, (k - 1) as nat, i);
    }
}

/// The slopes of an activation are traced alike with and without multipliers.
proof fn lemma_traced_alike<S: Scalar>(
    input: AtomV<S>,
    eqns: Seq<EqnV<S>>,
    params: Map<Seq<char>, TensorV<S>>,
    j: int,
)
    requires
        support::distinct(input.name, eqns),
        0 <= j < eqns.len(),
        nn::is_activation(eqns[j].prim),
        eqns[j].out.value is None,
    ensures
        ({
            let names = alpha_crown::slots(eqns, params, eqns.len());
            let all = beta_crown::both(beta_crown::mark_of(eqns), names);
            let va = compute_graph::traced_vars(
                compute_graph::input_atoms::<S>(names),
                names.len(),
            );
            let vb = compute_graph::traced_vars(compute_graph::input_atoms::<S>(all), all.len());
            env::resolved::<S, Tracer<S>>(va, eqns[j].out) == env::resolved::<S, Tracer<S>>(
                beta_crown::traced_alphas(eqns, vb, eqns.len()),
                eqns[j].out,
            )
        }),
{
    let n = eqns.len();
    let name = eqns[j].out.name;
    let names = alpha_crown::slots(eqns, params, n);
    let mark = beta_crown::mark_of(eqns);
    let all = beta_crown::both(mark, names);
    let (aa, ab) = (
        compute_graph::input_atoms::<S>(names),
        compute_graph::input_atoms::<S>(all),
    );
    let va = compute_graph::traced_vars(aa, names.len());
    let vb = compute_graph::traced_vars(ab, all.len());
    layer_params::lemma_slots(input, eqns, params, n);
    lemma_traced_pick(eqns, vb, n, j);
    if vb.dom().contains(name) {
        layer_params::lemma_traced_vars(ab, all.len(), name);
        let i = choose|i: int|
            0 <= i < all.len() && (#[trigger] ab[i]).name == name && vb[name] == tracer::tracing(
                ab[i],
            );
        assert(layer_params::has_slot(eqns, params, names[i / 2], n as int));
        let k = choose|k: int|
            0 <= k < n && #[trigger] layer_params::slot_of(eqns, params, names[i / 2], k);
        layer_params::lemma_betas_apart(eqns, j, eqns[k].out.name);
        assert(i % 2 == 0);
        assert(aa[i / 2] == ab[i]);
        lemma_traced_there(aa, names.len(), i / 2);
        layer_params::lemma_traced_vars(aa, names.len(), name);
        let l = choose|l: int|
            0 <= l < names.len() && (#[trigger] aa[l]).name == name && va[name] == tracer::tracing(
                aa[l],
            );
        if l < i / 2 {
            assert(names[l].0 != names[i / 2].0);
        } else if i / 2 < l {
            assert(names[i / 2].0 != names[l].0);
        }
    } else if va.dom().contains(name) {
        layer_params::lemma_traced_vars(aa, names.len(), name);
        let l = choose|l: int|
            0 <= l < names.len() && (#[trigger] aa[l]).name == name && va[name] == tracer::tracing(
                aa[l],
            );
        assert(ab[2 * l] == aa[l]);
        lemma_traced_there(ab, all.len(), 2 * l);
    }
}

/// The traced slopes of one equation.
proof fn lemma_traced_pick<S>(
    eqns: Seq<EqnV<S>>,
    vars: Map<Seq<char>, TracerV<S>>,
    k: nat,
    j: int,
)
    requires
        k <= eqns.len(),
        0 <= j < eqns.len(),
    ensures
        ({
            let m = beta_crown::traced_alphas(eqns, vars, k);
            let name = eqns[j].out.name;
            &&& m.dom().contains(name) ==> vars.dom().contains(name) && m[name] == vars[name]
            &&& j < k && vars.dom().contains(name) ==> m.dom().contains(name)
        }),
    decreases k,
{
    if k > 0 {
        lemma_traced_pick(eqns, vars, (k - 1) as nat, j);
    }
}

// ---- losses ----
/// The losses as functions of the slopes alone, and of slopes and multipliers that nothing
/// depends on, have the same equations.
proof fn lemma_losses<S: Scalar>(
    g: GraphV<S>,
    e: Map<Seq<char>, IBPV<S>>,
    params: Map<Seq<char>, TensorV<S>>,
    x: IBPV<S>,
    start: StartV,
    loss: GraphV<S>,
)
    requires
        layered::layered(g),
        start is Last || start is Output,
        beta_crown::split_loss(
            g,
            e,
            alpha_crown::slots(g.equations, params, g.equations.len()),
            x,
            Map::empty(),
            start,
        ) == Ok::<GraphV<S>, Fault>(loss),
    ensures
        ({
            let names = alpha_crown::slots(g.equations, params, g.equations.len());
            &&& loss.invars == compute_graph::input_atoms::<S>(
                beta_crown::both(beta_crown::mark_of(g.equations), names),
            )
            &&& alpha_crown::slope_loss(g, e, names, x, start) == Ok::<GraphV<S>, Fault>(
                GraphV {
                    invars: compute_graph::input_atoms::<S>(names),
                    outvars: loss.outvars,
                    equations: loss.equations,
                },
            )
        }),
{
    let eqns = g.equations;
    let n = eqns.len();
    let names = alpha_crown::slots(eqns, params, n);
    let mark = beta_crown::mark_of(eqns);
    layer_params::lemma_marks(beta_crown::longest(eqns, n) / 6 + 1);
    let all = beta_crown::both(mark, names);
    let ins = compute_graph::input_atoms::<S>(all);
    let va = compute_graph::traced_vars(compute_graph::input_atoms::<S>(names), names.len());
    let vb = compute_graph::traced_vars(ins, all.len());
    let (a, b) = (compute_graph::fresh::<S>(names), compute_graph::fresh::<S>(all));
    lemma_fresh_both::<S>(mark, names);
    let none = Map::<Seq<char>, TensorV<S>>::empty();
    let biases = beta_crown::all_fed_by(eqns, e, n)->Ok_0;
    let p = ParamsV::<S, TracerV<S>> { alphas: va, splitting: None };
    let q = ParamsV {
        alphas: beta_crown::traced_alphas(eqns, vb, n),
        splitting: Some(
            SplittingV { betas: beta_crown::traced_betas(mark, eqns, vb, n), splits: none, biases },
        ),
    };
    assert(unconstrained::<S, Tracer<S>>(eqns, p, q)) by {
        assert forall|j: int|
            0 <= j < eqns.len() && nn::is_activation((#[trigger] eqns[j]).prim) implies env::resolved::<
            S,
            Tracer<S>,
        >(p.alphas, eqns[j].out) == env::resolved::<S, Tracer<S>>(q.alphas, eqns[j].out) by {
            assert(layered::layer_eqn(g.invars[0], eqns, j));
            lemma_traced_alike(g.invars[0], eqns, params, j);
        }
    }
    lemma_bound_same::<S, Tracer<S>>(b, g, e, p, q, start);
    lemma_bound_inputs(a, ins, g, e, p, start);
    let (d, bound) = crown::lower_bound::<S, Tracer<S>>(a, g, e, p, start);
    let w = bound->Ok_0.0;
    lemma_play_inputs(
        d,
        ins,
        affine::concretize_steps(),
        seq![
            w.weights,
            w.biases,
            tracer::constant_tracer(x.lb),
            tracer::constant_tracer(x.ub),
        ],
        Seq::empty(),
    );
    lemma_bound_keeps(b, g, e, p, start);
    lemma_bound_keeps(a, g, e, p, start);
    lemma_play_keeps(
        d,
        affine::concretize_steps(),
        seq![
            w.weights,
            w.biases,
            tracer::constant_tracer(x.lb),
            tracer::constant_tracer(x.ub),
        ],
        Seq::empty(),
    );
}

/// A program leaves the inputs of the graph under construction.
proof fn lemma_play_keeps<S: Scalar>(
    b: BuilderV<S>,
    steps: Seq<StepV<S>>,
    inputs: Seq<TracerV<S>>,
    done: Seq<TracerV<S>>,
)
    ensures
        value::play::<S, Tracer<S>>(b, steps, inputs, done).0.invars == b.invars,
{
    lemma_play_inputs(b, b.invars, steps, inputs, done);
    assert(with_inputs(b, b.invars) == b);
}

/// A walk leaves the inputs of the graph under construction.
proof fn lemma_bound_keeps<S: Scalar>(
    b: BuilderV<S>,
    g: GraphV<S>,
    e: Map<Seq<char>, IBPV<S>>,
    p: ParamsV<S, TracerV<S>>,
    start: StartV,
)
    ensures
        crown::lower_bound::<S, Tracer<S>>(b, g, e, p, start).0.invars == b.invars,
{
    lemma_bound_inputs(b, b.invars, g, e, p, start);
    assert(with_inputs(b, b.invars) == b);
}

// ---- gradients ----
/// Whether a name is that of the multipliers of one of some activations.
pub open spec fn is_beta(mark: Seq<char>, names: Seq<(Seq<char>, Seq<usize>)>, name: Seq<char>) -> bool {
    exists|i: int| 0 <= i < names.len() && name == beta_crown::beta_name(mark, (#[trigger] names[i]).0)
}

/// Whether two environments agree but for multipliers.
pub open spec fn agree<M>(
    mark: Seq<char>,
    names: Seq<(Seq<char>, Seq<usize>)>,
    a: Map<Seq<char>, M>,
    b: Map<Seq<char>, M>,
) -> bool {
    forall|n: Seq<char>|
        !is_beta(mark, names, n) ==> (#[trigger] a.dom().contains(n) == b.dom().contains(n)) && (
        a.dom().contains(n) ==> a[n] == b[n])
}

/// Whether an atom is no multiplier.
pub open spec fn readable<S>(mark: Seq<char>, names: Seq<(Seq<char>, Seq<usize>)>, a: AtomV<S>) -> bool {
    a.value is Some || !is_beta(mark, names, a.name)
}

/// Whether an equation reads no multiplier, and its result is none.
pub open spec fn eqn_readable<S>(mark: Seq<char>, names: Seq<(Seq<char>, Seq<usize>)>, eqn: EqnV<S>) -> bool {
    &&& readable(mark, names, eqn.out)
    &&& forall|i: int|
        0 <= i < nn::operands_of(eqn.prim).len() ==> readable(
            mark,
            names,
            #[trigger] nn::operands_of(eqn.prim)[i],
        )
}

/// What is no multiplier stands for the same in both environments.
proof fn lemma_resolved_agree<S: Scalar>(
    mark: Seq<char>,
    names: Seq<(Seq<char>, Seq<usize>)>,
    e: Map<Seq<char>, TensorV<S>>,
    f: Map<Seq<char>, TensorV<S>>,
    a: AtomV<S>,
)
    requires
        agree(mark, names, e, f),
        readable(mark, names, a),
    ensures
        env::resolved::<S, Tensor<S>>(e, a) == env::resolved::<S, Tensor<S>>(f, a),
{
    assert(a.value is None ==> e.dom().contains(a.name) == f.dom().contains(a.name));
}

/// Evaluation keeps the environments in agreement.
proof fn lemma_forward_agree<S: Scalar>(
    mark: Seq<char>,
    names: Seq<(Seq<char>, Seq<usize>)>,
    eqns: Seq<EqnV<S>>,
    e: Map<Seq<char>, TensorV<S>>,
    f: Map<Seq<char>, TensorV<S>>,
    i: nat,
)
    requires
        agree(mark, names, e, f),
        forall|j: int| 0 <= j < eqns.len() ==> eqn_readable(mark, names, #[trigger] eqns[j]),
        eval::forward::<S, Tensor<S>>((), eqns, f, i).1 is Ok,
    ensures
        eval::forward::<S, Tensor<S>>((), eqns, e, i).1 matches Ok(x) && agree(
            mark,
            names,
            x,
            eval::forward::<S, Tensor<S>>((), eqns, f, i).1->Ok_0,
        ),
    decreases eqns.len() - i,
{
    if i < eqns.len() {
        let eqn = eqns[i as int];
        assert(eqn_readable(mark, names, eqn));
        let atoms = nn::operands_of(eqn.prim);
        assert forall|k: int| 0 <= k < atoms.len() implies env::resolved::<S, Tensor<S>>(
            e,
            #[trigger] atoms[k],
        ) == env::resolved::<S, Tensor<S>>(f, atoms[k]) by {
            lemma_resolved_agree(mark, names, e, f, atoms[k]);
        }
        match eqn.prim {
            PrimV::Un(_, a) => {
                assert(atoms[0] == a);
            },
            PrimV::Bin(_, a, b) => {
                assert(atoms[0] == a && atoms[1] == b);
            },
            PrimV::Select(p, a, b) => {
                assert(atoms[0] == p && atoms[1] == a && atoms[2] == b);
            },
        }
        let t = eval::prim_value::<S, Tensor<S>>((), f, eqn.prim).1->Ok_0;
        let (x, y) = (e.insert(eqn.out.name, t), f.insert(eqn.out.name, t));
        assert(agree(mark, names, x, y)) by {
            assert forall|n: Seq<char>| !is_beta(mark, names, n) implies (#[trigger] x.dom().contains(n)
                == y.dom().contains(n)) && (x.dom().contains(n) ==> x[n] == y[n]) by {
                assert(e.dom().contains(n) == f.dom().contains(n));
            }
        }
        lemma_forward_agree(mark, names, eqns, x, y, i + 1);
    }
}

/// What several atoms stand for.
proof fn lemma_resolved_all_agree<S: Scalar>(
    mark: Seq<char>,
    names: Seq<(Seq<char>, Seq<usize>)>,
    e: Map<Seq<char>, TensorV<S>>,
    f: Map<Seq<char>, TensorV<S>>,
    atoms: Seq<AtomV<S>>,
    k: nat,
)
    requires
        agree(mark, names, e, f),
        k <= atoms.len(),
        forall|i: int| 0 <= i < atoms.len() ==> readable(mark, names, #[trigger] atoms[i]),
    ensures
        vjp::resolved_all::<S, Tensor<S>>(e, atoms, k) == vjp::resolved_all::<S, Tensor<S>>(
            f,
            atoms,
            k,
        ),
    decreases k,
{
    if k > 0 {
        lemma_resolved_all_agree(mark, names, e, f, atoms, (k - 1) as nat);
        lemma_resolved_agree(mark, names, e, f, atoms[k - 1]);
    }
}

/// Cotangents are taken back alike.
proof fn lemma_backward_agree<S: Scalar>(
    mark: Seq<char>,
    names: Seq<(Seq<char>, Seq<usize>)>,
    eqns: Seq<EqnV<S>>,
    e: Map<Seq<char>, TensorV<S>>,
    f: Map<Seq<char>, TensorV<S>>,
    cot: Map<Seq<char>, TensorV<S>>,
    k: nat,
)
    requires
        k <= eqns.len(),
        agree(mark, names, e, f),
        forall|j: int| 0 <= j < eqns.len() ==> eqn_readable(mark, names, #[trigger] eqns[j]),
    ensures
        grad::backward(eqns, e, cot, k) == grad::backward(eqns, f, cot, k),
    decreases k,
{
    if k > 0 {
        let eqn = eqns[k - 1];
        assert(eqn_readable(mark, names, eqn));
        let (p, out) = (eqn.prim, eqn.out);
        let atoms = nn::operands_of(p);
        if let Ok(needs) = vjp::vjp_needs(p, out) {
            assert forall|i: int| 0 <= i < needs.len() implies readable(
                mark,
                names,
                #[trigger] needs[i],
            ) by {
                match p {
                    PrimV::Un(_, a) => {
                        assert(atoms[0] == a);
                    },
                    PrimV::Bin(_, a, b) => {
                        assert(atoms[0] == a && atoms[1] == b);
                    },
                    PrimV::Select(q, _, _) => {
                        assert(atoms[0] == q);
                    },
                }
            }
            lemma_resolved_all_agree(mark, names, e, f, needs, needs.len());
        }
        assert(vjp::vjp_values::<S, Tensor<S>>((), p, out, e, cot) == vjp::vjp_values::<
            S,
            Tensor<S>,
        >((), p, out, f, cot));
        if !cot.dom().contains(out.name) {
            lemma_backward_agree(mark, names, eqns, e, f, cot, (k - 1) as nat);
        } else if let Ok(ts) = vjp::vjp_values::<S, Tensor<S>>((), p, out, e, cot).1 {
            if let Ok(m) = grad::accumulated_all(
                cot,
                atoms,
                ts,
                eval::shorter(atoms.len(), ts.len()),
            ) {
                lemma_backward_agree(mark, names, eqns, e, f, m, (k - 1) as nat);
            }
        }
    }
}

/// Whether every other element of a list is that of another.
pub open spec fn every_other<M>(a: Seq<M>, b: Seq<M>, k: int) -> bool {
    &&& a.len() == k
    &&& b.len() == 2 * k
    &&& forall|i: int| 0 <= i < k ==> b[2 * i] == #[trigger] a[i]
}

/// The gradients of the slopes stand before those of the multipliers.
proof fn lemma_gradients_agree<S: Scalar>(
    mark: Seq<char>,
    names: Seq<(Seq<char>, Seq<usize>)>,
    cot: Map<Seq<char>, TensorV<S>>,
    k: nat,
)
    requires
        k <= names.len(),
    ensures
        ({
            let (a, b) = (
                compute_graph::input_atoms::<S>(names),
                compute_graph::input_atoms::<S>(beta_crown::both(mark, names)),
            );
            grad::gradients(b, cot, 2 * k) matches Ok(y) ==> grad::gradients(a, cot, k) matches Ok(
                x,
            ) && every_other(x, y, k as int)
        }),
    decreases k,
{
    if k > 0 {
        let (a, b) = (
            compute_graph::input_atoms::<S>(names),
            compute_graph::input_atoms::<S>(beta_crown::both(mark, names)),
        );
        lemma_gradients_agree(mark, names, cot, (k - 1) as nat);
        assert(b[2 * k - 2] == a[k - 1]);
        assert(grad::gradients(b, cot, (2 * k - 1) as nat) is Ok || grad::gradients(b, cot, 2 * k)
            is Err);
        assert(2 * k - 2 == 2 * (k - 1));
    }
}

/// The slopes stand before the multipliers, and are bound to the same names.
proof fn lemma_paired_agree<S: Scalar>(
    names: Seq<(Seq<char>, Seq<usize>)>,
    p: PairV<S>,
    k: nat,
)
    requires
        k <= names.len(),
    ensures
        beta_crown::paired(names, p, k) matches Ok(y) ==> (alpha_crown::looked_up(
            names,
            p.alphas,
            k,
        ) matches Ok(x) && every_other(x, y, k as int)),
    decreases k,
{
    if k > 0 {
        lemma_paired_agree(names, p, (k - 1) as nat);
    }
}

/// The environments that evaluation starts from agree.
proof fn lemma_bound_agree<S: Scalar>(
    mark: Seq<char>,
    names: Seq<(Seq<char>, Seq<usize>)>,
    x: Seq<TensorV<S>>,
    y: Seq<TensorV<S>>,
    k: nat,
)
    requires
        k <= names.len(),
        every_other(x, y, names.len() as int),
    ensures
        agree(
            mark,
            names,
            eval::bound(compute_graph::input_atoms::<S>(names), x, k),
            eval::bound(compute_graph::input_atoms::<S>(beta_crown::both(mark, names)), y, 2 * k),
        ),
    decreases k,
{
    if k > 0 {
        let (a, b) = (
            compute_graph::input_atoms::<S>(names),
            compute_graph::input_atoms::<S>(beta_crown::both(mark, names)),
        );
        lemma_bound_agree(mark, names, x, y, (k - 1) as nat);
        let (e, f) = (
            eval::bound(a, x, (k - 1) as nat),
            eval::bound(b, y, (2 * (k - 1)) as nat),
        );
        let (name, beta) = (names[k - 1].0, beta_crown::beta_name(mark, names[k - 1].0));
        assert(b[2 * k - 2].name == name && b[2 * k - 1].name == beta);
        assert(y[2 * (k - 1)] == x[k - 1]);
        assert(eval::bound(b, y, (2 * k - 1) as nat) == f.insert(name, x[k - 1]));
        let (e2, f2) = (eval::bound(a, x, k), eval::bound(b, y, 2 * k));
        assert(f2 == f.insert(name, x[k - 1]).insert(beta, y[2 * k - 1]));
        assert(is_beta(mark, names, beta));
        assert forall|n: Seq<char>| !is_beta(mark, names, n) implies (#[trigger] e2.dom().contains(n)
            == f2.dom().contains(n)) && (e2.dom().contains(n) ==> e2[n] == f2[n]) by {
            assert(e.dom().contains(n) == f.dom().contains(n));
        }
    }
}

/// Slopes move alike.
proof fn lemma_ascended_agree<S: Scalar>(
    names: Seq<(Seq<char>, Seq<usize>)>,
    x: Seq<TensorV<S>>,
    y: Seq<TensorV<S>>,
    p: PairV<S>,
    k: nat,
)
    requires
        k <= names.len(),
        every_other(x, y, names.len() as int),
    ensures
        beta_crown::pair_ascended(names, y, p, k) matches Ok(q) ==> alpha_crown::ascended(
            names,
            x,
            p.alphas,
            k,
        ) == Ok::<Map<Seq<char>, TensorV<S>>, Fault>(q.alphas),
    decreases k,
{
    if k > 0 {
        lemma_ascended_agree(names, x, y, p, (k - 1) as nat);
        assert(y[2 * (k - 1)] == x[k - 1]);
    }
}

/// Steps of ascent move the slopes alike.
proof fn lemma_climbed_agree<S: Scalar>(
    mark: Seq<char>,
    names: Seq<(Seq<char>, Seq<usize>)>,
    loss: GraphV<S>,
    p: PairV<S>,
    n: nat,
)
    requires
        loss.invars == compute_graph::input_atoms::<S>(beta_crown::both(mark, names)),
        forall|j: int|
            0 <= j < loss.equations.len() ==> eqn_readable(mark, names, #[trigger] loss.equations[j]),
    ensures
        ({
            let alone = GraphV {
                invars: compute_graph::input_atoms::<S>(names),
                outvars: loss.outvars,
                equations: loss.equations,
            };
            beta_crown::pair_climbed_often(loss, names, p, n) matches Ok(q)
                ==> alpha_crown::climbed_often(alone, names, p.alphas, n) == Ok::<
                Map<Seq<char>, TensorV<S>>,
                Fault,
            >(q.alphas)
        }),
    decreases n,
{
    let alone = GraphV {
        invars: compute_graph::input_atoms::<S>(names),
        outvars: loss.outvars,
        equations: loss.equations,
    };
    if n > 0 && beta_crown::pair_climbed(loss, names, p) is Ok {
        reveal(beta_crown::pair_climbed);
        reveal(alpha_crown::climbed);
        let m = names.len();
        let q = beta_crown::pair_climbed(loss, names, p)->Ok_0;
        lemma_paired_agree(names, p, m);
        let y = beta_crown::paired(names, p, m)->Ok_0;
        let x = alpha_crown::looked_up(names, p.alphas, m)->Ok_0;
        lemma_bound_agree(mark, names, x, y, m);
        let (e, f) = (
            eval::bound(alone.invars, x, m),
            eval::bound(loss.invars, y, 2 * m),
        );
        lemma_forward_agree(mark, names, loss.equations, e, f, 0);
        let (a, b) = (
            eval::forward::<S, Tensor<S>>((), loss.equations, e, 0).1->Ok_0,
            eval::forward::<S, Tensor<S>>((), loss.equations, f, 0).1->Ok_0,
        );
        assert(eval::environment::<S, Tensor<S>>((), alone, x).1 == Ok::<
            Map<Seq<char>, TensorV<S>>,
            Fault,
        >(a));
        assert(eval::environment::<S, Tensor<S>>((), loss, y).1 == Ok::<
            Map<Seq<char>, TensorV<S>>,
            Fault,
        >(b));
        lemma_seeds_agree(loss.outvars, a, b, loss.outvars.len());
        let start = grad::seeds(loss.outvars, b, None, loss.outvars.len())->Ok_0;
        lemma_backward_agree(mark, names, loss.equations, a, b, start, loss.equations.len());
        let cot = grad::backward(loss.equations, b, start, loss.equations.len())->Ok_0;
        lemma_gradients_agree::<S>(mark, names, cot, m);
        let gy = grad::loss_gradients(loss, y, None)->Ok_0;
        let gx = grad::loss_gradients(alone, x, None)->Ok_0;
        lemma_ascended_agree(names, gx, gy, p, m);
        assert(alpha_crown::climbed(alone, names, p.alphas) == Ok::<
            Map<Seq<char>, TensorV<S>>,
            Fault,
        >(q.alphas));
        lemma_climbed_agree(mark, names, loss, q, (n - 1) as nat);
    }
}

/// Without labels the cotangents of the outputs do not depend on any values.
proof fn lemma_seeds_agree<S: Scalar>(
    outs: Seq<AtomV<S>>,
    a: Map<Seq<char>, TensorV<S>>,
    b: Map<Seq<char>, TensorV<S>>,
    k: nat,
)
    ensures
        grad::seeds(outs, a, None, k) == grad::seeds(outs, b, None, k),
    decreases k,
{
    if k > 0 {
        lemma_seeds_agree(outs, a, b, (k - 1) as nat);
    }
}

/// The equations of a traced loss read no multipliers.
proof fn lemma_loss_readable<S: Scalar>(
    eqns: Seq<EqnV<S>>,
    params: Map<Seq<char>, TensorV<S>>,
    names: Seq<(Seq<char>, Seq<usize>)>,
    b: BuilderV<S>,
    j: int,
)
    requires
        layer_params::slots_ok(eqns, params, names, eqns.len() as int),
        shaping::all_plain(b),
        b.invars == compute_graph::input_atoms::<S>(names),
        0 <= j < b.equations.len(),
    ensures
        eqn_readable(beta_crown::mark_of(eqns), names, b.equations[j]),
{
    let mark = beta_crown::mark_of(eqns);
    layer_params::lemma_marks(beta_crown::longest(eqns, eqns.len()) / 6 + 1);
    let eqn = b.equations[j];
    assert(shaping::eqn_plain(b, j));
    assert forall|k: int| 0 <= k < b.equations.len() implies !is_beta(
        mark,
        names,
        (#[trigger] b.equations[k]).out.name,
    ) by {
        assert(shaping::eqn_plain(b, k));
        let first = tracer::first_number(tracer::atom_names(b.invars));
        slope_bounds::lemma_generated_number((first + k) as nat);
        if is_beta(mark, names, b.equations[k].out.name) {
            let i = choose|i: int|
                0 <= i < names.len() && b.equations[k].out.name == beta_crown::beta_name(
                    mark,
                    (#[trigger] names[i]).0,
                );
            lemma_beta_number(mark, names[i].0);
        }
    }
    assert forall|i: int| 0 <= i < names.len() implies !is_beta(mark, names, (#[trigger] names[i]).0) by {
        if is_beta(mark, names, names[i].0) {
            let l = choose|l: int|
                0 <= l < names.len() && names[i].0 == beta_crown::beta_name(mark, (#[trigger] names[l]).0);
            assert(layer_params::has_slot(eqns, params, names[i], eqns.len() as int));
            assert(layer_params::has_slot(eqns, params, names[l], eqns.len() as int));
            let s = choose|s: int|
                0 <= s < eqns.len() && #[trigger] layer_params::slot_of(eqns, params, names[i], s);
            let t = choose|t: int|
                0 <= t < eqns.len() && #[trigger] layer_params::slot_of(eqns, params, names[l], t);
            layer_params::lemma_betas_apart(eqns, s, eqns[t].out.name);
        }
    }
    let atoms = nn::operands_of(eqn.prim);
    assert forall|i: int| 0 <= i < atoms.len() implies readable(mark, names, #[trigger] atoms[i]) by {
        let a = atoms[i];
        assert(shaping::known(b, a, j));
        if a.value is None {
            if exists|k: int| 0 <= k < b.invars.len() && #[trigger] b.invars[k] == a {
                let k = choose|k: int| 0 <= k < b.invars.len() && #[trigger] b.invars[k] == a;
                assert(names[k].0 == a.name);
            } else {
                let k = choose|k: int| 0 <= k < j && (#[trigger] b.equations[k]).out == a;
                assert(!is_beta(mark, names, b.equations[k].out.name));
            }
        }
    }
}

/// The slopes after the ascent under constraints that there are none of.
proof fn lemma_best_same<S: Scalar>(
    v: spec_fn(S) -> real,
    g: GraphV<S>,
    e: Map<Seq<char>, IBPV<S>>,
    p: PairV<S>,
    start: StartV,
    q: PairV<S>,
)
    requires
        exact::exact(v),
        layered::layered(g),
        layered::spans_hold(e, g.invars[0], g.equations, g.equations.len() - 1),
        layer_params::pair_fits(g.equations, layer_slopes::alone(p.alphas)),
        start is Last || start is Output,
        beta_crown::best_pair(g, e, Map::empty(), p, start) == Ok::<PairV<S>, Fault>(q),
    ensures
        alpha_crown::best_slopes(g, e, p.alphas, start) == Ok::<
            Map<Seq<char>, TensorV<S>>,
            Fault,
        >(q.alphas),
{
    let eqns = g.equations;
    let mark = beta_crown::mark_of(eqns);
    if p.alphas != Map::<Seq<char>, TensorV<S>>::empty() {
        let x = crown::bounds_of(e, g.invars[0])->Ok_0;
        let names = alpha_crown::slots(eqns, p.alphas, eqns.len());
        let loss = beta_crown::split_loss(g, e, names, x, Map::empty(), start)->Ok_0;
        lemma_losses(g, e, p.alphas, x, start, loss);
        let own = alpha_crown::slope_loss(g, e, names, x, start)->Ok_0;
        let (b, t) = layer_slopes::lemma_slope_loss(v, g, e, p.alphas, x, start, own);
        assert forall|j: int| 0 <= j < loss.equations.len() implies eqn_readable(
            mark,
            names,
            #[trigger] loss.equations[j],
        ) by {
            lemma_loss_readable(eqns, p.alphas, names, b, j);
        }
        lemma_climbed_agree(mark, names, loss, p, alpha_crown::ITERS as nat);
    }
}

// ---- first slopes ----
/// The first slopes of the activations among the first `k` equations.
pub open spec fn first_of<S: Scalar>(
    eqns: Seq<EqnV<S>>,
    e: Map<Seq<char>, IBPV<S>>,
    k: nat,
) -> Map<Seq<char>, TensorV<S>>
    decreases k,
{
    if k == 0 {
        Map::empty()
    } else {
        let m = first_of(eqns, e, (k - 1) as nat);
        match eqns[k - 1].prim {
            PrimV::Un(_, a) if nn::is_activation(eqns[k - 1].prim) => m.insert(
                eqns[k - 1].out.name,
                alpha_crown::first_slopes(crown::bounds_of(e, a)->Ok_0),
            ),
            _ => m,
        }
    }
}

/// The first slopes bear the names of results.
proof fn lemma_first_names<S: Scalar>(
    input: AtomV<S>,
    eqns: Seq<EqnV<S>>,
    e: Map<Seq<char>, IBPV<S>>,
    k: nat,
    j: int,
)
    requires
        support::distinct(input.name, eqns),
        k <= j < eqns.len(),
    ensures
        !first_of(eqns, e, k).dom().contains(eqns[j].out.name),
    decreases k,
{
    if k > 0 {
        lemma_first_names(input, eqns, e, (k - 1) as nat, j);
        assert(support::variable(input.name, eqns, k as int) != support::variable(
            input.name,
            eqns,
            j + 1,
        ));
    }
}

/// Parameters that are not given start from the first slopes.
proof fn lemma_seeded_first<S: Scalar>(
    input: AtomV<S>,
    eqns: Seq<EqnV<S>>,
    e: Map<Seq<char>, IBPV<S>>,
    k: nat,
)
    requires
        support::distinct(input.name, eqns),
        k <= eqns.len(),
    ensures
        beta_crown::seeded(
            eqns,
            e,
            PairV { alphas: Map::empty(), betas: Map::empty() },
            k,
        ) matches Ok(q) ==> q.alphas == first_of(eqns, e, k),
    decreases k,
{
    if k > 0 {
        lemma_seeded_first(input, eqns, e, (k - 1) as nat);
        lemma_first_names(input, eqns, e, (k - 1) as nat, k - 1);
    }
}

/// The bounds of a variable stay when later ones are computed.
proof fn lemma_prepared_keeps<S: Scalar>(
    eqns: Seq<EqnV<S>>,
    e: Map<Seq<char>, IBPV<S>>,
    params: Map<Seq<char>, TensorV<S>>,
    i: nat,
    name: Seq<char>,
)
    requires
        forall|j: int| i <= j < eqns.len() ==> (#[trigger] eqns[j]).out.name != name,
    ensures
        alpha_crown::prepared(eqns, e, params, i) matches Ok((b, _)) ==> b.dom().contains(name)
            == e.dom().contains(name) && b[name] == e[name],
    decreases eqns.len() - i,
{
    if i < eqns.len() {
        let (prim, out) = (eqns[i as int].prim, eqns[i as int].out.name);
        if let Ok(v) = eval::prim_value::<S, IBPTensor<S>>((), e, prim).1 {
            let e2 = e.insert(out, v);
            lemma_prepared_keeps(eqns, e2, params, i + 1, name);
            if let PrimV::Un(op, a) = prim {
                if let Ok(x) = crown::bounds_of(e2, a) {
                    lemma_prepared_keeps(
                        eqns,
                        e2,
                        params.insert(out, alpha_crown::first_slopes(x)),
                        i + 1,
                        name,
                    );
                }
            }
        }
    }
}

/// The optimization starts from the first slopes.
proof fn lemma_prepared_first<S: Scalar>(
    g: GraphV<S>,
    e: Map<Seq<char>, IBPV<S>>,
    params: Map<Seq<char>, TensorV<S>>,
    i: nat,
)
    requires
        layered::layered(g),
        i <= g.equations.len(),
        alpha_crown::prepared(g.equations, e, params, i) matches Ok((b, _)) ==> params == first_of(
            g.equations,
            b,
            i,
        ),
    ensures
        alpha_crown::prepared(g.equations, e, params, i) matches Ok((b, p)) ==> p == first_of(
            g.equations,
            b,
            g.equations.len(),
        ),
    decreases g.equations.len() - i,
{
    let (input, eqns) = (g.invars[0], g.equations);
    if i < eqns.len() && alpha_crown::prepared(eqns, e, params, i) is Ok {
        let (b, _) = alpha_crown::prepared(eqns, e, params, i)->Ok_0;
        let (prim, name) = (eqns[i as int].prim, eqns[i as int].out.name);
        let v = eval::prim_value::<S, IBPTensor<S>>((), e, prim).1->Ok_0;
        let e2 = e.insert(name, v);
        if nn::is_activation(prim) {
            if let PrimV::Un(_, a) = prim {
                let x = crown::bounds_of(e2, a)->Ok_0;
                let more = params.insert(name, alpha_crown::first_slopes(x));
                assert(layered::layer_eqn(input, eqns, i as int));
                assert(nn::operands_of(prim)[0] == a);
                assert(layered::declared(input, eqns, a, i as int));
                if a.value is None {
                    let k = choose|k: int|
                        0 <= k <= i && #[trigger] support::variable(input.name, eqns, k) == a.name
                            && layered::shape_at(input, eqns, k) == a.shape;
                    assert forall|j: int| i + 1 <= j < eqns.len() implies (
                    #[trigger] eqns[j]).out.name != a.name by {
                        assert(support::variable(input.name, eqns, k) != support::variable(
                            input.name,
                            eqns,
                            j + 1,
                        ));
                    }
                    lemma_prepared_keeps(eqns, e2, more, i + 1, a.name);
                }
                assert(crown::bounds_of(b, a) == crown::bounds_of(e2, a));
                lemma_prepared_first(g, e2, more, i + 1);
            }
        } else {
            lemma_prepared_first(g, e2, params, i + 1);
        }
    }
}

/// On a network of layers, bounds under constraints are the lower bounds with optimized slopes
/// where there are no constraints, and no parameters to start from: the affine functions are the
/// same.
pub proof fn lemma_no_splits<S: Scalar>(
    v: spec_fn(S) -> real,
    g: GraphV<S>,
    region: IBPV<S>,
    e: Map<Seq<char>, IBPV<S>>,
    start: StartV,
    low: AffineV<TensorV<S>>,
    high: AffineV<TensorV<S>>,
    o: OutcomeV<S>,
)
    requires
        exact::exact(v),
        layered::layered(g),
        layered::spans(region, g.invars[0].shape),
        start is Last || start is Output,
        eval::environment::<S, IBPTensor<S>>((), g, seq![region]).1 == Ok::<
            Map<Seq<char>, IBPV<S>>,
            Fault,
        >(e),
        alpha_crown::alpha_bounds(g, seq![region], start) == Ok::<
            (AffineV<TensorV<S>>, AffineV<TensorV<S>>),
            Fault,
        >((low, high)),
        beta_crown::beta_bound(
            g,
            e,
            Map::empty(),
            start,
            PairV { alphas: Map::empty(), betas: Map::empty() },
        ) == Ok::<OutcomeV<S>, Fault>(o),
    ensures
        o.bound == low,
{
    let (input, eqns) = (g.invars[0], g.equations);
    let given = node_verdicts::given(g, region);
    reveal_with_fuel(eval::bound, 2);
    assert(eval::bound(g.invars, seq![region], 1) == given);
    let none = Map::<Seq<char>, TensorV<S>>::empty();
    let (b, p) = alpha_crown::prepared(eqns, given, none, 0)->Ok_0;
    assert(layered::spans_hold(given, input, eqns, 0)) by {
        assert(support::variable(input.name, eqns, 0) == input.name);
    }
    assert(layer_params::pair_fits(eqns, layer_slopes::alone(none))) by {
        assert forall|j: int| 0 <= j < eqns.len() && nn::is_activation(eqns[j].prim) implies #[trigger]
            layer_params::pair_fits_at(eqns, layer_slopes::alone(none), j) by {}
    }
    layer_slopes::lemma_prepared(v, g, given, none, 0);
    assert(b == e);
    layered::lemma_layers_bound(v, g, region);
    let own = PairV { alphas: none, betas: none };
    lemma_prepared_first(g, given, none, 0);
    lemma_seeded_first(input, eqns, e, eqns.len());
    let q = beta_crown::seeded(eqns, e, own, eqns.len())->Ok_0;
    assert(q.alphas == p);
    let best = beta_crown::best_pair(g, e, none, q, start)->Ok_0;
    lemma_best_same(v, g, e, q, start, best);
    let biases = beta_crown::all_fed_by(eqns, e, eqns.len())->Ok_0;
    lemma_bound_same::<S, Tensor<S>>(
        (),
        g,
        e,
        ParamsV { alphas: best.alphas, splitting: None },
        ParamsV {
            alphas: best.alphas,
            splitting: Some(SplittingV { betas: best.betas, splits: none, biases }),
        },
        start,
    );
}

} // verus!
