//! The parameters of bounds of networks of layers keep their shapes when they are optimized.

use vstd::prelude::*;
use crate::affine;
use crate::alpha_crown;
use crate::beta_crown;
use crate::beta_crown::PairV;
use crate::compute_graph;
use crate::crown;
use crate::crown::{ParamsV, SplittingV, StartV};
use crate::exact;
use crate::grad;
use crate::interval::IBPV;
use crate::layer_walk;
use crate::layer_walk::fills;
use crate::layered;
use crate::loss_shapes;
use crate::model;
use crate::model::{BinOpV, Fault, TensorV};
use crate::nn;
use crate::nn::{AtomV, EqnV, GraphV};
use crate::pairing;
use crate::scalar::Scalar;
use crate::shaping;
use crate::shaping::Shaped;
use crate::support;
use crate::tensor::Tensor;
use crate::tracer;
use crate::tracer::{BuilderV, Tracer, TracerV};

verus! {

// ---- names ----
/// Names are not longer than the longest.
proof fn lemma_longest<S>(eqns: Seq<EqnV<S>>, k: nat, j: int)
    requires
        0 <= j < k <= eqns.len(),
    ensures
        eqns[j].out.name.len() <= beta_crown::longest(eqns, k),
    decreases k,
{
    if j < k - 1 {
        lemma_longest(eqns, (k - 1) as nat, j);
    }
}

/// Repeated marks.
pub proof fn lemma_marks(n: nat)
    ensures
        beta_crown::marks(n).len() == 6 * n,
        n > 0 ==> beta_crown::marks(n).last() == 'a',
    decreases n,
{
    if n > 0 {
        lemma_marks((n - 1) as nat);
        reveal_strlit("::beta");
    }
}

/// No result is named like multipliers.
pub proof fn lemma_betas_apart<S>(eqns: Seq<EqnV<S>>, j: int, name: Seq<char>)
    requires
        0 <= j < eqns.len(),
    ensures
        eqns[j].out.name != beta_crown::beta_name(beta_crown::mark_of(eqns), name),
{
    let n = beta_crown::longest(eqns, eqns.len());
    lemma_longest(eqns, eqns.len(), j);
    lemma_marks(n / 6 + 1);
}

/// Multipliers of variables of different names have different names.
proof fn lemma_beta_name(mark: Seq<char>, a: Seq<char>, b: Seq<char>)
    requires
        beta_crown::beta_name(mark, a) == beta_crown::beta_name(mark, b),
    ensures
        a == b,
{
    let (x, y) = (beta_crown::beta_name(mark, a), beta_crown::beta_name(mark, b));
    assert(x.len() == y.len());
    assert(a =~= x.subrange(0, a.len() as int));
    assert(b =~= y.subrange(0, b.len() as int));
}

/// Which parameters are optimized: those of the rectifiers, by the names of their results.
pub open spec fn slot_of<S>(
    eqns: Seq<EqnV<S>>,
    params: Map<Seq<char>, TensorV<S>>,
    slot: (Seq<char>, Seq<usize>),
    j: int,
) -> bool {
    &&& eqns[j].out.name == slot.0
    &&& nn::is_activation(eqns[j].prim)
    &&& params.dom().contains(slot.0)
    &&& slot.1 == params[slot.0].shape
}

/// Whether a name with a shape belongs to one of the first `k` equations.
pub open spec fn has_slot<S>(
    eqns: Seq<EqnV<S>>,
    params: Map<Seq<char>, TensorV<S>>,
    slot: (Seq<char>, Seq<usize>),
    k: int,
) -> bool {
    exists|j: int| 0 <= j < k && #[trigger] slot_of(eqns, params, slot, j)
}

/// Whether some names with shapes belong to activations of different names.
pub open spec fn slots_ok<S>(
    eqns: Seq<EqnV<S>>,
    params: Map<Seq<char>, TensorV<S>>,
    names: Seq<(Seq<char>, Seq<usize>)>,
    k: int,
) -> bool {
    &&& forall|i: int| 0 <= i < names.len() ==> has_slot(eqns, params, #[trigger] names[i], k)
    &&& forall|i: int, l: int|
        0 <= i < l < names.len() ==> (#[trigger] names[i]).0 != (#[trigger] names[l]).0
}

/// The slots among the first `k` equations.
pub proof fn lemma_slots<S: Scalar>(
    input: AtomV<S>,
    eqns: Seq<EqnV<S>>,
    params: Map<Seq<char>, TensorV<S>>,
    k: nat,
)
    requires
        k <= eqns.len(),
        support::distinct(input.name, eqns),
    ensures
        slots_ok(eqns, params, alpha_crown::slots(eqns, params, k), k as int),
    decreases k,
{
    let names = alpha_crown::slots(eqns, params, k);
    if k > 0 {
        let before = alpha_crown::slots(eqns, params, (k - 1) as nat);
        lemma_slots(input, eqns, params, (k - 1) as nat);
        assert forall|i: int| 0 <= i < names.len() implies has_slot(
            eqns,
            params,
            #[trigger] names[i],
            k as int,
        ) by {
            if i < before.len() {
                assert(has_slot(eqns, params, before[i], k - 1));
                let j = choose|j: int|
                    0 <= j < k - 1 && #[trigger] slot_of(eqns, params, before[i], j);
                assert(names[i] == before[i]);
                assert(slot_of(eqns, params, names[i], j));
            } else {
                assert(slot_of(eqns, params, names[i], k - 1));
            }
        }
        assert forall|i: int, l: int| 0 <= i < l < names.len() implies (#[trigger] names[i]).0 != (
        #[trigger] names[l]).0 by {
            if l >= before.len() {
                assert(has_slot(eqns, params, before[i], k - 1));
                let j = choose|j: int|
                    0 <= j < k - 1 && #[trigger] slot_of(eqns, params, before[i], j);
                assert(names[i] == before[i]);
                assert(support::variable(input.name, eqns, j + 1) != support::variable(
                    input.name,
                    eqns,
                    k as int,
                ));
            } else {
                assert(names[i] == before[i] && names[l] == before[l]);
            }
        }
    }
}

/// The inputs of the loss have names of their own.
proof fn lemma_inputs_apart<S: Scalar>(
    eqns: Seq<EqnV<S>>,
    params: Map<Seq<char>, TensorV<S>>,
    names: Seq<(Seq<char>, Seq<usize>)>,
)
    requires
        slots_ok(eqns, params, names, eqns.len() as int),
    ensures
        loss_shapes::named_apart(compute_graph::input_atoms::<S>(beta_crown::both(beta_crown::mark_of(eqns), names))),
{
    let all = beta_crown::both(beta_crown::mark_of(eqns), names);
    let ins = compute_graph::input_atoms::<S>(all);
    assert forall|i: int, l: int| 0 <= i < l < ins.len() implies (#[trigger] ins[i]).name != (
    #[trigger] ins[l]).name by {
        let (p, q) = (i / 2, l / 2);
        assert(has_slot(eqns, params, names[p], eqns.len() as int));
        assert(has_slot(eqns, params, names[q], eqns.len() as int));
        let j = choose|j: int| 0 <= j < eqns.len() && #[trigger] slot_of(eqns, params, names[p], j);
        let k = choose|k: int| 0 <= k < eqns.len() && #[trigger] slot_of(eqns, params, names[q], k);
        lemma_betas_apart(eqns, j, eqns[k].out.name);
        lemma_betas_apart(eqns, k, eqns[j].out.name);
        if i % 2 == 1 && l % 2 == 1 {
            assert(p < q);
            assert(names[p].0 != names[q].0);
            if ins[i].name == ins[l].name {
                lemma_beta_name(beta_crown::mark_of(eqns), names[p].0, names[q].0);
            }
        } else if i % 2 == 0 && l % 2 == 0 {
            assert(p < q);
            assert(names[p].0 != names[q].0);
        }
    }
}

// ---- parameters ----
/// Whether the slopes and multipliers of all rectifiers have their shapes.
pub open spec fn pair_fits<S>(eqns: Seq<EqnV<S>>, p: PairV<S>) -> bool {
    forall|j: int|
        0 <= j < eqns.len() && nn::is_activation(eqns[j].prim) ==> #[trigger] pair_fits_at(
            eqns,
            p,
            j,
        )
}

/// Whether the slopes and multipliers of equation `j` have its shape.
pub open spec fn pair_fits_at<S>(eqns: Seq<EqnV<S>>, p: PairV<S>, j: int) -> bool {
    let out = eqns[j].out;
    &&& p.alphas.dom().contains(out.name) ==> fills(p.alphas[out.name], out.shape)
    &&& p.betas.dom().contains(out.name) ==> fills(p.betas[out.name], out.shape)
}

/// Whether the signs of all rectifiers have their shapes.
pub open spec fn signs_fit<S>(eqns: Seq<EqnV<S>>, splits: Map<Seq<char>, TensorV<S>>) -> bool {
    forall|j: int|
        0 <= j < eqns.len() && splits.dom().contains((#[trigger] eqns[j]).out.name) ==> fills(
            splits[eqns[j].out.name],
            eqns[j].out.shape,
        )
}

/// What a name stands for among traced inputs.
pub proof fn lemma_traced_vars<S>(atoms: Seq<AtomV<S>>, k: nat, name: Seq<char>)
    requires
        k <= atoms.len(),
        compute_graph::traced_vars(atoms, k).dom().contains(name),
    ensures
        exists|i: int|
            0 <= i < k && (#[trigger] atoms[i]).name == name && compute_graph::traced_vars(
                atoms,
                k,
            )[name] == tracer::tracing(atoms[i]),
    decreases k,
{
    if k > 0 {
        if atoms[k - 1].name != name {
            lemma_traced_vars(atoms, (k - 1) as nat, name);
            let i = choose|i: int|
                0 <= i < k - 1 && (#[trigger] atoms[i]).name == name && compute_graph::traced_vars(
                    atoms,
                    (k - 1) as nat,
                )[name] == tracer::tracing(atoms[i]);
            assert(atoms[i].name == name);
        } else {
            assert(atoms[k - 1].name == name);
        }
    }
}

/// Traced slopes are the inputs of their names.
proof fn lemma_traced_alphas<S>(
    eqns: Seq<EqnV<S>>,
    vars: Map<Seq<char>, TracerV<S>>,
    k: nat,
    name: Seq<char>,
)
    requires
        k <= eqns.len(),
        beta_crown::traced_alphas(eqns, vars, k).dom().contains(name),
    ensures
        vars.dom().contains(name),
        beta_crown::traced_alphas(eqns, vars, k)[name] == vars[name],
    decreases k,
{
    if k > 0 {
        if eqns[k - 1].out.name != name || !vars.dom().contains(name) {
            lemma_traced_alphas(eqns, vars, (k - 1) as nat, name);
        }
    }
}

/// Traced multipliers are the inputs of their names.
proof fn lemma_traced_betas<S>(
    eqns: Seq<EqnV<S>>,
    vars: Map<Seq<char>, TracerV<S>>,
    k: nat,
    name: Seq<char>,
)
    requires
        k <= eqns.len(),
        beta_crown::traced_betas(beta_crown::mark_of(eqns), eqns, vars, k).dom().contains(name),
    ensures
        vars.dom().contains(beta_crown::beta_name(beta_crown::mark_of(eqns), name)),
        beta_crown::traced_betas(beta_crown::mark_of(eqns), eqns, vars, k)[name] == vars[beta_crown::beta_name(beta_crown::mark_of(eqns), name)],
    decreases k,
{
    if k > 0 {
        let own = eqns[k - 1].out.name;
        if own != name || !vars.dom().contains(beta_crown::beta_name(beta_crown::mark_of(eqns), own)) {
            lemma_traced_betas(eqns, vars, (k - 1) as nat, name);
        }
    }
}

/// The parameters of the loss that belong to a rectifier have its shape.
proof fn lemma_input_shapes<S: Scalar>(
    input: AtomV<S>,
    eqns: Seq<EqnV<S>>,
    params: Map<Seq<char>, TensorV<S>>,
    names: Seq<(Seq<char>, Seq<usize>)>,
    i: int,
    j: int,
)
    requires
        support::distinct(input.name, eqns),
        slots_ok(eqns, params, names, eqns.len() as int),
        forall|k: int|
            0 <= k < eqns.len() && nn::is_activation(eqns[k].prim) && params.dom().contains(
                (#[trigger] eqns[k]).out.name,
            ) ==> params[eqns[k].out.name].shape == eqns[k].out.shape,
        0 <= i < 2 * names.len(),
        0 <= j < eqns.len(),
        nn::is_activation(eqns[j].prim),
        beta_crown::both(beta_crown::mark_of(eqns), names)[i].0 == eqns[j].out.name || beta_crown::both(beta_crown::mark_of(eqns), names)[i].0
            == beta_crown::beta_name(beta_crown::mark_of(eqns), eqns[j].out.name),
    ensures
        beta_crown::both(beta_crown::mark_of(eqns), names)[i].1 == eqns[j].out.shape,
{
    let slot = names[i / 2];
    assert(has_slot(eqns, params, slot, eqns.len() as int));
    let k = choose|k: int| 0 <= k < eqns.len() && #[trigger] slot_of(eqns, params, slot, k);
    lemma_betas_apart(eqns, k, eqns[j].out.name);
    lemma_betas_apart(eqns, j, eqns[k].out.name);
    if i % 2 == 1 {
        lemma_beta_name(beta_crown::mark_of(eqns), slot.0, eqns[j].out.name);
    }
    assert(eqns[k].out.name == eqns[j].out.name);
    if j < k {
        assert(support::variable(input.name, eqns, j + 1) != support::variable(
            input.name,
            eqns,
            k + 1,
        ));
    } else if k < j {
        assert(support::variable(input.name, eqns, k + 1) != support::variable(
            input.name,
            eqns,
            j + 1,
        ));
    }
}

/// The loss is a traced computation on the slopes and multipliers.
proof fn lemma_split_loss<S: Scalar>(
    v: spec_fn(S) -> real,
    g: GraphV<S>,
    e: Map<Seq<char>, IBPV<S>>,
    p: PairV<S>,
    x: IBPV<S>,
    splits: Map<Seq<char>, TensorV<S>>,
    loss: GraphV<S>,
) -> (r: (BuilderV<S>, TracerV<S>))
    requires
        exact::exact(v),
        layered::layered(g),
        layered::spans_hold(e, g.invars[0], g.equations, g.equations.len() as int),
        pair_fits(g.equations, p),
        signs_fit(g.equations, splits),
        crown::bounds_of(e, g.invars[0]) == Ok::<IBPV<S>, Fault>(x),
        beta_crown::split_loss(
            g,
            e,
            alpha_crown::slots(g.equations, p.alphas, g.equations.len()),
            x,
            splits,
            StartV::Last,
        ) == Ok::<GraphV<S>, Fault>(loss),
    ensures
        loss == compute_graph::finished(r.0, r.1),
        shaping::all_plain(r.0),
        shaping::placed(r.0, r.1),
        r.0.invars == compute_graph::input_atoms::<S>(
            beta_crown::both(
                beta_crown::mark_of(g.equations),
                alpha_crown::slots(g.equations, p.alphas, g.equations.len()),
            ),
        ),
        loss_shapes::named_apart(r.0.invars),
        slots_ok(
            g.equations,
            p.alphas,
            alpha_crown::slots(g.equations, p.alphas, g.equations.len()),
            g.equations.len() as int,
        ),
{
    let (input, eqns) = (g.invars[0], g.equations);
    let n = eqns.len();
    let names = alpha_crown::slots(eqns, p.alphas, n);
    let inputs = beta_crown::both(beta_crown::mark_of(eqns), names);
    let atoms = compute_graph::input_atoms::<S>(inputs);
    let vars = compute_graph::traced_vars(atoms, inputs.len());
    let start = compute_graph::fresh::<S>(inputs);
    lemma_slots(input, eqns, p.alphas, n);
    lemma_inputs_apart(eqns, p.alphas, names);
    assert forall|k: int|
        0 <= k < eqns.len() && nn::is_activation(eqns[k].prim) && p.alphas.dom().contains(
            (#[trigger] eqns[k]).out.name,
        ) implies p.alphas[eqns[k].out.name].shape == eqns[k].out.shape by {
        assert(pair_fits_at(eqns, p, k));
    }
    assert forall|i: int| 0 <= i < start.invars.len() implies (#[trigger] start.invars[i]).value
        is None && support::dense(start.invars[i].shape) by {
        let slot = names[i / 2];
        assert(has_slot(eqns, p.alphas, slot, eqns.len() as int));
        let k = choose|k: int| 0 <= k < eqns.len() && #[trigger] slot_of(eqns, p.alphas, slot, k);
        assert(pair_fits_at(eqns, p, k));
    }
    assert(shaping::all_plain(start));
    let (alphas, betas) = (
        beta_crown::traced_alphas(eqns, vars, n),
        beta_crown::traced_betas(beta_crown::mark_of(eqns), eqns, vars, n),
    );
    let biases = beta_crown::all_fed_by(eqns, e, n)->Ok_0;
    let params = ParamsV { alphas, splitting: Some(SplittingV { betas, splits, biases }) };
    assert forall|j: int|
        0 <= j < eqns.len() && layer_walk::is_rectifier(eqns[j].prim) implies #[trigger]
        layer_walk::param_ok::<S, Tracer<S>>(start, eqns[j], params) by {
        let name = eqns[j].out.name;
        if alphas.dom().contains(name) {
            lemma_traced_alphas(eqns, vars, n, name);
            lemma_traced_vars(atoms, inputs.len(), name);
            let i = choose|i: int|
                0 <= i < inputs.len() && (#[trigger] atoms[i]).name == name && vars[name]
                    == tracer::tracing(atoms[i]);
            lemma_input_shapes(input, eqns, p.alphas, names, i, j);
            assert(start.invars[i] == alphas[name].atom);
        }
        if betas.dom().contains(name) {
            let beta = beta_crown::beta_name(beta_crown::mark_of(eqns), name);
            lemma_traced_betas(eqns, vars, n, name);
            lemma_traced_vars(atoms, inputs.len(), beta);
            let i = choose|i: int|
                0 <= i < inputs.len() && (#[trigger] atoms[i]).name == beta && vars[beta]
                    == tracer::tracing(atoms[i]);
            lemma_input_shapes(input, eqns, p.alphas, names, i, j);
            assert(start.invars[i] == betas[name].atom);
        }
    }
    layer_walk::lemma_lower_bound_ok::<S, Tracer<S>>(v, start, g, e, params, StartV::Last);
    let (b, r) = beta_crown::split_bound::<S, Tracer<S>>(
        start,
        g,
        e,
        alphas,
        betas,
        splits,
        StartV::Last,
    );
    let a = (r->Ok_0).0;
    assert(layered::spans(x, input.shape)) by {
        assert(support::variable(input.name, eqns, 0) == input.name);
    }
    let (lb, ub) = (tracer::constant_tracer(x.lb), tracer::constant_tracer(x.ub));
    <Tracer<S> as Shaped<S>>::law_constant(b, x.lb);
    <Tracer<S> as Shaped<S>>::law_constant(b, x.ub);
    layer_walk::lemma_concretized_ok::<S, Tracer<S>>(b, a, lb, ub, input.shape);
    let (d, t) = affine::concretized::<S, Tracer<S>>(b, a, lb, ub);
    (d, t->Ok_0)
}

// ---- ascent ----
/// A parameter after a step of ascent has its shape.
pub proof fn lemma_nudged<S: Scalar>(p: TensorV<S>, g: TensorV<S>, s: Seq<usize>)
    requires
        fills(p, s),
        fills(g, s),
    ensures
        alpha_crown::next_alpha(p, g) matches Ok(t) ==> fills(t, s),
        beta_crown::next_beta(p, g) matches Ok(t) ==> fills(t, s),
{
    let m = model::mapped(g, |x: S| x.times(S::ratio(1, 100)));
    pairing::lemma_same_shape(s);
    Tensor::<S>::law_binary((), BinOpV::Add, p, m);
}

/// Whether every slot of a list belongs to a rectifier of its shape.
pub open spec fn slots_shaped<S>(
    eqns: Seq<EqnV<S>>,
    names: Seq<(Seq<char>, Seq<usize>)>,
) -> bool {
    forall|i: int| 0 <= i < names.len() ==> has_shape(eqns, #[trigger] names[i])
}

/// Whether a slot belongs to an equation, with its shape.
pub open spec fn has_shape<S>(eqns: Seq<EqnV<S>>, slot: (Seq<char>, Seq<usize>)) -> bool {
    exists|j: int| 0 <= j < eqns.len() && #[trigger] slot_shaped(eqns, slot, j)
}

/// Whether a slot belongs to equation `j`, with its shape.
pub open spec fn slot_shaped<S>(
    eqns: Seq<EqnV<S>>,
    slot: (Seq<char>, Seq<usize>),
    j: int,
) -> bool {
    &&& eqns[j].out.name == slot.0
    &&& eqns[j].out.shape == slot.1
    &&& nn::is_activation(eqns[j].prim)
}

/// The first `k` slots after a step of ascent.
proof fn lemma_ascended<S: Scalar>(
    input: AtomV<S>,
    eqns: Seq<EqnV<S>>,
    names: Seq<(Seq<char>, Seq<usize>)>,
    grads: Seq<TensorV<S>>,
    p: PairV<S>,
    k: nat,
)
    requires
        support::distinct(input.name, eqns),
        slots_shaped(eqns, names),
        k <= names.len(),
        grads.len() == 2 * names.len(),
        forall|i: int|
            0 <= i < grads.len() ==> fills(#[trigger] grads[i], beta_crown::both(beta_crown::mark_of(eqns), names)[i].1),
        pair_fits(eqns, p),
    ensures
        beta_crown::pair_ascended(names, grads, p, k) matches Ok(q) ==> pair_fits(eqns, q),
    decreases k,
{
    if k > 0 {
        lemma_ascended(input, eqns, names, grads, p, (k - 1) as nat);
        if let Ok(q) = beta_crown::pair_ascended(names, grads, p, (k - 1) as nat) {
            let (name, s) = names[k - 1];
            assert(has_shape(eqns, names[k - 1]));
            let j = choose|j: int|
                0 <= j < eqns.len() && #[trigger] slot_shaped(eqns, names[k - 1], j);
            assert(pair_fits_at(eqns, q, j));
            assert(fills(grads[2 * (k - 1)], beta_crown::both(beta_crown::mark_of(eqns), names)[2 * (k - 1)].1));
            assert(fills(grads[2 * (k - 1) + 1], beta_crown::both(beta_crown::mark_of(eqns), names)[2 * (k - 1) + 1].1));
            if q.alphas.dom().contains(name) && q.betas.dom().contains(name) {
                lemma_nudged(q.alphas[name], grads[2 * (k - 1)], s);
                lemma_nudged(q.betas[name], grads[2 * (k - 1) + 1], s);
                if let Ok(r) = beta_crown::pair_ascended(names, grads, p, k) {
                    assert forall|i: int|
                        0 <= i < eqns.len() && nn::is_activation(eqns[i].prim) implies #[trigger]
                        pair_fits_at(eqns, r, i) by {
                        assert(pair_fits_at(eqns, q, i));
                        if eqns[i].out.name == name {
                            if i < j {
                                assert(support::variable(input.name, eqns, i + 1)
                                    != support::variable(input.name, eqns, j + 1));
                            } else if j < i {
                                assert(support::variable(input.name, eqns, j + 1)
                                    != support::variable(input.name, eqns, i + 1));
                            }
                        }
                    }
                }
            }
        }
    }
}

/// The inputs of the loss.
proof fn lemma_paired<S: Scalar>(
    eqns: Seq<EqnV<S>>,
    names: Seq<(Seq<char>, Seq<usize>)>,
    p: PairV<S>,
    k: nat,
)
    requires
        slots_shaped(eqns, names),
        k <= names.len(),
        pair_fits(eqns, p),
    ensures
        beta_crown::paired(names, p, k) matches Ok(ins) ==> ins.len() == 2 * k && forall|i: int|
            0 <= i < 2 * k ==> fills(#[trigger] ins[i], beta_crown::both(beta_crown::mark_of(eqns), names)[i].1),
    decreases k,
{
    if k > 0 {
        lemma_paired(eqns, names, p, (k - 1) as nat);
        assert(has_shape(eqns, names[k - 1]));
        let j = choose|j: int| 0 <= j < eqns.len() && #[trigger] slot_shaped(eqns, names[k - 1], j);
        assert(pair_fits_at(eqns, p, j));
    }
}

/// Steps of ascent keep the shapes.
proof fn lemma_climbed<S: Scalar>(
    input: AtomV<S>,
    eqns: Seq<EqnV<S>>,
    b: BuilderV<S>,
    t: TracerV<S>,
    names: Seq<(Seq<char>, Seq<usize>)>,
    p: PairV<S>,
    n: nat,
)
    requires
        support::distinct(input.name, eqns),
        slots_shaped(eqns, names),
        shaping::all_plain(b),
        shaping::placed(b, t),
        loss_shapes::named_apart(b.invars),
        b.invars == compute_graph::input_atoms::<S>(beta_crown::both(beta_crown::mark_of(eqns), names)),
        pair_fits(eqns, p),
    ensures
        beta_crown::pair_climbed_often(
            compute_graph::finished(b, t),
            names,
            p,
            n,
        ) matches Ok(q) ==> pair_fits(eqns, q),
    decreases n,
{
    let loss = compute_graph::finished(b, t);
    if n > 0 {
        reveal(beta_crown::pair_climbed);
        lemma_paired(eqns, names, p, names.len());
        if let Ok(inputs) = beta_crown::paired(names, p, names.len()) {
            assert forall|i: int| 0 <= i < inputs.len() implies fills(
                #[trigger] inputs[i],
                b.invars[i].shape,
            ) by {}
            loss_shapes::lemma_loss_gradients(b, t, inputs);
            if let Ok(grads) = grad::loss_gradients(loss, inputs, None) {
                assert forall|i: int| 0 <= i < grads.len() implies fills(
                    #[trigger] grads[i],
                    beta_crown::both(beta_crown::mark_of(eqns), names)[i].1,
                ) by {
                    assert(fills(grads[i], b.invars[i].shape));
                }
                lemma_ascended(input, eqns, names, grads, p, names.len());
            }
        }
        if let Ok(q) = beta_crown::pair_climbed(loss, names, p) {
            lemma_climbed(input, eqns, b, t, names, q, (n - 1) as nat);
        }
    }
}

/// The slots of parameters that have their shapes.
pub proof fn lemma_slots_shaped<S: Scalar>(
    eqns: Seq<EqnV<S>>,
    p: PairV<S>,
    names: Seq<(Seq<char>, Seq<usize>)>,
)
    requires
        pair_fits(eqns, p),
        slots_ok(eqns, p.alphas, names, eqns.len() as int),
    ensures
        slots_shaped(eqns, names),
{
    assert forall|i: int| 0 <= i < names.len() implies has_shape(eqns, #[trigger] names[i]) by {
        assert(has_slot(eqns, p.alphas, names[i], eqns.len() as int));
        let j = choose|j: int|
            0 <= j < eqns.len() && #[trigger] slot_of(eqns, p.alphas, names[i], j);
        assert(pair_fits_at(eqns, p, j));
        assert(slot_shaped(eqns, names[i], j));
    }
}

/// The slopes and multipliers of a network of layers keep their shapes when its bound is
/// optimized.
pub proof fn lemma_best_pair_fits<S: Scalar>(
    v: spec_fn(S) -> real,
    g: GraphV<S>,
    e: Map<Seq<char>, IBPV<S>>,
    splits: Map<Seq<char>, TensorV<S>>,
    p: PairV<S>,
)
    requires
        exact::exact(v),
        layered::layered(g),
        layered::spans_hold(e, g.invars[0], g.equations, g.equations.len() as int),
        pair_fits(g.equations, p),
        signs_fit(g.equations, splits),
    ensures
        beta_crown::best_pair(g, e, splits, p, StartV::Last) matches Ok(q) ==> pair_fits(
            g.equations,
            q,
        ),
{
    let (input, eqns) = (g.invars[0], g.equations);
    if p.alphas != Map::<Seq<char>, TensorV<S>>::empty() {
        if let Ok(x) = crown::bounds_of(e, input) {
            let names = alpha_crown::slots(eqns, p.alphas, eqns.len());
            if let Ok(loss) = beta_crown::split_loss(g, e, names, x, splits, StartV::Last) {
                let (b, t) = lemma_split_loss(v, g, e, p, x, splits, loss);
                lemma_slots_shaped(eqns, p, names);
                lemma_climbed(input, eqns, b, t, names, p, alpha_crown::ITERS as nat);
            }
        }
    }
}

} // verus!
