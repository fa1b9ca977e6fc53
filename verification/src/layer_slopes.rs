//! Bounds with optimized slopes on networks of layers.

use vstd::prelude::*;
use crate::affine;
use crate::affine::AffineV;
use crate::alpha_crown;
use crate::beta_crown::PairV;
use crate::compute_graph;
use crate::containment;
use crate::crown;
use crate::crown::{ParamsV, StartV};
use crate::eval;
use crate::exact;
use crate::grad;
use crate::interval::{IBPTensor, IBPV};
use crate::layer_params;
use crate::layer_verdicts;
use crate::layer_walk;
use crate::layer_walk::fills;
use crate::layered;
use crate::loss_shapes;
use crate::model::{Fault, TensorV};
use crate::nn;
use crate::nn::{AtomV, EqnV, GraphV};
use crate::node_verdicts;
use crate::pairing;
use crate::scalar::Scalar;
use crate::shape;
use crate::shaping;
use crate::shaping::Shaped;
use crate::slope_bounds;
use crate::soundness;
use crate::support;
use crate::tensor::Tensor;
use crate::tracer;
use crate::tracer::{BuilderV, Tracer, TracerV};

verus! {

/// Slopes without multipliers.
pub open spec fn alone<S>(p: Map<Seq<char>, TensorV<S>>) -> PairV<S> {
    PairV { alphas: p, betas: Map::empty() }
}

/// The inputs of the loss have names of their own.
proof fn lemma_slopes_apart<S: Scalar>(
    eqns: Seq<EqnV<S>>,
    params: Map<Seq<char>, TensorV<S>>,
    names: Seq<(Seq<char>, Seq<usize>)>,
)
    requires
        layer_params::slots_ok(eqns, params, names, eqns.len() as int),
    ensures
        loss_shapes::named_apart(compute_graph::input_atoms::<S>(names)),
{
    let ins = compute_graph::input_atoms::<S>(names);
    assert forall|i: int, l: int| 0 <= i < l < ins.len() implies (#[trigger] ins[i]).name != (
    #[trigger] ins[l]).name by {
        assert(names[i].0 != names[l].0);
    }
}

/// The loss is a traced computation on the slopes.
pub proof fn lemma_slope_loss<S: Scalar>(
    v: spec_fn(S) -> real,
    g: GraphV<S>,
    e: Map<Seq<char>, IBPV<S>>,
    p: Map<Seq<char>, TensorV<S>>,
    x: IBPV<S>,
    start: StartV,
    loss: GraphV<S>,
) -> (r: (BuilderV<S>, TracerV<S>))
    requires
        exact::exact(v),
        layered::layered(g),
        layered::spans_hold(e, g.invars[0], g.equations, g.equations.len() - 1),
        layer_params::pair_fits(g.equations, alone(p)),
        start is Last || start is Output,
        crown::bounds_of(e, g.invars[0]) == Ok::<IBPV<S>, Fault>(x),
        alpha_crown::slope_loss(
            g,
            e,
            alpha_crown::slots(g.equations, p, g.equations.len()),
            x,
            start,
        ) == Ok::<GraphV<S>, Fault>(loss),
    ensures
        loss == compute_graph::finished(r.0, r.1),
        shaping::all_plain(r.0),
        shaping::placed(r.0, r.1),
        r.0.invars == compute_graph::input_atoms::<S>(
            alpha_crown::slots(g.equations, p, g.equations.len()),
        ),
        loss_shapes::named_apart(r.0.invars),
        layer_params::slots_ok(
            g.equations,
            p,
            alpha_crown::slots(g.equations, p, g.equations.len()),
            g.equations.len() as int,
        ),
{
    let (input, eqns) = (g.invars[0], g.equations);
    let n = eqns.len();
    let names = alpha_crown::slots(eqns, p, n);
    let atoms = compute_graph::input_atoms::<S>(names);
    let vars = compute_graph::traced_vars(atoms, names.len());
    let b0 = compute_graph::fresh::<S>(names);
    layer_params::lemma_slots(input, eqns, p, n);
    lemma_slopes_apart(eqns, p, names);
    assert forall|i: int| 0 <= i < b0.invars.len() implies (#[trigger] b0.invars[i]).value is None
        && support::dense(b0.invars[i].shape) by {
        assert(layer_params::has_slot(eqns, p, names[i], n as int));
        let k = choose|k: int|
            0 <= k < eqns.len() && #[trigger] layer_params::slot_of(eqns, p, names[i], k);
        assert(layer_params::pair_fits_at(eqns, alone(p), k));
    }
    assert(shaping::all_plain(b0));
    let params = ParamsV { alphas: vars, splitting: None };
    assert forall|j: int|
        0 <= j < eqns.len() && layer_walk::is_rectifier(eqns[j].prim) implies #[trigger]
        layer_walk::param_ok::<S, Tracer<S>>(b0, eqns[j], params) by {
        let name = eqns[j].out.name;
        if vars.dom().contains(name) {
            layer_params::lemma_traced_vars(atoms, names.len(), name);
            let i = choose|i: int|
                0 <= i < names.len() && (#[trigger] atoms[i]).name == name && vars[name]
                    == tracer::tracing(atoms[i]);
            assert(layer_params::has_slot(eqns, p, names[i], n as int));
            let k = choose|k: int|
                0 <= k < eqns.len() && #[trigger] layer_params::slot_of(eqns, p, names[i], k);
            layer_verdicts::lemma_names(g, j, k);
            assert(layer_params::pair_fits_at(eqns, alone(p), j));
            assert(b0.invars[i] == vars[name].atom);
        }
    }
    layer_walk::lemma_lower_bound_ok::<S, Tracer<S>>(v, b0, g, e, params, start);
    let (b, r) = crown::lower_bound::<S, Tracer<S>>(b0, g, e, params, start);
    let a = (r->Ok_0).0;
    assert(layered::spans(x, input.shape)) by {
        assert(support::variable(input.name, eqns, 0) == input.name);
    }
    let (lb, ub) = (tracer::constant_tracer(x.lb), tracer::constant_tracer(x.ub));
    <Tracer<S> as Shaped<S>>::law_constant(b, x.lb);
    <Tracer<S> as Shaped<S>>::law_constant(b, x.ub);
    layer_walk::lemma_concretized_ok::<S, Tracer<S>>(b, a, lb, ub, input.shape);
    let (d, t) = affine::concretized::<S, Tracer<S>>(b, a, lb, ub);
    (d, t->Ok_0)
}

/// The first `k` slopes after a step of ascent.
proof fn lemma_ascended<S: Scalar>(
    g: GraphV<S>,
    names: Seq<(Seq<char>, Seq<usize>)>,
    grads: Seq<TensorV<S>>,
    p: Map<Seq<char>, TensorV<S>>,
    k: nat,
)
    requires
        layered::layered(g),
        layer_params::slots_shaped(g.equations, names),
        k <= names.len(),
        grads.len() == names.len(),
        forall|i: int| 0 <= i < grads.len() ==> fills(#[trigger] grads[i], names[i].1),
        layer_params::pair_fits(g.equations, alone(p)),
    ensures
        alpha_crown::ascended(names, grads, p, k) matches Ok(q) ==> layer_params::pair_fits(
            g.equations,
            alone(q),
        ),
    decreases k,
{
    let eqns = g.equations;
    if k > 0 {
        lemma_ascended(g, names, grads, p, (k - 1) as nat);
        if let Ok(q) = alpha_crown::ascended(names, grads, p, (k - 1) as nat) {
            let (name, s) = names[k - 1];
            assert(layer_params::has_shape(eqns, names[k - 1]));
            let j = choose|j: int|
                0 <= j < eqns.len() && #[trigger] layer_params::slot_shaped(eqns, names[k - 1], j);
            assert(layer_params::pair_fits_at(eqns, alone(q), j));
            assert(fills(grads[k - 1], names[k - 1].1));
            if q.dom().contains(name) {
                layer_params::lemma_nudged(q[name], grads[k - 1], s);
                if let Ok(r) = alpha_crown::ascended(names, grads, p, k) {
                    assert forall|i: int|
                        0 <= i < eqns.len() && nn::is_activation(eqns[i].prim) implies #[trigger]
                        layer_params::pair_fits_at(eqns, alone(r), i) by {
                        assert(layer_params::pair_fits_at(eqns, alone(q), i));
                        if eqns[i].out.name == name {
                            layer_verdicts::lemma_names(g, i, j);
                        }
                    }
                }
            }
        }
    }
}

/// The inputs of the loss.
proof fn lemma_looked_up<S: Scalar>(
    eqns: Seq<EqnV<S>>,
    names: Seq<(Seq<char>, Seq<usize>)>,
    p: Map<Seq<char>, TensorV<S>>,
    k: nat,
)
    requires
        layer_params::slots_shaped(eqns, names),
        k <= names.len(),
        layer_params::pair_fits(eqns, alone(p)),
    ensures
        alpha_crown::looked_up(names, p, k) matches Ok(ins) ==> ins.len() == k && forall|i: int|
            0 <= i < k ==> fills(#[trigger] ins[i], names[i].1),
    decreases k,
{
    if k > 0 {
        lemma_looked_up(eqns, names, p, (k - 1) as nat);
        assert(layer_params::has_shape(eqns, names[k - 1]));
        let j = choose|j: int|
            0 <= j < eqns.len() && #[trigger] layer_params::slot_shaped(eqns, names[k - 1], j);
        assert(layer_params::pair_fits_at(eqns, alone(p), j));
    }
}

/// Steps of ascent keep the shapes.
proof fn lemma_climbed<S: Scalar>(
    g: GraphV<S>,
    b: BuilderV<S>,
    t: TracerV<S>,
    names: Seq<(Seq<char>, Seq<usize>)>,
    p: Map<Seq<char>, TensorV<S>>,
    n: nat,
)
    requires
        layered::layered(g),
        layer_params::slots_shaped(g.equations, names),
        shaping::all_plain(b),
        shaping::placed(b, t),
        loss_shapes::named_apart(b.invars),
        b.invars == compute_graph::input_atoms::<S>(names),
        layer_params::pair_fits(g.equations, alone(p)),
    ensures
        alpha_crown::climbed_often(compute_graph::finished(b, t), names, p, n) matches Ok(q)
            ==> layer_params::pair_fits(g.equations, alone(q)),
    decreases n,
{
    let loss = compute_graph::finished(b, t);
    if n > 0 {
        reveal(alpha_crown::climbed);
        lemma_looked_up(g.equations, names, p, names.len());
        if let Ok(inputs) = alpha_crown::looked_up(names, p, names.len()) {
            assert forall|i: int| 0 <= i < inputs.len() implies fills(
                #[trigger] inputs[i],
                b.invars[i].shape,
            ) by {}
            loss_shapes::lemma_loss_gradients(b, t, inputs);
            if let Ok(grads) = grad::loss_gradients(loss, inputs, None) {
                assert forall|i: int| 0 <= i < grads.len() implies fills(
                    #[trigger] grads[i],
                    names[i].1,
                ) by {
                    assert(fills(grads[i], b.invars[i].shape));
                }
                lemma_ascended(g, names, grads, p, names.len());
            }
        }
        if let Ok(q) = alpha_crown::climbed(loss, names, p) {
            lemma_climbed(g, b, t, names, q, (n - 1) as nat);
        }
    }
}

/// The slopes of a network of layers keep their shapes when its bound is optimized.
pub proof fn lemma_best_slopes_fit<S: Scalar>(
    v: spec_fn(S) -> real,
    g: GraphV<S>,
    e: Map<Seq<char>, IBPV<S>>,
    p: Map<Seq<char>, TensorV<S>>,
    start: StartV,
)
    requires
        exact::exact(v),
        layered::layered(g),
        layered::spans_hold(e, g.invars[0], g.equations, g.equations.len() - 1),
        layer_params::pair_fits(g.equations, alone(p)),
        start is Last || start is Output,
    ensures
        alpha_crown::best_slopes(g, e, p, start) matches Ok(q) ==> layer_params::pair_fits(
            g.equations,
            alone(q),
        ),
        slope_bounds::ascent_fits(g, e, p, start),
{
    let (input, eqns) = (g.invars[0], g.equations);
    if p != Map::<Seq<char>, TensorV<S>>::empty() {
        if let Ok(x) = crown::bounds_of(e, input) {
            let names = alpha_crown::slots(eqns, p, eqns.len());
            if let Ok(loss) = alpha_crown::slope_loss(g, e, names, x, start) {
                let (b, t) = lemma_slope_loss(v, g, e, p, x, start, loss);
                layer_params::lemma_slots_shaped(eqns, alone(p), names);
                lemma_climbed(g, b, t, names, p, alpha_crown::ITERS as nat);
            }
        }
    }
    if let Ok(q) = alpha_crown::best_slopes(g, e, p, start) {
        assert forall|j: int| 0 <= j < eqns.len() implies #[trigger] slope_bounds::slope_fits(
            e,
            eqns,
            q,
            j,
        ) by {
            if nn::is_activation(eqns[j].prim) {
                let a = layer_verdicts::lemma_activation(g, j);
                assert(layered::layer_eqn(input, eqns, j));
                assert(nn::operands_of(eqns[j].prim)[0] == a);
                assert(layered::spans_hold(e, input, eqns, j));
                layered::lemma_operand_span(e, input, eqns, a, j);
                assert(layer_params::pair_fits_at(eqns, alone(q), j));
            }
        }
    }
}

/// The bounds and slopes that the optimization starts from.
pub proof fn lemma_prepared<S: Scalar>(
    v: spec_fn(S) -> real,
    g: GraphV<S>,
    e: Map<Seq<char>, IBPV<S>>,
    p: Map<Seq<char>, TensorV<S>>,
    i: nat,
)
    requires
        exact::exact(v),
        layered::layered(g),
        i <= g.equations.len(),
        layered::spans_hold(e, g.invars[0], g.equations, i as int),
        layer_params::pair_fits(g.equations, alone(p)),
    ensures
        alpha_crown::prepared(g.equations, e, p, i) matches Ok((b, q)) ==> {
            &&& eval::forward::<S, IBPTensor<S>>((), g.equations, e, i).1 == Ok::<
                Map<Seq<char>, IBPV<S>>,
                Fault,
            >(b)
            &&& layer_params::pair_fits(g.equations, alone(q))
        },
    decreases g.equations.len() - i,
{
    let (input, eqns) = (g.invars[0], g.equations);
    if i < eqns.len() {
        let j = i as int;
        let name = eqns[j].out.name;
        assert(layered::layer_eqn(input, eqns, j));
        layered::lemma_layer_span(v, e, input, eqns, j);
        let y = eval::prim_value::<S, IBPTensor<S>>((), e, eqns[j].prim).1->Ok_0;
        let next = e.insert(name, y);
        layered::lemma_one_more_span(e, input, eqns, j, y);
        if nn::is_activation(eqns[j].prim) {
            let a = layer_verdicts::lemma_activation(g, j);
            assert(nn::operands_of(eqns[j].prim)[0] == a);
            assert(layered::spans_hold(next, input, eqns, j));
            layered::lemma_operand_span(next, input, eqns, a, j);
            let x = crown::bounds_of(next, a)->Ok_0;
            let q = p.insert(name, alpha_crown::first_slopes(x));
            assert forall|k: int|
                0 <= k < eqns.len() && nn::is_activation(eqns[k].prim) implies #[trigger]
                layer_params::pair_fits_at(eqns, alone(q), k) by {
                assert(layer_params::pair_fits_at(eqns, alone(p), k));
                if eqns[k].out.name == name {
                    layer_verdicts::lemma_names(g, k, j);
                }
            }
            lemma_prepared(v, g, next, q, i + 1);
        } else {
            lemma_prepared(v, g, next, p, i + 1);
        }
    }
}

/// The negative of a network of layers is one.
proof fn lemma_negated_layers<S: Scalar>(g: GraphV<S>, e: Map<Seq<char>, IBPV<S>>, n: GraphV<S>)
    requires
        layered::layered(g),
        layered::spans_hold(e, g.invars[0], g.equations, g.equations.len() as int),
        alpha_crown::negated(g) == Ok::<GraphV<S>, Fault>(n),
    ensures
        layered::layered(n),
        layered::spans_hold(e, n.invars[0], n.equations, n.equations.len() - 1),
        n.invars == g.invars,
        n.equations == g.equations.push(slope_bounds::negation(g)),
{
    let (input, eqns) = (g.invars[0], g.equations);
    let m = eqns.len() as int;
    assert(layered::layer_eqn(input, eqns, m - 1));
    slope_bounds::lemma_negated(g);
    let all = n.equations;
    slope_bounds::lemma_reopened_fresh(g, tracer::reopened(g).next);
    assert forall|i: int| 0 <= i <= m implies #[trigger] support::variable(input.name, all, i)
        == support::variable(input.name, eqns, i) by {
        if i > 0 {
            assert(all[i - 1] == eqns[i - 1]);
        }
    }
    assert(support::distinct(input.name, all)) by {
        assert forall|i: int, j: int| 0 <= i < j <= all.len() implies #[trigger] support::variable(
            input.name,
            all,
            i,
        ) != #[trigger] support::variable(input.name, all, j) by {
            if j <= m {
                assert(support::variable(input.name, eqns, i) != support::variable(
                    input.name,
                    eqns,
                    j,
                ));
            } else if i > 0 {
                assert(eqns[i - 1].out.name == support::variable(input.name, eqns, i));
            } else {
                assert(g.invars[0].name == input.name);
            }
        }
    }
    assert forall|a: AtomV<S>, j: int|
        0 <= j <= m && #[trigger] layered::declared(input, eqns, a, j) implies layered::declared(
        input,
        all,
        a,
        j,
    ) by {
        if a.value is None {
            let i = choose|i: int|
                0 <= i <= j && #[trigger] support::variable(input.name, eqns, i) == a.name
                    && layered::shape_at(input, eqns, i) == a.shape;
            assert(support::variable(input.name, all, i) == a.name);
        }
    }
    assert forall|j: int| 0 <= j < all.len() implies #[trigger] layered::layer_eqn(input, all, j) by {
        if j < m {
            assert(layered::layer_eqn(input, eqns, j));
            assert(all[j] == eqns[j]);
            let p = eqns[j].prim;
            assert forall|i: int| 0 <= i < nn::operands_of(p).len() implies layered::well_shaped(
                #[trigger] nn::operands_of(p)[i],
            ) && layered::declared(input, all, nn::operands_of(p)[i], j) by {
                assert(layered::declared(input, eqns, nn::operands_of(p)[i], j));
            }
        } else {
            assert(support::variable(input.name, all, m) == g.outvars[0].name);
            assert(layered::declared(input, all, g.outvars[0], m));
        }
    }
    assert forall|i: int|
        #![trigger support::variable(input.name, all, i)]
        0 <= i <= m implies {
        let name = support::variable(input.name, all, i);
        e.dom().contains(name) && layered::spans(e[name], layered::shape_at(input, all, i))
    } by {
        assert(support::variable(input.name, eqns, i) == support::variable(input.name, all, i));
    }
}

/// Bounds with optimized slopes are sound on every network of layers: on every input of a box, the
/// sum of the elements of the output lies between the two affine functions.
pub proof fn lemma_alpha_layers_sound<S: Scalar>(
    v: spec_fn(S) -> real,
    g: GraphV<S>,
    region: IBPV<S>,
    start: StartV,
    low: AffineV<TensorV<S>>,
    high: AffineV<TensorV<S>>,
    x: TensorV<S>,
)
    requires
        exact::exact(v),
        layered::layered(g),
        region.lb.shape == g.invars[0].shape,
        containment::inside(v, x, region),
        start is Last || start is Output,
        alpha_crown::alpha_bounds(g, seq![region], start) == Ok::<
            (AffineV<TensorV<S>>, AffineV<TensorV<S>>),
            Fault,
        >((low, high)),
    ensures
        pairing::pairing(v, low.weights, x) + v(low.biases.data[0]) <= support::total(
            v,
            layer_verdicts::output(g, x),
        ) <= pairing::pairing(v, high.weights, x) + v(high.biases.data[0]),
{
    let (input, eqns) = (g.invars[0], g.equations);
    let given = node_verdicts::given(g, region);
    reveal_with_fuel(eval::bound, 2);
    assert(eval::bound(g.invars, seq![region], 1) == given);
    let none = Map::<Seq<char>, TensorV<S>>::empty();
    let (b, p) = alpha_crown::prepared(eqns, given, none, 0)->Ok_0;
    assert(layered::spans_hold(given, input, eqns, 0)) by {
        assert(support::variable(input.name, eqns, 0) == input.name);
    }
    assert(layer_params::pair_fits(eqns, alone(none))) by {
        assert forall|j: int| 0 <= j < eqns.len() && nn::is_activation(eqns[j].prim) implies #[trigger]
            layer_params::pair_fits_at(eqns, alone(none), j) by {}
    }
    lemma_prepared(v, g, given, none, 0);
    layered::lemma_layers_bound(v, g, region);
    layered::lemma_layered(g);
    layered::lemma_layers_run(g, x);
    let f = eval::environment::<S, Tensor<S>>((), g, seq![x]).1->Ok_0;
    let own = Map::<Seq<char>, TensorV<S>>::empty().insert(input.name, x);
    assert(eval::bound(g.invars, seq![x], 1) == own);
    assert(containment::all_inside(v, own, given)) by {
        assert(own.dom() =~= given.dom());
    }
    containment::lemma_forward_inside(v, eqns, own, given, 0);
    soundness::lemma_operands_inside(v, f, b, input, eqns);
    assert forall|j: int| 0 <= j < eqns.len() implies node_verdicts::eqn_suits(
        v,
        b,
        #[trigger] eqns[j],
    ) by {
        assert(layered::layer_eqn(input, eqns, j));
    }
    assert(soundness::operand_inside(v, f, b, g.outvars[0])) by {
        assert(layered::layer_eqn(input, eqns, eqns.len() - 1));
        assert(support::variable(input.name, eqns, eqns.len() as int) == g.outvars[0].name);
    }
    lemma_best_slopes_fit(v, g, b, p, start);
    if let Ok(n) = alpha_crown::negated(g) {
        lemma_negated_layers(g, b, n);
        assert(layer_params::pair_fits(n.equations, alone(p))) by {
            assert forall|j: int|
                0 <= j < n.equations.len() && nn::is_activation(n.equations[j].prim) implies #[trigger]
                layer_params::pair_fits_at(n.equations, alone(p), j) by {
                assert(n.equations[j] == eqns[j]);
                assert(layer_params::pair_fits_at(eqns, alone(p), j));
            }
        }
        lemma_best_slopes_fit(v, n, b, p, start);
    }
    slope_bounds::lemma_alpha_bounds_sound(v, g, region, b, p, start, low, high, x, f);
}

} // verus!
