//! Verdicts of branch and bound on networks of layers.

use vstd::prelude::*;
use crate::bab;
use crate::bab::{BaBConfig, VerdictV};
use crate::beta_crown;
use crate::beta_crown::PairV;
use crate::containment;
use crate::crown;
use crate::crown::{ParamsV, SplittingV, StartV};
use crate::eval;
use crate::exact;
use crate::input_splitting;
use crate::input_splitting::{InputSplit, UniformSplit};
use crate::input_verdicts;
use crate::interval::{IBPTensor, IBPV};
use crate::layer_params;
use crate::layer_walk;
use crate::layer_walk::fills;
use crate::layered;
use crate::model::{Fault, TensorV, UnOpV};
use crate::nn;
use crate::nn::{AtomV, GraphV, PrimV};
use crate::node_splitting;
use crate::node_splitting::{NodeSplit, NodeV, SmartSplit};
use crate::node_verdicts;
use crate::phases;
use crate::reals;
use crate::scalar;
use crate::scalar::Scalar;
use crate::shape;
use crate::support;
use crate::tensor::Tensor;

verus! {

// ---- shapes ----
/// The bounds of the operand of a rectifier have its shape.
proof fn lemma_rectified<S: Scalar>(
    v: spec_fn(S) -> real,
    g: GraphV<S>,
    e: Map<Seq<char>, IBPV<S>>,
    j: int,
    a: AtomV<S>,
)
    requires
        exact::exact(v),
        layered::layered(g),
        layered::spans_hold(e, g.invars[0], g.equations, g.equations.len() as int),
        0 <= j < g.equations.len(),
        g.equations[j].prim == PrimV::Un(UnOpV::<S>::Relu, a),
    ensures
        crown::bounds_of(e, a) matches Ok(x) && layered::spans(x, g.equations[j].out.shape),
        support::dense(g.equations[j].out.shape),
        shape::fits(g.equations[j].out.shape),
{
    assert(layered::layer_eqn(g.invars[0], g.equations, j));
    assert(nn::operands_of(g.equations[j].prim)[0] == a);
    assert(layered::spans_hold(e, g.invars[0], g.equations, j));
    layered::lemma_operand_span(e, g.invars[0], g.equations, a, j);
}

/// Only rectifiers are activations of layers.
pub proof fn lemma_activation<S: Scalar>(g: GraphV<S>, j: int) -> (a: AtomV<S>)
    requires
        layered::layered(g),
        0 <= j < g.equations.len(),
        nn::is_activation(g.equations[j].prim),
    ensures
        g.equations[j].prim == PrimV::Un(UnOpV::<S>::Relu, a),
{
    assert(layered::layer_eqn(g.invars[0], g.equations, j));
    match g.equations[j].prim {
        PrimV::Un(_, a) => a,
        _ => arbitrary(),
    }
}

/// Equations of different numbers have results of different names.
pub proof fn lemma_names<S: Scalar>(g: GraphV<S>, i: int, j: int)
    requires
        layered::layered(g),
        0 <= i < g.equations.len(),
        0 <= j < g.equations.len(),
        g.equations[i].out.name == g.equations[j].out.name,
    ensures
        i == j,
{
    let (input, eqns) = (g.invars[0].name, g.equations);
    if i < j {
        assert(support::variable(input, eqns, i + 1) != support::variable(input, eqns, j + 1));
    } else if j < i {
        assert(support::variable(input, eqns, j + 1) != support::variable(input, eqns, i + 1));
    }
}

/// The signs that a search starts with have the shapes of their rectifiers.
pub(crate) proof fn lemma_open_fit<S: Scalar>(
    v: spec_fn(S) -> real,
    g: GraphV<S>,
    e: Map<Seq<char>, IBPV<S>>,
    k: nat,
)
    requires
        exact::exact(v),
        layered::layered(g),
        layered::spans_hold(e, g.invars[0], g.equations, g.equations.len() as int),
        k <= g.equations.len(),
    ensures
        node_splitting::open_splits(g.equations, e, k) matches Ok(m) ==> layer_params::signs_fit(
            g.equations,
            m,
        ),
    decreases k,
{
    let eqns = g.equations;
    if k > 0 {
        lemma_open_fit(v, g, e, (k - 1) as nat);
        if let Ok(m) = node_splitting::open_splits(eqns, e, (k - 1) as nat) {
            if let PrimV::Un(UnOpV::Relu, a) = eqns[k - 1].prim {
                lemma_rectified(v, g, e, k - 1, a);
                if let Ok(n) = node_splitting::open_splits(eqns, e, k) {
                    assert forall|j: int|
                        0 <= j < eqns.len() && n.dom().contains(
                            (#[trigger] eqns[j]).out.name,
                        ) implies fills(n[eqns[j].out.name], eqns[j].out.shape) by {
                        if eqns[j].out.name == eqns[k - 1].out.name {
                            lemma_names(g, j, k - 1);
                        }
                    }
                }
            }
        }
    }
}

/// Parameters that are added where none were given have the shapes of their rectifiers.
pub(crate) proof fn lemma_seeded_fit<S: Scalar>(
    v: spec_fn(S) -> real,
    g: GraphV<S>,
    e: Map<Seq<char>, IBPV<S>>,
    p: PairV<S>,
    k: nat,
)
    requires
        exact::exact(v),
        layered::layered(g),
        layered::spans_hold(e, g.invars[0], g.equations, g.equations.len() as int),
        k <= g.equations.len(),
        layer_params::pair_fits(g.equations, p),
    ensures
        beta_crown::seeded(g.equations, e, p, k) matches Ok(q) ==> layer_params::pair_fits(
            g.equations,
            q,
        ),
    decreases k,
{
    let eqns = g.equations;
    if k > 0 {
        lemma_seeded_fit(v, g, e, p, (k - 1) as nat);
        if let Ok(q) = beta_crown::seeded(eqns, e, p, (k - 1) as nat) {
            if nn::is_activation(eqns[k - 1].prim) {
                let a = lemma_activation(g, k - 1);
                lemma_rectified(v, g, e, k - 1, a);
                if let Ok(r) = beta_crown::seeded(eqns, e, p, k) {
                    assert forall|j: int|
                        0 <= j < eqns.len() && nn::is_activation(eqns[j].prim) implies #[trigger]
                        layer_params::pair_fits_at(eqns, r, j) by {
                        assert(layer_params::pair_fits_at(eqns, q, j));
                        if eqns[j].out.name == eqns[k - 1].out.name {
                            lemma_names(g, j, k - 1);
                        }
                    }
                }
            }
        }
    }
}

/// The two ways to say that parameters have the shapes of their rectifiers.
pub(crate) proof fn lemma_fits<S: Scalar>(
    v: spec_fn(S) -> real,
    g: GraphV<S>,
    e: Map<Seq<char>, IBPV<S>>,
    p: PairV<S>,
)
    requires
        exact::exact(v),
        layered::layered(g),
        layered::spans_hold(e, g.invars[0], g.equations, g.equations.len() as int),
    ensures
        node_verdicts::params_fit(e, g.equations, p) <==> layer_params::pair_fits(g.equations, p),
{
    let eqns = g.equations;
    if node_verdicts::params_fit(e, eqns, p) {
        assert forall|j: int| 0 <= j < eqns.len() && nn::is_activation(eqns[j].prim) implies #[trigger]
            layer_params::pair_fits_at(eqns, p, j) by {
            let a = lemma_activation(g, j);
            lemma_rectified(v, g, e, j, a);
            assert(node_verdicts::fits_at(e, eqns, p, j));
        }
    }
    if layer_params::pair_fits(eqns, p) {
        assert forall|j: int| 0 <= j < eqns.len() implies #[trigger] node_verdicts::fits_at(
            e,
            eqns,
            p,
            j,
        ) by {
            if nn::is_activation(eqns[j].prim) {
                let a = lemma_activation(g, j);
                lemma_rectified(v, g, e, j, a);
                assert(layer_params::pair_fits_at(eqns, p, j));
            }
        }
    }
}

/// The bound of a subproblem of a network of layers.
proof fn lemma_bounded_fits<S: Scalar>(
    v: spec_fn(S) -> real,
    g: GraphV<S>,
    e: Map<Seq<char>, IBPV<S>>,
    region: IBPV<S>,
    splits: Map<Seq<char>, TensorV<S>>,
    warm: PairV<S>,
    node: NodeV<S>,
)
    requires
        exact::exact(v),
        layered::layered(g),
        layered::spans_hold(e, g.invars[0], g.equations, g.equations.len() as int),
        layer_params::signs_fit(g.equations, splits),
        layer_params::pair_fits(g.equations, warm),
        node_splitting::bounded(g, e, region, splits, warm) == Ok::<NodeV<S>, Fault>(node),
    ensures
        layer_params::pair_fits(g.equations, node.params),
        reals::full(node.affine.weights),
{
    let eqns = g.equations;
    let p = beta_crown::seeded(eqns, e, warm, eqns.len())->Ok_0;
    lemma_seeded_fit(v, g, e, warm, eqns.len());
    layer_params::lemma_best_pair_fits(v, g, e, splits, p);
    let q = beta_crown::best_pair(g, e, splits, p, StartV::Last)->Ok_0;
    assert(node.params == q);
    let biases = beta_crown::all_fed_by(eqns, e, eqns.len())->Ok_0;
    let params = ParamsV {
        alphas: q.alphas,
        splitting: Some(SplittingV { betas: q.betas, splits, biases }),
    };
    assert forall|j: int|
        0 <= j < eqns.len() && layer_walk::is_rectifier(eqns[j].prim) implies #[trigger]
        layer_walk::param_ok::<S, Tensor<S>>((), eqns[j], params) by {
        assert(layer_params::pair_fits_at(eqns, q, j));
    }
    layer_walk::lemma_lower_bound_ok::<S, Tensor<S>>(v, (), g, e, params, StartV::Last);
}

/// Signs and parameters of a network of layers keep the shapes of their rectifiers.
pub(crate) proof fn lemma_layers_keep<S: Scalar>(
    v: spec_fn(S) -> real,
    g: GraphV<S>,
    e: Map<Seq<char>, IBPV<S>>,
    region: IBPV<S>,
)
    requires
        exact::exact(v),
        layered::layered(g),
        layered::spans_hold(e, g.invars[0], g.equations, g.equations.len() as int),
    ensures
        node_verdicts::keeps_shapes(g, e, region),
{
    let eqns = g.equations;
    lemma_open_fit(v, g, e, eqns.len());
    assert forall|splits: Map<Seq<char>, TensorV<S>>, warm: PairV<S>|
        layer_params::signs_fit(eqns, splits) && node_verdicts::params_fit(
            e,
            eqns,
            warm,
        ) implies (#[trigger] node_splitting::bounded(g, e, region, splits, warm) matches Ok(node)
        ==> node_verdicts::params_fit(e, eqns, node.params) && reals::full(
        node.affine.weights,
    )) by {
        lemma_fits(v, g, e, warm);
        if let Ok(node) = node_splitting::bounded(g, e, region, splits, warm) {
            lemma_bounded_fits(v, g, e, region, splits, warm, node);
            lemma_fits(v, g, e, node.params);
        }
    }
}

// ---- verdicts ----
/// The output of a network on an input.
pub open spec fn output<S: Scalar>(g: GraphV<S>, x: TensorV<S>) -> TensorV<S> {
    (eval::evaluated::<S, Tensor<S>>((), g, seq![x]).1->Ok_0)[0]
}

/// Whether no element of a tensor is negative.
pub open spec fn nowhere_negative<S>(v: spec_fn(S) -> real, t: TensorV<S>) -> bool {
    forall|k: int| 0 <= k < t.data.len() ==> 0real <= v(#[trigger] t.data[k])
}

/// Whether a verdict on a box is right: on all inputs of a safe box no element of the output is
/// negative, and what shows a box unsafe is one input of the box on which one is.
pub open spec fn right_verdict<S: Scalar>(
    v: spec_fn(S) -> real,
    g: GraphV<S>,
    region: IBPV<S>,
    verdict: VerdictV<S>,
) -> bool {
    match verdict {
        VerdictV::Safe => forall|x: TensorV<S>| #[trigger]
            containment::inside(v, x, region) ==> nowhere_negative(v, output(g, x)),
        VerdictV::Unsafe(xs) => {
            &&& xs.len() == 1
            &&& containment::inside(v, xs[0], region)
            &&& !nowhere_negative(v, output(g, xs[0]))
        },
        VerdictV::Undecided => true,
    }
}

/// What a negative output is.
proof fn lemma_negative<S: Scalar>(v: spec_fn(S) -> real, g: GraphV<S>, x: TensorV<S>)
    requires
        exact::exact(v),
        layered::layered(g),
        x.shape == g.invars[0].shape,
        reals::full(x),
    ensures
        eval::evaluated::<S, Tensor<S>>((), g, seq![x]).1 is Ok,
        input_verdicts::violates(g, seq![x]) <==> !nowhere_negative(v, output(g, x)),
{
    layered::lemma_layers_run(g, x);
    exact::lemma_numbers(v);
    let ys = eval::evaluated::<S, Tensor<S>>((), g, seq![x]).1->Ok_0;
    let y = output(g, x);
    assert(ys[0] == y);
    if !nowhere_negative(v, y) {
        let k = choose|k: int| 0 <= k < y.data.len() && v(#[trigger] y.data[k]) < 0real;
        assert(y.data[k].less(scalar::zero()));
        assert(bab::some_negative(ys[0]));
    }
}

/// A verdict that holds of a box is right.
proof fn lemma_right<S: Scalar>(
    v: spec_fn(S) -> real,
    g: GraphV<S>,
    region: IBPV<S>,
    verdict: VerdictV<S>,
)
    requires
        exact::exact(v),
        layered::layered(g),
        region.lb.shape == g.invars[0].shape,
        input_verdicts::verdict_holds(v, g, seq![region], verdict),
        verdict is Safe ==> forall|x: TensorV<S>| #[trigger]
            containment::inside(v, x, region) ==> !input_verdicts::violates(g, seq![x]),
    ensures
        right_verdict(v, g, region, verdict),
{
    match verdict {
        VerdictV::Safe => {
            assert forall|x: TensorV<S>| #[trigger] containment::inside(
                v,
                x,
                region,
            ) implies nowhere_negative(v, output(g, x)) by {
                lemma_negative(v, g, x);
            }
        },
        VerdictV::Unsafe(xs) => {
            assert(containment::inside(v, xs[0], seq![region][0]));
            assert(xs =~= seq![xs[0]]);
            lemma_negative(v, g, xs[0]);
        },
        VerdictV::Undecided => {},
    }
}

/// Branch and bound over boxes is right on every network of layers, on every box of the shape of
/// its input that is not empty, for every way to split boxes that covers them.
pub proof fn lemma_input_splitting_right<S: Scalar, P: InputSplit<S>>(
    v: spec_fn(S) -> real,
    g: GraphV<S>,
    region: IBPV<S>,
    split: P,
    config: BaBConfig<S>,
)
    requires
        exact::exact(v),
        layered::layered(g),
        region.lb.shape == g.invars[0].shape,
        containment::inside(v, region.ub, region),
        input_verdicts::splits_cover(v, split),
    ensures
        input_splitting::input_verdict(g, seq![region], split, config) matches Ok(verdict)
            ==> right_verdict(v, g, region, verdict),
{
    let inputs = seq![region];
    layered::lemma_layers_batch(v, g, region);
    let ends = input_splitting::upper_ends(inputs);
    assert(input_verdicts::in_box(v, ends, inputs)) by {
        assert(ends[0] == inputs[0].ub);
    }
    input_verdicts::lemma_input_verdict_sound(v, g, inputs, split, config);
    if let Ok(verdict) = input_splitting::input_verdict(g, inputs, split, config) {
        assert forall|x: TensorV<S>| verdict is Safe && #[trigger] containment::inside(
            v,
            x,
            region,
        ) implies !input_verdicts::violates(g, seq![x]) by {
            assert(input_verdicts::in_box(v, seq![x], inputs));
        }
        lemma_right(v, g, region, verdict);
    }
}

/// Branch and bound that halves boxes is right on every network of layers.
pub proof fn lemma_halving_right<S: Scalar>(
    v: spec_fn(S) -> real,
    g: GraphV<S>,
    region: IBPV<S>,
    config: BaBConfig<S>,
)
    requires
        exact::exact(v),
        layered::layered(g),
        region.lb.shape == g.invars[0].shape,
        containment::inside(v, region.ub, region),
    ensures
        input_splitting::input_verdict(g, seq![region], UniformSplit {  }, config) matches Ok(
            verdict,
        ) ==> right_verdict(v, g, region, verdict),
{
    input_verdicts::lemma_halves_cover::<S>(v);
    lemma_input_splitting_right(v, g, region, UniformSplit {  }, config);
}

/// Branch and bound over the phases of rectifiers is right on every network of layers, on every box of
/// the shape of its input that is not empty, whichever neurons are forked: an input that it reports has a negative
/// output, and boxes that it calls safe are, where the forks leave no input out and the network
/// has one number as output.
pub proof fn lemma_forking_right<S: Scalar, P: NodeSplit<S>>(
    v: spec_fn(S) -> real,
    g: GraphV<S>,
    region: IBPV<S>,
    split: P,
    config: BaBConfig<S>,
)
    requires
        exact::exact(v),
        layered::layered(g),
        region.lb.shape == g.invars[0].shape,
        containment::inside(v, region.ub, region),
        node_verdicts::forks_fit(g, split),
    ensures
        node_splitting::node_verdict(g, seq![region], split, config) matches Ok(verdict) ==> (
        verdict is Safe ==> shape::product(g.outvars[0].shape) == 1 && node_verdicts::forks_cover(
            v,
            g,
            split,
        )) ==> right_verdict(v, g, region, verdict),
{
    let inputs = seq![region];
    layered::lemma_layers_batch(v, g, region);
    layered::lemma_layers_bound(v, g, region);
    let e = eval::forward::<S, IBPTensor<S>>(
        (),
        g.equations,
        node_verdicts::given(g, region),
        0,
    ).1->Ok_0;
    lemma_layers_keep(v, g, e, region);
    if let Ok(verdict) = node_splitting::node_verdict(g, inputs, split, config) {
        node_verdicts::lemma_unsafe_is_unsafe(v, g, e, inputs, split, config);
        if verdict is Safe ==> shape::product(g.outvars[0].shape) == 1 && node_verdicts::forks_cover(
            v,
            g,
            split,
        ) {
            if verdict is Safe {
                layered::lemma_layers_tractable(v, g, region);
            }
            assert forall|x: TensorV<S>| verdict is Safe && #[trigger] containment::inside(
                v,
                x,
                region,
            ) implies !input_verdicts::violates(g, seq![x]) by {
                node_verdicts::lemma_safe_is_safe(v, g, e, inputs, split, config, x);
            }
            lemma_right(v, g, region, verdict);
        }
    }
}

/// Branch and bound over the phases of rectifiers is right on every network of layers, on every box of
/// the shape of its input that is not empty, where the best undecided neuron is forked: an input that it reports has a
/// negative output, and boxes that it calls safe are, for networks with one number as output.
pub proof fn lemma_node_splitting_right<S: Scalar>(
    v: spec_fn(S) -> real,
    g: GraphV<S>,
    region: IBPV<S>,
    config: BaBConfig<S>,
)
    requires
        exact::exact(v),
        layered::layered(g),
        region.lb.shape == g.invars[0].shape,
        containment::inside(v, region.ub, region),
    ensures
        node_splitting::node_verdict(g, seq![region], SmartSplit {  }, config) matches Ok(verdict)
            ==> (verdict is Safe ==> shape::product(g.outvars[0].shape) == 1) ==> right_verdict(
            v,
            g,
            region,
            verdict,
        ),
{
    layered::lemma_layers_batch(v, g, region);
    node_verdicts::lemma_smart_covers(v, g);
    node_verdicts::lemma_smart_fits(g);
    lemma_forking_right(v, g, region, SmartSplit {  }, config);
}

/// A search without steps does not call a box safe.
pub proof fn lemma_no_steps<S: Scalar, P: NodeSplit<S>, Q: InputSplit<S>>(
    g: GraphV<S>,
    inputs: Seq<IBPV<S>>,
    nodes: P,
    boxes: Q,
    config: BaBConfig<S>,
)
    requires
        config.max_iters == 0,
    ensures
        node_splitting::node_verdict(g, inputs, nodes, config) != Ok::<VerdictV<S>, Fault>(
            VerdictV::Safe,
        ),
        input_splitting::input_verdict(g, inputs, boxes, config) == Ok::<VerdictV<S>, Fault>(
            VerdictV::Undecided,
        ),
{
}

} // verus!
