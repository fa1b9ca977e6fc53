//! Branch and bound over the phases of rectifiers decides rightly, in exact arithmetic.

use vstd::prelude::*;
use crate::affine;
use crate::affine::AffineV;
use crate::ascent;
use crate::bab;
use crate::bab::{BaBConfig, VerdictV};
use crate::beta_crown;
use crate::beta_crown::PairV;
use crate::carry;
use crate::carry_conv;
use crate::containment;
use crate::crown;
use crate::crown::{ParamsV, SplittingV, StartV};
use crate::env;
use crate::eval;
use crate::exact;
use crate::input_splitting;
use crate::input_splitting::UniformSplit;
use crate::input_verdicts;
use crate::layer_params;
use crate::layer_walk::fills;
use crate::interval::{IBPTensor, IBPV};
use crate::model;
use crate::model::{BinOpV, Fault, TensorV, UnOpV};
use crate::nn;
use crate::nn::{EqnV, GraphV, PrimV};
use crate::node_splitting;
use crate::node_splitting::{NodeSearchV, NodeSplit, NodeV, SmartSplit};
use crate::pairing;
use crate::phases;
use crate::reals;
use crate::scalar;
use crate::scalar::Scalar;
use crate::soundness;
use crate::sums;
use crate::support;
use crate::tensor::Tensor;

verus! {

// ---- which graphs ----
/// Whether an equation can be relaxed soundly with the bounds of an environment.
pub open spec fn eqn_suits<S: Scalar>(
    v: spec_fn(S) -> real,
    e: Map<Seq<char>, IBPV<S>>,
    eqn: EqnV<S>,
) -> bool {
    match eqn.prim {
        PrimV::Un(op, a) => crown::bounds_of(e, a) matches Ok(c) ==> soundness::unary_suits(
            v,
            op,
            c.lb.shape.len() as int,
            c,
        ),
        PrimV::Bin(BinOpV::Dot, a, b) => a.shape.len() <= 2 && b.shape.len() <= 2,
        PrimV::Bin(BinOpV::Conv(stride), a, c) => carry_conv::tiles(a.shape, c.shape, stride),
        _ => true,
    }
}

/// The interval environment that evaluation starts from.
pub open spec fn given<S>(g: GraphV<S>, region: IBPV<S>) -> Map<Seq<char>, IBPV<S>> {
    Map::empty().insert(g.invars[0].name, region)
}

/// Whether the variables of a graph on one input have their declared shapes, and the output is one
/// number.
pub open spec fn one_output<S: Scalar>(g: GraphV<S>, f: Map<Seq<char>, TensorV<S>>) -> bool {
    &&& soundness::all_shaped(f, g.invars[0], g.equations)
    &&& f[g.outvars[0].name].data.len() == 1
}

/// Whether the bounds on a graph with one input and one number as its output hold on a box: its
/// equations come in order, the last gives the output, and every operation can be bounded and
/// relaxed soundly there.
pub open spec fn tractable<S: Scalar>(
    v: spec_fn(S) -> real,
    g: GraphV<S>,
    region: IBPV<S>,
    e: Map<Seq<char>, IBPV<S>>,
) -> bool {
    let eqns = g.equations;
    &&& g.invars.len() == 1
    &&& g.outvars.len() == 1
    &&& eqns.len() > 0
    &&& g.outvars[0] == eqns[eqns.len() - 1].out
    &&& soundness::ordered(g.invars[0], eqns)
    &&& containment::inside(v, region.ub, region)
    &&& forall|j: int| 0 <= j < eqns.len() ==> containment::solid((#[trigger] eqns[j]).prim)
    &&& eval::forward::<S, IBPTensor<S>>((), eqns, given(g, region), 0).1 == Ok::<
        Map<Seq<char>, IBPV<S>>,
        Fault,
    >(e)
    &&& containment::all_bounded(v, eqns, given(g, region), 0)
    &&& forall|splits: Map<Seq<char>, TensorV<S>>| #[trigger]
        phases::split_bounded(v, eqns, given(g, region), splits, 0)
    &&& forall|j: int| 0 <= j < eqns.len() ==> eqn_suits(v, e, #[trigger] eqns[j])
    &&& forall|x: TensorV<S>| #[trigger]
        containment::inside(v, x, region) ==> (eval::environment::<S, Tensor<S>>(
            (),
            g,
            seq![x],
        ).1 matches Ok(f) ==> one_output(g, f))
}

/// Whether parameters for the operand of equation `j` have its shape.
pub open spec fn fits_at<S: Scalar>(
    e: Map<Seq<char>, IBPV<S>>,
    eqns: Seq<EqnV<S>>,
    p: PairV<S>,
    j: int,
) -> bool {
    let name = eqns[j].out.name;
    match eqns[j].prim {
        PrimV::Un(_, a) => nn::is_activation(eqns[j].prim) ==> (crown::bounds_of(e, a) matches Ok(c)
            ==> {
            &&& p.alphas.dom().contains(name) ==> pairing::sizable(p.alphas[name])
                && p.alphas[name].shape == c.lb.shape
            &&& p.betas.dom().contains(name) ==> pairing::sizable(p.betas[name])
                && p.betas[name].shape == c.lb.shape
        }),
        _ => true,
    }
}

/// Whether parameters have the shapes of the operands that they belong to.
pub open spec fn params_fit<S: Scalar>(
    e: Map<Seq<char>, IBPV<S>>,
    eqns: Seq<EqnV<S>>,
    p: PairV<S>,
) -> bool {
    forall|j: int| 0 <= j < eqns.len() ==> #[trigger] fits_at(e, eqns, p, j)
}

/// Whether signs and parameters that have the shapes of their rectifiers do so in all subproblems,
/// and bounds have weights that fill their shapes.
pub open spec fn keeps_shapes<S: Scalar>(
    g: GraphV<S>,
    e: Map<Seq<char>, IBPV<S>>,
    region: IBPV<S>,
) -> bool {
    &&& node_splitting::open_splits(g.equations, e, g.equations.len()) matches Ok(splits)
        ==> layer_params::signs_fit(g.equations, splits)
    &&& forall|splits: Map<Seq<char>, TensorV<S>>, warm: PairV<S>|
        layer_params::signs_fit(g.equations, splits) && params_fit(e, g.equations, warm) ==> (
        #[trigger] node_splitting::bounded(g, e, region, splits, warm) matches Ok(node)
            ==> params_fit(e, g.equations, node.params) && reals::full(node.affine.weights))
}

/// Whether the parts of a subproblem have signs of the shapes of their rectifiers where the
/// subproblem has.
pub open spec fn forks_fit<S: Scalar, P: NodeSplit<S>>(g: GraphV<S>, split: P) -> bool {
    forall|splits: Map<Seq<char>, TensorV<S>>, scores: Map<Seq<char>, TensorV<S>>, j: int|
        phases::listed(splits) && layer_params::signs_fit(g.equations, splits) && 0 <= j
            < split.parts(splits, scores).len() ==> {
            let part = #[trigger] split.parts(splits, scores)[j];
            phases::listed(part) && layer_params::signs_fit(g.equations, part)
        }
}

// ---- one subproblem ----
/// The environment of an input of the box, with what is known of it.
pub open spec fn happens<S: Scalar>(
    v: spec_fn(S) -> real,
    g: GraphV<S>,
    region: IBPV<S>,
    x: TensorV<S>,
    f: Map<Seq<char>, TensorV<S>>,
) -> bool {
    &&& containment::inside(v, x, region)
    &&& eval::environment::<S, Tensor<S>>((), g, seq![x]).1 == Ok::<
        Map<Seq<char>, TensorV<S>>,
        Fault,
    >(f)
}

/// All variables on an input of the box lie in their intervals.
proof fn lemma_all_inside<S: Scalar>(
    v: spec_fn(S) -> real,
    g: GraphV<S>,
    region: IBPV<S>,
    e: Map<Seq<char>, IBPV<S>>,
    x: TensorV<S>,
    f: Map<Seq<char>, TensorV<S>>,
)
    requires
        exact::exact(v),
        tractable(v, g, region, e),
        happens(v, g, region, x, f),
    ensures
        containment::all_inside(v, f, e),
        one_output(g, f),
{
    reveal_with_fuel(eval::bound, 2);
    let start = Map::<Seq<char>, TensorV<S>>::empty().insert(g.invars[0].name, x);
    assert(eval::bound(g.invars, seq![x], 1) == start);
    assert(containment::all_inside(v, start, given(g, region))) by {
        assert(start.dom() =~= given(g, region).dom());
    }
    containment::lemma_forward_inside(v, g.equations, start, given(g, region), 0);
}

/// Parameters that are added where none were given have the right shapes.
proof fn lemma_seeded_fits<S: Scalar>(
    v: spec_fn(S) -> real,
    g: GraphV<S>,
    e: Map<Seq<char>, IBPV<S>>,
    f: Map<Seq<char>, TensorV<S>>,
    p: PairV<S>,
    k: nat,
)
    requires
        soundness::ordered(g.invars[0], g.equations),
        soundness::all_shaped(f, g.invars[0], g.equations),
        containment::all_inside(v, f, e),
        params_fit(e, g.equations, p),
        k <= g.equations.len(),
    ensures
        beta_crown::seeded(g.equations, e, p, k) matches Ok(q) ==> params_fit(e, g.equations, q),
    decreases k,
{
    if k > 0 {
        let eqns = g.equations;
        lemma_seeded_fits(v, g, e, f, p, (k - 1) as nat);
        let before = beta_crown::seeded(eqns, e, p, (k - 1) as nat);
        let after = beta_crown::seeded(eqns, e, p, k);
        if before is Ok && after is Ok {
            let (q, r) = (before->Ok_0, after->Ok_0);
            assert forall|j: int| 0 <= j < eqns.len() implies #[trigger] fits_at(e, eqns, r, j) by {
                assert(fits_at(e, eqns, q, j));
                if j == k - 1 {
                    if let PrimV::Un(_, a) = eqns[j].prim {
                        assert(nn::operands_of(eqns[j].prim)[0] == a);
                        assert(support::shaped(f, a));
                        let c = soundness::lemma_operand_inside(v, f, e, a);
                        assert(pairing::sizable(c.lb));
                    }
                } else if j < k - 1 {
                    assert(support::variable(g.invars[0].name, eqns, j + 1) != support::variable(
                        g.invars[0].name,
                        eqns,
                        k as int,
                    ));
                } else {
                    assert(support::variable(g.invars[0].name, eqns, k as int)
                        != support::variable(g.invars[0].name, eqns, j + 1));
                }
            }
        }
    }
}

/// Parameters in range, of the right shapes, and splits that an input agrees with make a sound
/// relaxation at that input.
proof fn lemma_relaxes<S: Scalar>(
    v: spec_fn(S) -> real,
    g: GraphV<S>,
    e: Map<Seq<char>, IBPV<S>>,
    f: Map<Seq<char>, TensorV<S>>,
    q: PairV<S>,
    splits: Map<Seq<char>, TensorV<S>>,
    biases: Map<Seq<char>, TensorV<S>>,
    j: int,
)
    requires
        exact::exact(v),
        0 <= j < g.equations.len(),
        soundness::ordered(g.invars[0], g.equations),
        soundness::all_shaped(f, g.invars[0], g.equations),
        containment::all_inside(v, f, e),
        eqn_suits(v, e, g.equations[j]),
        fits_at(e, g.equations, q, j),
        ascent::pair_in_range(v, q),
        phases::phase_agrees(v, f, g.equations, splits, j),
    ensures
        soundness::relaxes(
            v,
            f,
            e,
            ParamsV {
                alphas: q.alphas,
                splitting: Some(SplittingV { betas: q.betas, splits, biases }),
            },
            g.equations[j],
        ),
{
    let eqn = g.equations[j];
    if let PrimV::Un(op, a) = eqn.prim {
        assert(nn::operands_of(g.equations[j].prim)[0] == a);
        assert(support::shaped(f, a));
        let c = soundness::lemma_operand_inside(v, f, e, a);
        let x = support::meant(f, a);
        assert(eqn.out.value is None);
        if nn::is_activation(eqn.prim) && q.betas.dom().contains(eqn.out.name) {
            let beta = q.betas[eqn.out.name];
            let s = crown::or_zeros(splits, eqn.out.name, x.shape);
            exact::lemma_numbers(v);
            assert(carry::constraints_hold(v, beta, s, x)) by {
                assert forall|k: int| 0 <= k < x.data.len() implies 0real <= v(
                    #[trigger] beta.data[k],
                ) && 0real <= v(s.data[k]) * v(x.data[k]) by {
                    exact::lemma_units(v(x.data[k]), v(x.data[k]));
                    if splits.dom().contains(eqn.out.name) {
                        assert(0real <= v(s.data[k]) * v(x.data[k]));
                    }
                }
            }
        }
    }
}

/// Whether a subproblem is bounded rightly at an input: its parameters are fit for use, and where
/// the input agrees with its splits and has a negative output, its bound is negative.
pub open spec fn node_right<S: Scalar>(
    v: spec_fn(S) -> real,
    g: GraphV<S>,
    e: Map<Seq<char>, IBPV<S>>,
    x: TensorV<S>,
    f: Map<Seq<char>, TensorV<S>>,
    node: NodeV<S>,
) -> bool {
    &&& params_fit(e, g.equations, node.params)
    &&& ascent::pair_in_range(v, node.params)
    &&& layer_params::signs_fit(g.equations, node.splits)
    &&& phases::listed(node.splits)
    &&& phases::agrees(v, f, g.equations, node.splits) && input_verdicts::violates(g, seq![x])
        ==> v(node.lb) < 0real
}

/// The output of a graph with one number as its output.
proof fn lemma_output<S: Scalar>(
    v: spec_fn(S) -> real,
    g: GraphV<S>,
    region: IBPV<S>,
    x: TensorV<S>,
    f: Map<Seq<char>, TensorV<S>>,
)
    requires
        exact::exact(v),
        g.outvars.len() == 1,
        happens(v, g, region, x, f),
        one_output(g, f),
    ensures
        input_verdicts::violates(g, seq![x]) ==> support::total(v, f[g.outvars[0].name]) < 0real,
{
    exact::lemma_numbers(v);
    reveal_with_fuel(eval::gathered, 2);
    let y = f[g.outvars[0].name];
    if input_verdicts::violates(g, seq![x]) {
        let ys = eval::evaluated::<S, Tensor<S>>((), g, seq![x]).1->Ok_0;
        assert(ys =~= seq![y]);
        let i = choose|i: int| 0 <= i < ys.len() && bab::some_negative(#[trigger] ys[i]);
        assert(bab::some_negative(y));
        let h = |k: int| v(y.data[k]);
        assert(sums::sum(h, 0) == 0real);
        assert(sums::sum(h, 1) == sums::sum(h, 0) + h(0));
    }
}

/// The bound of a subproblem is right at every input of the box.
#[verifier::rlimit(40)]
proof fn lemma_bounded<S: Scalar>(
    v: spec_fn(S) -> real,
    g: GraphV<S>,
    e: Map<Seq<char>, IBPV<S>>,
    region: IBPV<S>,
    splits: Map<Seq<char>, TensorV<S>>,
    warm: PairV<S>,
    node: NodeV<S>,
    x: TensorV<S>,
    f: Map<Seq<char>, TensorV<S>>,
)
    requires
        exact::exact(v),
        tractable(v, g, region, e),
        keeps_shapes(g, e, region),
        happens(v, g, region, x, f),
        phases::listed(splits),
        layer_params::signs_fit(g.equations, splits),
        params_fit(e, g.equations, warm),
        ascent::pair_in_range(v, warm),
        node_splitting::bounded(g, e, region, splits, warm) == Ok::<NodeV<S>, Fault>(node),
    ensures
        node_right(v, g, e, x, f, node),
        node.splits == splits,
{
    let eqns = g.equations;
    lemma_all_inside(v, g, region, e, x, f);
    lemma_seeded_fits(v, g, e, f, warm, eqns.len());
    ascent::lemma_seeded_in_range(v, eqns, e, warm, eqns.len());
    let p = beta_crown::seeded(eqns, e, warm, eqns.len())->Ok_0;
    ascent::lemma_pair_in_range(v, g, e, splits, p, StartV::Last);
    let q = beta_crown::best_pair(g, e, splits, p, StartV::Last)->Ok_0;
    assert(params_fit(e, eqns, q));
    let biases = beta_crown::all_fed_by(eqns, e, eqns.len())->Ok_0;
    let params = ParamsV {
        alphas: q.alphas,
        splitting: Some(SplittingV { betas: q.betas, splits, biases }),
    };
    if phases::agrees(v, f, eqns, splits) && input_verdicts::violates(g, seq![x]) {
        assert forall|j: int| 0 <= j < eqns.len() implies soundness::relaxes(
            v,
            f,
            e,
            params,
            #[trigger] eqns[j],
        ) by {
            assert(fits_at(e, eqns, q, j));
            assert(phases::phase_agrees(v, f, eqns, splits, j));
            assert(eqn_suits(v, e, eqns[j]));
            lemma_relaxes(v, g, e, f, q, splits, biases, j);
        }
        let out = eqns[eqns.len() - 1].out;
        assert(support::in_scope(g.invars[0].name, eqns, out, eqns.len() as int)) by {
            assert(support::variable(g.invars[0].name, eqns, eqns.len() as int) == out.name);
        }
        assert(support::shaped(f, out));
        soundness::lemma_operands_inside(v, f, e, g.invars[0], eqns);
        soundness::lemma_crown_sound(v, g, x, f, e, params, StartV::Last);
        soundness::lemma_least_on_box(v, node.affine, region.lb, region.ub, x);
        lemma_output(v, g, region, x, f);
        let t = affine::concretized::<S, Tensor<S>>((), node.affine, region.lb, region.ub).1->Ok_0;
        reveal_with_fuel(bab::min_of, 2);
        assert(t.data.len() == 1);
    }
}

// ---- the search ----
/// The first of the smallest numbers is no larger than any.
proof fn lemma_first_least_smallest<S: Scalar>(v: spec_fn(S) -> real, keys: Seq<S>, k: nat)
    requires
        exact::exact(v),
        0 < k <= keys.len(),
    ensures
        forall|j: int| 0 <= j < k ==> v(keys[bab::first_least(keys, k)]) <= v(#[trigger] keys[j]),
    decreases k,
{
    if k > 1 {
        lemma_first_least_smallest(v, keys, (k - 1) as nat);
    }
}

/// Whether some node of a list agrees with an input.
pub open spec fn agreed<S: Scalar>(
    v: spec_fn(S) -> real,
    g: GraphV<S>,
    f: Map<Seq<char>, TensorV<S>>,
    heap: Seq<NodeV<S>>,
) -> bool {
    exists|j: int|
        0 <= j < heap.len() && phases::agrees(v, f, g.equations, (#[trigger] heap[j]).splits)
}

/// Whether all nodes of a list are bounded rightly at an input.
pub open spec fn all_right<S: Scalar>(
    v: spec_fn(S) -> real,
    g: GraphV<S>,
    e: Map<Seq<char>, IBPV<S>>,
    x: TensorV<S>,
    f: Map<Seq<char>, TensorV<S>>,
    heap: Seq<NodeV<S>>,
) -> bool {
    forall|j: int| 0 <= j < heap.len() ==> node_right(v, g, e, x, f, #[trigger] heap[j])
}

/// The parts from number `i` on do not lose an input with a negative output.
proof fn lemma_expanded<S: Scalar>(
    v: spec_fn(S) -> real,
    g: GraphV<S>,
    e: Map<Seq<char>, IBPV<S>>,
    region: IBPV<S>,
    warm: PairV<S>,
    parts: Seq<Map<Seq<char>, TensorV<S>>>,
    heap: Seq<NodeV<S>>,
    i: nat,
    x: TensorV<S>,
    f: Map<Seq<char>, TensorV<S>>,
)
    requires
        exact::exact(v),
        tractable(v, g, region, e),
        keeps_shapes(g, e, region),
        happens(v, g, region, x, f),
        input_verdicts::violates(g, seq![x]),
        forall|j: int|
            0 <= j < parts.len() ==> phases::listed(#[trigger] parts[j])
                && layer_params::signs_fit(g.equations, parts[j]),
        params_fit(e, g.equations, warm),
        ascent::pair_in_range(v, warm),
        all_right(v, g, e, x, f, heap),
        agreed(v, g, f, heap) || exists|j: int|
            i <= j < parts.len() && phases::agrees(v, f, g.equations, #[trigger] parts[j]),
    ensures
        node_splitting::expanded(g, e, region, warm, parts, heap, i) matches Ok(NodeSearchV::Open(
            next,
        )) ==> agreed(v, g, f, next) && all_right(v, g, e, x, f, next),
        node_splitting::expanded(g, e, region, warm, parts, heap, i) matches Ok(NodeSearchV::Done(
            verdict,
        )) ==> verdict != VerdictV::<S>::Safe,
    decreases parts.len() - i,
{
    if i < parts.len() {
        let part = parts[i as int];
        if phases::agrees(v, f, g.equations, part) {
            assert(phases::split_bounded(v, g.equations, given(g, region), part, 0));
            phases::lemma_feasible(v, g, region, part, x, f);
        }
        if !node_splitting::feasible(g, region, part) {
            lemma_expanded(v, g, e, region, warm, parts, heap, i + 1, x, f);
        } else {
            let r = node_splitting::bounded(g, e, region, part, warm);
            if r is Ok {
                let child = r->Ok_0;
                lemma_bounded(v, g, e, region, part, warm, child, x, f);
                exact::lemma_numbers(v);
                let next = if child.lb.less(scalar::zero()) {
                    heap.push(child)
                } else {
                    heap
                };
                if agreed(v, g, f, heap) {
                    let j = choose|j: int|
                        0 <= j < heap.len() && phases::agrees(
                            v,
                            f,
                            g.equations,
                            (#[trigger] heap[j]).splits,
                        );
                    assert(next[j] == heap[j]);
                    assert(agreed(v, g, f, next));
                } else if phases::agrees(v, f, g.equations, part) {
                    assert(next[heap.len() as int] == child);
                    assert(agreed(v, g, f, next));
                }
                assert(all_right(v, g, e, x, f, next));
                lemma_expanded(v, g, e, region, warm, parts, next, i + 1, x, f);
            }
        }
    }
}

/// Whether a way to fork covers all inputs, for the environments of one graph.
pub open spec fn forks_cover<S: Scalar, P: NodeSplit<S>>(
    v: spec_fn(S) -> real,
    g: GraphV<S>,
    split: P,
) -> bool {
    forall|
        f: Map<Seq<char>, TensorV<S>>,
        splits: Map<Seq<char>, TensorV<S>>,
        scores: Map<Seq<char>, TensorV<S>>,
    |
        phases::listed(splits) ==> #[trigger] phases::fork_covers(
            v,
            f,
            g.equations,
            split,
            splits,
            scores,
        )
}

/// Where a list holds a node that an input agrees with, the next node has a negative bound.
proof fn lemma_next_negative<S: Scalar>(
    v: spec_fn(S) -> real,
    g: GraphV<S>,
    e: Map<Seq<char>, IBPV<S>>,
    heap: Seq<NodeV<S>>,
    x: TensorV<S>,
    f: Map<Seq<char>, TensorV<S>>,
)
    requires
        exact::exact(v),
        input_verdicts::violates(g, seq![x]),
        all_right(v, g, e, x, f, heap),
        agreed(v, g, f, heap),
    ensures
        ({
            let m = node_splitting::next_node(heap);
            &&& 0 <= m < heap.len()
            &&& !scalar::zero::<S>().at_most(heap[m].lb)
            &&& node_right(v, g, e, x, f, heap[m])
            &&& all_right(v, g, e, x, f, heap.remove(m))
            &&& phases::agrees(v, f, g.equations, heap[m].splits) || agreed(
                v,
                g,
                f,
                heap.remove(m),
            )
        }),
{
    let keys = node_splitting::node_keys(heap);
    let m = node_splitting::next_node(heap);
    bab::lemma_first_least(keys, heap.len());
    lemma_first_least_smallest(v, keys, heap.len());
    exact::lemma_numbers(v);
    let rest = heap.remove(m);
    let w = choose|j: int|
        0 <= j < heap.len() && phases::agrees(v, f, g.equations, (#[trigger] heap[j]).splits);
    assert(node_right(v, g, e, x, f, heap[w]));
    assert(node_right(v, g, e, x, f, heap[m]));
    assert(v(keys[m]) <= v(keys[w]));
    assert forall|j: int| 0 <= j < rest.len() implies node_right(
        v,
        g,
        e,
        x,
        f,
        #[trigger] rest[j],
    ) by {
        if j < m {
            assert(rest[j] == heap[j]);
        } else {
            assert(rest[j] == heap[j + 1]);
        }
    }
    if w != m {
        let u = if w < m {
            w
        } else {
            w - 1
        };
        assert(rest[u] == heap[w]);
        assert(agreed(v, g, f, rest));
    }
}

/// The search over boxes does not call a box safe that holds an input with a negative output.
proof fn lemma_boxes_find<S: Scalar>(
    v: spec_fn(S) -> real,
    g: GraphV<S>,
    inputs: Seq<IBPV<S>>,
    config: BaBConfig<S>,
    x: TensorV<S>,
)
    requires
        exact::exact(v),
        inputs.len() == 1,
        containment::inside(v, inputs[0].ub, inputs[0]),
        input_verdicts::batches_hold(v, g, inputs),
        containment::inside(v, x, inputs[0]),
        input_verdicts::violates(g, seq![x]),
    ensures
        input_splitting::input_verdict(g, inputs, UniformSplit {  }, config) != Ok::<
            VerdictV<S>,
            Fault,
        >(VerdictV::Safe),
{
    input_verdicts::lemma_halves_cover::<S>(v);
    let ends = input_splitting::upper_ends(inputs);
    assert(input_verdicts::in_box(v, ends, inputs)) by {
        assert(ends[0] == inputs[0].ub);
    }
    input_verdicts::lemma_input_verdict_sound(v, g, inputs, UniformSplit {  }, config);
    assert(input_verdicts::in_box(v, seq![x], inputs));
}

/// A search that has an input with a negative output does not end safe.
proof fn lemma_search_finds<S: Scalar, P: NodeSplit<S>>(
    v: spec_fn(S) -> real,
    g: GraphV<S>,
    e: Map<Seq<char>, IBPV<S>>,
    inputs: Seq<IBPV<S>>,
    split: P,
    config: BaBConfig<S>,
    heap: Seq<NodeV<S>>,
    fuel: nat,
    x: TensorV<S>,
    f: Map<Seq<char>, TensorV<S>>,
)
    requires
        exact::exact(v),
        inputs.len() == 1,
        tractable(v, g, inputs[0], e),
        keeps_shapes(g, e, inputs[0]),
        forks_cover(v, g, split),
        forks_fit(g, split),
        input_verdicts::batches_hold(v, g, inputs),
        happens(v, g, inputs[0], x, f),
        input_verdicts::violates(g, seq![x]),
        all_right(v, g, e, x, f, heap),
        agreed(v, g, f, heap),
    ensures
        node_splitting::node_searched(g, e, inputs, split, config, heap, fuel) != Ok::<
            VerdictV<S>,
            Fault,
        >(VerdictV::Safe),
    decreases fuel,
{
    if fuel > 0 {
        let m = node_splitting::next_node(heap);
        lemma_next_negative(v, g, e, heap, x, f);
        let (node, rest) = (heap[m], heap.remove(m));
        let parts = split.parts(node.splits, node.scores);
        if parts.len() == 0 || node_splitting::decided(node.splits) {
            lemma_boxes_find(v, g, inputs, config, x);
        } else {
            assert(phases::fork_covers(v, f, g.equations, split, node.splits, node.scores));
            lemma_expanded(v, g, e, inputs[0], node.params, parts, rest, 0, x, f);
            let r = node_splitting::expanded(g, e, inputs[0], node.params, parts, rest, 0);
            if r is Ok && r->Ok_0 is Open {
                let next = r->Ok_0->Open_0;
                lemma_search_finds(
                    v,
                    g,
                    e,
                    inputs,
                    split,
                    config,
                    next,
                    (fuel - 1) as nat,
                    x,
                    f,
                );
            }
        }
    }
}

/// Names can be listed after one more.
proof fn lemma_listed_insert<S>(m: Map<Seq<char>, TensorV<S>>, k: Seq<char>, t: TensorV<S>)
    requires
        phases::listed(m),
    ensures
        phases::listed(m.insert(k, t)),
{
    let names = env::sorted_names(m);
    let n = m.insert(k, t);
    if m.dom().contains(k) {
        assert(n.dom() =~= m.dom());
        assert(env::lists(names, n));
        env::lemma_sorted_names(names, n);
    } else {
        let i = lemma_gap(names, k, names.len());
        let more = names.insert(i, k);
        assert(env::ascending(more)) by {
            assert forall|a: int, b: int| 0 <= a < b < more.len() implies crate::text::precedes(
                #[trigger] more[a],
                #[trigger] more[b],
            ) by {
                if a != i && b != i {
                    let (c, d) = (
                        if a < i {
                            a
                        } else {
                            a - 1
                        },
                        if b < i {
                            b
                        } else {
                            b - 1
                        },
                    );
                    assert(crate::text::precedes(names[c], names[d]));
                } else if b == i {
                    assert(more[a] == names[a]);
                } else {
                    assert(more[b] == names[b - 1]);
                }
            }
        }
        assert(env::lists(more, n)) by {
            assert forall|l: Seq<char>| env::named(more, l) <==> #[trigger] n.dom().contains(l) by {
                if env::named(more, l) && l != k {
                    let a = env::place(more, l);
                    let c = if a < i {
                        a
                    } else {
                        a - 1
                    };
                    assert(names[c] == l);
                    assert(env::named(names, l));
                }
                if n.dom().contains(l) {
                    if l == k {
                        assert(more[i] == k);
                    } else {
                        assert(env::named(names, l));
                        let a = env::place(names, l);
                        let c = if a < i {
                            a
                        } else {
                            a + 1
                        };
                        assert(more[c] == l);
                    }
                }
            }
        }
        env::lemma_sorted_names(more, n);
    }
}

/// The place of a new name among the first `k` of ascending names.
proof fn lemma_gap(names: Seq<Seq<char>>, name: Seq<char>, k: nat) -> (i: int)
    requires
        env::ascending(names),
        k <= names.len(),
        !env::named(names, name),
    ensures
        0 <= i <= k,
        forall|j: int| 0 <= j < i ==> crate::text::precedes(#[trigger] names[j], name),
        forall|j: int| i <= j < k ==> crate::text::precedes(name, #[trigger] names[j]),
    decreases k,
{
    if k == 0 {
        0
    } else {
        let i = lemma_gap(names, name, (k - 1) as nat);
        crate::text::lemma_precedes_total(names[k - 1], name);
        if names[k - 1] == name {
            assert(env::named(names, name));
        }
        if crate::text::precedes(names[k - 1], name) {
            assert forall|j: int| 0 <= j < k implies crate::text::precedes(
                #[trigger] names[j],
                name,
            ) by {
                if i <= j < k - 1 {
                    assert(crate::text::precedes(names[j], names[k - 1]));
                    assert(crate::text::precedes(name, names[j]));
                    crate::text::lemma_precedes_trans(name, names[j], names[k - 1]);
                    crate::text::lemma_precedes_trans(name, names[k - 1], name);
                    crate::text::lemma_precedes_total(name, name);
                }
            }
            k as int
        } else {
            i
        }
    }
}

/// The undecided splits can be listed, and every input agrees with them.
proof fn lemma_open_splits<S: Scalar>(
    v: spec_fn(S) -> real,
    g: GraphV<S>,
    e: Map<Seq<char>, IBPV<S>>,
    f: Map<Seq<char>, TensorV<S>>,
    k: nat,
)
    requires
        exact::exact(v),
        soundness::all_shaped(f, g.invars[0], g.equations),
        support::distinct(g.invars[0].name, g.equations),
        containment::all_inside(v, f, e),
        k <= g.equations.len(),
    ensures
        node_splitting::open_splits(g.equations, e, k) matches Ok(m) ==> phases::listed(m)
            && phases::agrees(v, f, g.equations, m),
    decreases k,
{
    let eqns = g.equations;
    if k == 0 {
        let m = Map::<Seq<char>, TensorV<S>>::empty();
        assert(env::lists(Seq::<Seq<char>>::empty(), m));
        env::lemma_sorted_names(Seq::<Seq<char>>::empty(), m);
        assert forall|j: int| 0 <= j < eqns.len() implies #[trigger] phases::phase_agrees(
            v,
            f,
            eqns,
            m,
            j,
        ) by {}
    } else {
        lemma_open_splits(v, g, e, f, (k - 1) as nat);
        let before = node_splitting::open_splits(eqns, e, (k - 1) as nat);
        let after = node_splitting::open_splits(eqns, e, k);
        if before is Ok && after is Ok {
            let (m, n) = (before->Ok_0, after->Ok_0);
            if let PrimV::Un(UnOpV::Relu, a) = eqns[k - 1].prim {
                let name = eqns[k - 1].out.name;
                let c = crown::bounds_of(e, a)->Ok_0;
                let zeros = model::filled(c.lb.shape, scalar::zero::<S>());
                lemma_listed_insert(m, name, zeros);
                exact::lemma_numbers(v);
                assert forall|j: int| 0 <= j < eqns.len() implies #[trigger] phases::phase_agrees(
                    v,
                    f,
                    eqns,
                    n,
                    j,
                ) by {
                    assert(phases::phase_agrees(v, f, eqns, m, j));
                    if j == k - 1 {
                        assert(nn::operands_of(eqns[j].prim)[0] == a);
                        assert(support::shaped(f, a));
                        let d = soundness::lemma_operand_inside(v, f, e, a);
                        let x = support::meant(f, a);
                        assert forall|t: int| 0 <= t < zeros.data.len() implies 0real <= v(
                            #[trigger] zeros.data[t],
                        ) * v(x.data[t]) by {
                            exact::lemma_units(v(x.data[t]), v(x.data[t]));
                        }
                        assert(phases::signs_agree(v, zeros, x));
                    } else if j < k - 1 {
                        assert(support::variable(g.invars[0].name, eqns, j + 1)
                            != support::variable(g.invars[0].name, eqns, k as int));
                    } else {
                        assert(support::variable(g.invars[0].name, eqns, k as int)
                            != support::variable(g.invars[0].name, eqns, j + 1));
                    }
                }
            }
        }
    }
}

/// Where branch and bound over the phases of rectifiers says that a box is safe, no input in the
/// box has a negative output.
pub proof fn lemma_safe_is_safe<S: Scalar, P: NodeSplit<S>>(
    v: spec_fn(S) -> real,
    g: GraphV<S>,
    e: Map<Seq<char>, IBPV<S>>,
    inputs: Seq<IBPV<S>>,
    split: P,
    config: BaBConfig<S>,
    x: TensorV<S>,
)
    requires
        exact::exact(v),
        inputs.len() == 1,
        tractable(v, g, inputs[0], e),
        keeps_shapes(g, e, inputs[0]),
        forks_cover(v, g, split),
        forks_fit(g, split),
        input_verdicts::batches_hold(v, g, inputs),
        containment::inside(v, x, inputs[0]),
        node_splitting::node_verdict(g, inputs, split, config) == Ok::<VerdictV<S>, Fault>(
            VerdictV::Safe,
        ),
    ensures
        !input_verdicts::violates(g, seq![x]),
{
    if input_verdicts::violates(g, seq![x]) {
        let f = eval::environment::<S, Tensor<S>>((), g, seq![x]).1->Ok_0;
        assert(happens(v, g, inputs[0], x, f));
        lemma_all_inside(v, g, inputs[0], e, x, f);
        lemma_open_splits(v, g, e, f, g.equations.len());
        let splits = node_splitting::open_splits(g.equations, e, g.equations.len())->Ok_0;
        let none = node_splitting::no_params::<S>();
        let root = node_splitting::bounded(g, e, inputs[0], splits, none)->Ok_0;
        lemma_no_params_fit(g, e);
        lemma_bounded(v, g, e, inputs[0], splits, none, root, x, f);
        let heap = seq![root];
        assert(heap[0] == root);
        lemma_search_finds(
            v,
            g,
            e,
            inputs,
            split,
            config,
            heap,
            config.max_iters as nat,
            x,
            f,
        );
    }
}

// ---- counterexamples ----
/// The smallest of some elements is negative only where one of them is.
proof fn lemma_min_of<S: Scalar>(v: spec_fn(S) -> real, t: TensorV<S>, x: S, k: nat)
    requires
        exact::exact(v),
        k <= t.data.len(),
        v(bab::min_of(t.data, x, k)) < 0real,
    ensures
        v(x) < 0real || bab::some_negative(t),
    decreases k,
{
    exact::lemma_numbers(v);
    if k > 0 {
        if v(t.data[k - 1]) < 0real {
            assert(t.data[k - 1].less(scalar::zero()));
        } else {
            lemma_min_of(v, t, x, (k - 1) as nat);
        }
    }
}

/// The smallest element of some tensors is negative only where one of them has a negative one.
proof fn lemma_min_over<S: Scalar>(v: spec_fn(S) -> real, ts: Seq<TensorV<S>>, k: nat)
    requires
        exact::exact(v),
        k <= ts.len(),
        v(bab::min_over(ts, k)) < 0real,
    ensures
        exists|i: int| 0 <= i < ts.len() && bab::some_negative(#[trigger] ts[i]),
    decreases k,
{
    if k > 0 {
        let x = bab::min_over(ts, (k - 1) as nat);
        lemma_min_of(v, ts[k - 1], x, ts[k - 1].data.len());
        if v(x) < 0real {
            lemma_min_over(v, ts, (k - 1) as nat);
        }
    }
}

/// A corner that is reported lies in the box, and the graph has a negative output on it.
pub proof fn lemma_corner_violates<S: Scalar>(
    v: spec_fn(S) -> real,
    g: GraphV<S>,
    region: IBPV<S>,
    a: AffineV<TensorV<S>>,
    corner: TensorV<S>,
)
    requires
        exact::exact(v),
        containment::inside(v, region.ub, region),
        reals::full(a.weights),
        node_splitting::falsified(g, region, a) == Ok::<Option<TensorV<S>>, Fault>(Some(corner)),
    ensures
        containment::inside(v, corner, region),
        input_verdicts::violates(g, seq![corner]),
{
    exact::lemma_numbers(v);
    let ys = eval::evaluated::<S, Tensor<S>>((), g, seq![corner]).1->Ok_0;
    lemma_min_over(v, ys, ys.len());
    assert forall|k: int| 0 <= k < corner.data.len() implies v(region.lb.data[k]) <= v(
        #[trigger] corner.data[k],
    ) && v(corner.data[k]) <= v(region.ub.data[k]) by {
        assert(v(region.lb.data[k]) <= v(region.ub.data[k]));
    }
    assert(containment::below(v, region.lb, corner)) by {
        assert forall|k: int| 0 <= k < region.lb.data.len() implies v(
            #[trigger] region.lb.data[k],
        ) <= v(corner.data[k]) by {
            assert(v(corner.data[k]) <= v(region.ub.data[k]));
        }
    }
}

/// No parameters have wrong shapes where there are none.
proof fn lemma_no_params_fit<S: Scalar>(g: GraphV<S>, e: Map<Seq<char>, IBPV<S>>)
    ensures
        params_fit(e, g.equations, node_splitting::no_params::<S>()),
{
    let none = node_splitting::no_params::<S>();
    assert forall|j: int| 0 <= j < g.equations.len() implies #[trigger] fits_at(
        e,
        g.equations,
        none,
        j,
    ) by {}
}

/// Forking the best undecided neuron keeps the shapes of all signs.
pub proof fn lemma_smart_fits<S: Scalar>(g: GraphV<S>)
    ensures
        forks_fit::<S, SmartSplit>(g, SmartSplit {  }),
{
    let split = SmartSplit {  };
    let eqns = g.equations;
    assert forall|splits: Map<Seq<char>, TensorV<S>>, scores: Map<Seq<char>, TensorV<S>>, j: int|
        phases::listed(splits) && layer_params::signs_fit(eqns, splits) && 0 <= j < split.parts(
            splits,
            scores,
        ).len() implies {
        let part = #[trigger] split.parts(splits, scores)[j];
        phases::listed(part) && layer_params::signs_fit(eqns, part)
    } by {
        let part = node_splitting::forked(splits, scores)[j];
        let (a, b) = (node_splitting::flat(splits), node_splitting::flat(scores));
        let n = eval::shorter(a.len(), b.len());
        phases::lemma_fork_listed(splits, scores, j);
        node_splitting::lemma_best_open(a, b, n);
        assert forall|k: int|
            0 <= k < eqns.len() && part.dom().contains((#[trigger] eqns[k]).out.name) implies fills(
            part[eqns[k].out.name],
            eqns[k].out.shape,
        ) by {
            let name = eqns[k].out.name;
            assert(fills(splits[name], eqns[k].out.shape));
            if let Some(i) = node_splitting::best_open(a, b, n) {
                phases::lemma_one_changed(splits, i, scalar::one::<S>(), name);
                phases::lemma_one_changed(splits, i, scalar::num::<S>(-1), name);
            }
        }
    }
}

/// The names of the rectifiers can be listed.
pub proof fn lemma_open_listed<S: Scalar>(
    eqns: Seq<EqnV<S>>,
    e: Map<Seq<char>, IBPV<S>>,
    k: nat,
)
    requires
        k <= eqns.len(),
    ensures
        node_splitting::open_splits(eqns, e, k) matches Ok(m) ==> phases::listed(m),
    decreases k,
{
    if k == 0 {
        let m = Map::<Seq<char>, TensorV<S>>::empty();
        assert(env::lists(Seq::<Seq<char>>::empty(), m));
        env::lemma_sorted_names(Seq::<Seq<char>>::empty(), m);
    } else {
        lemma_open_listed(eqns, e, (k - 1) as nat);
        if let Ok(m) = node_splitting::open_splits(eqns, e, (k - 1) as nat) {
            if let PrimV::Un(UnOpV::Relu, a) = eqns[k - 1].prim {
                if let Ok(c) = crown::bounds_of(e, a) {
                    lemma_listed_insert(
                        m,
                        eqns[k - 1].out.name,
                        model::filled(c.lb.shape, scalar::zero::<S>()),
                    );
                }
            }
        }
    }
}

/// Forking the best undecided neuron covers all inputs of a graph whose variables have names of
/// their own.
pub proof fn lemma_smart_covers<S: Scalar>(v: spec_fn(S) -> real, g: GraphV<S>)
    requires
        exact::exact(v),
        g.invars.len() > 0,
        support::distinct(g.invars[0].name, g.equations),
    ensures
        forks_cover::<S, SmartSplit>(v, g, SmartSplit {  }),
{
    assert forall|
        f: Map<Seq<char>, TensorV<S>>,
        splits: Map<Seq<char>, TensorV<S>>,
        scores: Map<Seq<char>, TensorV<S>>,
    |
        phases::listed(splits) implies #[trigger] phases::fork_covers(
        v,
        f,
        g.equations,
        SmartSplit {  },
        splits,
        scores,
    ) by {
        phases::lemma_fork_covers(v, f, g.invars[0].name, g.equations, splits, scores);
    }
}

/// Whether the signs and parameters of all nodes of a list have the shapes of their rectifiers.
pub open spec fn all_fit<S: Scalar>(
    g: GraphV<S>,
    e: Map<Seq<char>, IBPV<S>>,
    heap: Seq<NodeV<S>>,
) -> bool {
    forall|j: int|
        0 <= j < heap.len() ==> params_fit(e, g.equations, (#[trigger] heap[j]).params)
            && layer_params::signs_fit(g.equations, heap[j].splits) && phases::listed(
            heap[j].splits,
        )
}

/// What the parts from number `i` on report is right.
proof fn lemma_expanded_reports<S: Scalar>(
    v: spec_fn(S) -> real,
    g: GraphV<S>,
    e: Map<Seq<char>, IBPV<S>>,
    inputs: Seq<IBPV<S>>,
    warm: PairV<S>,
    parts: Seq<Map<Seq<char>, TensorV<S>>>,
    heap: Seq<NodeV<S>>,
    i: nat,
)
    requires
        exact::exact(v),
        inputs.len() == 1,
        containment::inside(v, inputs[0].ub, inputs[0]),
        keeps_shapes(g, e, inputs[0]),
        forall|j: int|
            0 <= j < parts.len() ==> layer_params::signs_fit(g.equations, #[trigger] parts[j])
                && phases::listed(parts[j]),
        params_fit(e, g.equations, warm),
        all_fit(g, e, heap),
    ensures
        node_splitting::expanded(g, e, inputs[0], warm, parts, heap, i) matches Ok(
            NodeSearchV::Done(verdict),
        ) ==> input_verdicts::verdict_holds(v, g, inputs, verdict),
        node_splitting::expanded(g, e, inputs[0], warm, parts, heap, i) matches Ok(
            NodeSearchV::Open(next),
        ) ==> all_fit(g, e, next),
    decreases parts.len() - i,
{
    if i < parts.len() {
        let (region, part) = (inputs[0], parts[i as int]);
        if !node_splitting::feasible(g, region, part) {
            lemma_expanded_reports(v, g, e, inputs, warm, parts, heap, i + 1);
        } else {
            let r = node_splitting::bounded(g, e, region, part, warm);
            if r is Ok {
                let child = r->Ok_0;
                match node_splitting::falsified(g, region, child.affine) {
                    Ok(Some(corner)) => {
                        lemma_corner_violates(v, g, region, child.affine, corner);
                        assert(input_verdicts::in_box(v, seq![corner], inputs));
                    },
                    Ok(None) => {
                        let next = if child.lb.less(scalar::zero()) {
                            heap.push(child)
                        } else {
                            heap
                        };
                        assert(child.splits == part);
                        assert(all_fit(g, e, next));
                        lemma_expanded_reports(v, g, e, inputs, warm, parts, next, i + 1);
                    },
                    Err(_) => {},
                }
            }
        }
    }
}

/// What the search reports is right.
proof fn lemma_search_reports<S: Scalar, P: NodeSplit<S>>(
    v: spec_fn(S) -> real,
    g: GraphV<S>,
    e: Map<Seq<char>, IBPV<S>>,
    inputs: Seq<IBPV<S>>,
    split: P,
    config: BaBConfig<S>,
    heap: Seq<NodeV<S>>,
    fuel: nat,
)
    requires
        exact::exact(v),
        inputs.len() == 1,
        containment::inside(v, inputs[0].ub, inputs[0]),
        keeps_shapes(g, e, inputs[0]),
        forks_fit(g, split),
        all_fit(g, e, heap),
        input_verdicts::batches_hold(v, g, inputs),
    ensures
        node_splitting::node_searched(g, e, inputs, split, config, heap, fuel) matches Ok(verdict)
            ==> input_verdicts::verdict_holds(v, g, inputs, verdict),
    decreases fuel,
{
    if fuel > 0 && heap.len() > 0 {
        let m = node_splitting::next_node(heap);
        let (node, rest) = (heap[m], heap.remove(m));
        let parts = split.parts(node.splits, node.scores);
        input_verdicts::lemma_halves_cover::<S>(v);
        let ends = input_splitting::upper_ends(inputs);
        assert(input_verdicts::in_box(v, ends, inputs)) by {
            assert(ends[0] == inputs[0].ub);
        }
        input_verdicts::lemma_input_verdict_sound(v, g, inputs, UniformSplit {  }, config);
        bab::lemma_first_least(node_splitting::node_keys(heap), heap.len());
        assert(params_fit(e, g.equations, heap[m].params));
        assert forall|j: int| 0 <= j < rest.len() implies params_fit(
            e,
            g.equations,
            (#[trigger] rest[j]).params,
        ) && layer_params::signs_fit(g.equations, rest[j].splits) && phases::listed(
            rest[j].splits,
        ) by {
            assert(rest[j] == heap[j] || rest[j] == heap[j + 1]);
        }
        lemma_expanded_reports(v, g, e, inputs, node.params, parts, rest, 0);
        let r = node_splitting::expanded(g, e, inputs[0], node.params, parts, rest, 0);
        if r is Ok && r->Ok_0 is Open {
            lemma_search_reports(
                v,
                g,
                e,
                inputs,
                split,
                config,
                r->Ok_0->Open_0,
                (fuel - 1) as nat,
            );
        }
    }
}

/// An input that branch and bound over the phases of rectifiers reports lies in the box, and
/// where the graph has an output on it, one is negative.
pub proof fn lemma_unsafe_is_unsafe<S: Scalar, P: NodeSplit<S>>(
    v: spec_fn(S) -> real,
    g: GraphV<S>,
    e: Map<Seq<char>, IBPV<S>>,
    inputs: Seq<IBPV<S>>,
    split: P,
    config: BaBConfig<S>,
)
    requires
        exact::exact(v),
        inputs.len() == 1,
        g.invars.len() > 0,
        containment::inside(v, inputs[0].ub, inputs[0]),
        eval::forward::<S, IBPTensor<S>>((), g.equations, given(g, inputs[0]), 0).1 == Ok::<
            Map<Seq<char>, IBPV<S>>,
            Fault,
        >(e),
        keeps_shapes(g, e, inputs[0]),
        forks_fit(g, split),
        input_verdicts::batches_hold(v, g, inputs),
    ensures
        node_splitting::node_verdict(g, inputs, split, config) matches Ok(verdict)
            ==> input_verdicts::verdict_holds(v, g, inputs, verdict),
{
    let splits = node_splitting::open_splits(g.equations, e, g.equations.len());
    if splits is Ok {
        let none = node_splitting::no_params::<S>();
        let r = node_splitting::bounded(g, e, inputs[0], splits->Ok_0, none);
        if r is Ok {
            let root = r->Ok_0;
            lemma_no_params_fit(g, e);
            lemma_open_listed(g.equations, e, g.equations.len());
            assert(root.splits == splits->Ok_0);
            assert(all_fit(g, e, seq![root]));
            match node_splitting::falsified(g, inputs[0], root.affine) {
                Ok(Some(corner)) => {
                    lemma_corner_violates(v, g, inputs[0], root.affine, corner);
                    assert(input_verdicts::in_box(v, seq![corner], inputs));
                },
                Ok(None) => {
                    lemma_search_reports(
                        v,
                        g,
                        e,
                        inputs,
                        split,
                        config,
                        seq![root],
                        config.max_iters as nat,
                    );
                },
                Err(_) => {},
            }
        }
    }
}

} // verus!
