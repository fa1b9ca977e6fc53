//! In a network of layers where every result is used, each neuron gets a branching score, so branch
//! and bound over phases comes to an end.

use vstd::prelude::*;
use crate::bab::{BaBConfig, VerdictV};
use crate::beta_crown;
use crate::beta_crown::PairV;
use crate::containment;
use crate::crown;
use crate::crown::{ParamsV, SplittingV, StartV, WalkV};
use crate::env;
use crate::eval;
use crate::exact;
use crate::forking;
use crate::halving;
use crate::input_splitting;
use crate::input_splitting::UniformSplit;
use crate::interval::{IBPTensor, IBPV};
use crate::layer_params;
use crate::layer_verdicts;
use crate::layer_walk;
use crate::layer_walk::{fills, is_rectifier};
use crate::layered;
use crate::model::{Fault, TensorV};
use crate::nn;
use crate::nn::{AtomV, EqnV, GraphV};
use crate::node_splitting;
use crate::node_splitting::{NodeV, SmartSplit};
use crate::node_verdicts;
use crate::scalar::Scalar;
use crate::support;
use crate::tensor::Tensor;

verus! {

/// Whether the result of equation `j` is an operand of equation `i`.
pub open spec fn feeds<S>(eqns: Seq<EqnV<S>>, j: int, i: int) -> bool {
    exists|t: int|
        0 <= t < nn::operands_of(eqns[i].prim).len() && (#[trigger] nn::operands_of(
            eqns[i].prim,
        )[t]).value is None && nn::operands_of(eqns[i].prim)[t].name == eqns[j].out.name
}

/// Whether the result of equation `j` is an operand of a later equation.
pub open spec fn used<S>(eqns: Seq<EqnV<S>>, j: int) -> bool {
    exists|i: int| j < i < eqns.len() && #[trigger] feeds(eqns, j, i)
}

/// Whether every result but the last is an operand of a later equation.
pub open spec fn all_used<S>(eqns: Seq<EqnV<S>>) -> bool {
    forall|j: int| 0 <= j < eqns.len() - 1 ==> #[trigger] used(eqns, j)
}

/// Operands take over weights; scores stay.
proof fn lemma_absorbed_weights<S: Scalar>(
    at: WalkV<S, TensorV<S>>,
    atoms: Seq<AtomV<S>>,
    parts: Seq<TensorV<S>>,
    k: nat,
)
    requires
        k <= atoms.len(),
    ensures
        crown::absorbed_all::<S, Tensor<S>>((), at, atoms, parts, k).1 matches Ok(next) ==> {
            &&& next.scores == at.scores
            &&& forall|x: Seq<char>| #[trigger]
                at.weights.dom().contains(x) ==> next.weights.dom().contains(x)
            &&& forall|i: int|
                0 <= i < k && (#[trigger] atoms[i]).value is None
                    ==> next.weights.dom().contains(atoms[i].name)
        },
    decreases k,
{
    if k > 0 {
        lemma_absorbed_weights(at, atoms, parts, (k - 1) as nat);
    }
}

/// Whether the rectifiers from equation `k` on have scores of their shapes, and nothing else has
/// one.
pub open spec fn scores_hold<S: Scalar>(
    eqns: Seq<EqnV<S>>,
    scores: Map<Seq<char>, TensorV<S>>,
    k: int,
) -> bool {
    &&& forall|j: int|
        k <= j < eqns.len() && is_rectifier(eqns[j].prim) ==> scores.dom().contains(
            (#[trigger] eqns[j]).out.name,
        ) && fills(scores[eqns[j].out.name], eqns[j].out.shape)
    &&& forall|x: Seq<char>| #[trigger]
        scores.dom().contains(x) ==> rectifies(eqns, x)
}

/// Whether a name is that of the result of a rectifier.
pub open spec fn rectifies<S>(eqns: Seq<EqnV<S>>, x: Seq<char>) -> bool {
    exists|j: int|
        0 <= j < eqns.len() && is_rectifier(eqns[j].prim) && (#[trigger] eqns[j]).out.name == x
}

/// Whether the results before equation `k` that are operands from there on have weights.
pub open spec fn weights_wait<S>(
    eqns: Seq<EqnV<S>>,
    weights: Map<Seq<char>, TensorV<S>>,
    k: int,
) -> bool {
    &&& k == eqns.len() && k > 0 ==> weights.dom().contains(eqns[k - 1].out.name)
    &&& forall|j: int, i: int|
        0 <= j < k <= i < eqns.len() && #[trigger] feeds(eqns, j, i) ==> weights.dom().contains(
            eqns[j].out.name,
        )
}

/// One equation.
#[verifier::rlimit(40)]
proof fn lemma_step_scored<S: Scalar>(
    v: spec_fn(S) -> real,
    at: WalkV<S, TensorV<S>>,
    input: AtomV<S>,
    eqns: Seq<EqnV<S>>,
    e: Map<Seq<char>, IBPV<S>>,
    p: ParamsV<S, TensorV<S>>,
    k: int,
)
    requires
        exact::exact(v),
        0 < k <= eqns.len(),
        layer_walk::network(input, eqns, e),
        layer_walk::walk_ok::<S, Tensor<S>>((), at, input, eqns),
        layer_walk::params_ok::<S, Tensor<S>>((), eqns, p),
        p.splitting is Some,
        at.weights.dom().contains(eqns[k - 1].out.name),
        weights_wait(eqns, at.weights, k),
        scores_hold(eqns, at.scores, k),
    ensures
        crown::stepped::<S, Tensor<S>>((), at, eqns[k - 1], e, p).1 matches Ok(next) ==> {
            &&& layer_walk::walk_ok::<S, Tensor<S>>((), next, input, eqns)
            &&& weights_wait(eqns, next.weights, k - 1)
            &&& scores_hold(eqns, next.scores, k - 1)
        },
{
    let m = k - 1;
    let eqn = eqns[m];
    let (prim, out) = (eqn.prim, eqn.out);
    let r = crown::stepped::<S, Tensor<S>>((), at, eqn, e, p).1;
    if r is Ok {
        let next = r->Ok_0;
        layer_walk::lemma_stepped_ok::<S, Tensor<S>>(v, (), at, input, eqns, e, p, m);
        layer_walk::lemma_step_parts::<S, Tensor<S>>(v, (), at, input, eqns, e, p, m);
        assert(layered::layer_eqn(input, eqns, m));
        let w = at.weights[out.name];
        let rule = crown::crown_rule(prim, out, w.shape, e, p)->Ok_0;
        let ins = crown::crown_inputs::<S, Tensor<S>>(prim, out, w, p)->Ok_0;
        let parts = crate::vjp::applied::<S, Tensor<S>>((), rule, ins).1->Ok_0;
        let scores = crown::scored::<S, Tensor<S>>(prim, out, w, e, p, at.scores)->Ok_0;
        let atoms = nn::operands_of(prim);
        assert(parts.len() / 2 == atoms.len());
        let now = WalkV { scores, ..at };
        lemma_absorbed_weights(now, atoms, parts, atoms.len());
        assert(next.scores == scores);
        assert(weights_wait(eqns, next.weights, m)) by {
            assert forall|j: int, i: int|
                0 <= j < m && m <= i < eqns.len() && #[trigger] feeds(
                    eqns,
                    j,
                    i,
                ) implies next.weights.dom().contains(eqns[j].out.name) by {
                if i == m {
                    let t = choose|t: int|
                        0 <= t < nn::operands_of(eqns[i].prim).len() && (
                        #[trigger] nn::operands_of(eqns[i].prim)[t]).value is None
                            && nn::operands_of(eqns[i].prim)[t].name == eqns[j].out.name;
                    assert(atoms[t].value is None);
                    assert(next.weights.dom().contains(atoms[t].name));
                } else {
                    assert(0 <= j < k && k <= i);
                    assert(at.weights.dom().contains(eqns[j].out.name));
                    assert(now.weights.dom().contains(eqns[j].out.name));
                }
            }
        }
        assert forall|j: int| m <= j < eqns.len() && is_rectifier(eqns[j].prim) implies
            scores.dom().contains((#[trigger] eqns[j]).out.name) && fills(
            scores[eqns[j].out.name],
            eqns[j].out.shape,
        ) by {
            if j > m {
                assert(support::variable(input.name, eqns, m + 1) != support::variable(
                    input.name,
                    eqns,
                    j + 1,
                ));
            }
        }
        assert forall|x: Seq<char>| #[trigger] scores.dom().contains(x) implies rectifies(
            eqns,
            x,
        ) by {
            if !at.scores.dom().contains(x) {
                assert(is_rectifier(eqns[m].prim) && eqns[m].out.name == x);
            }
        }
    }
}

/// The whole walk.
proof fn lemma_walk_scored<S: Scalar>(
    v: spec_fn(S) -> real,
    at: WalkV<S, TensorV<S>>,
    input: AtomV<S>,
    eqns: Seq<EqnV<S>>,
    e: Map<Seq<char>, IBPV<S>>,
    p: ParamsV<S, TensorV<S>>,
    k: nat,
)
    requires
        exact::exact(v),
        k <= eqns.len(),
        all_used(eqns),
        layer_walk::network(input, eqns, e),
        layer_walk::walk_ok::<S, Tensor<S>>((), at, input, eqns),
        layer_walk::params_ok::<S, Tensor<S>>((), eqns, p),
        p.splitting is Some,
        weights_wait(eqns, at.weights, k as int),
        scores_hold(eqns, at.scores, k as int),
    ensures
        crown::walked::<S, Tensor<S>>((), at, eqns, k, e, p).1 matches Ok(end) ==> scores_hold(
            eqns,
            end.scores,
            0,
        ),
    decreases k,
{
    if k > 0 {
        let m = k - 1;
        if k < eqns.len() {
            assert(used(eqns, m));
        }
        assert(at.weights.dom().contains(eqns[m].out.name));
        lemma_step_scored(v, at, input, eqns, e, p, k as int);
        if let Ok(next) = crown::stepped::<S, Tensor<S>>((), at, eqns[m], e, p).1 {
            lemma_walk_scored(v, next, input, eqns, e, p, m as nat);
        }
    }
}

/// Mappings of the same names to tensors of the same sizes are lists of one length.
proof fn lemma_same_length<S>(
    a: Map<Seq<char>, TensorV<S>>,
    b: Map<Seq<char>, TensorV<S>>,
    names: Seq<Seq<char>>,
    k: nat,
)
    requires
        k <= names.len(),
        forall|i: int|
            0 <= i < names.len() ==> a[#[trigger] names[i]].data.len() == b[names[i]].data.len(),
    ensures
        node_splitting::flat_upto(a, names, k).len() == node_splitting::flat_upto(
            b,
            names,
            k,
        ).len(),
    decreases k,
{
    if k > 0 {
        lemma_same_length(a, b, names, (k - 1) as nat);
        assert(a[names[k - 1]].data.len() == b[names[k - 1]].data.len());
    }
}

/// The bound of a subproblem comes with a score for each neuron.
proof fn lemma_bounded_scored<S: Scalar>(
    v: spec_fn(S) -> real,
    g: GraphV<S>,
    e: Map<Seq<char>, IBPV<S>>,
    region: IBPV<S>,
    splits: Map<Seq<char>, TensorV<S>>,
    warm: PairV<S>,
    node: NodeV<S>,
    keys: Set<Seq<char>>,
)
    requires
        exact::exact(v),
        layered::layered(g),
        all_used(g.equations),
        layered::spans_hold(e, g.invars[0], g.equations, g.equations.len() as int),
        forking::decides(g, splits, keys),
        keys == Set::new(|x: Seq<char>| rectifies(g.equations, x)),
        node_verdicts::params_fit(e, g.equations, warm),
        node_splitting::bounded(g, e, region, splits, warm) == Ok::<NodeV<S>, Fault>(node),
    ensures
        node_splitting::flat(splits).len() <= node_splitting::flat(node.scores).len(),
{
    let (input, eqns) = (g.invars[0], g.equations);
    let p = beta_crown::seeded(eqns, e, warm, eqns.len())->Ok_0;
    layer_verdicts::lemma_fits(v, g, e, warm);
    layer_verdicts::lemma_seeded_fit(v, g, e, warm, eqns.len());
    layer_params::lemma_best_pair_fits(v, g, e, splits, p);
    let q = beta_crown::best_pair(g, e, splits, p, StartV::Last)->Ok_0;
    let biases = beta_crown::all_fed_by(eqns, e, eqns.len())->Ok_0;
    let params = ParamsV {
        alphas: q.alphas,
        splitting: Some(SplittingV { betas: q.betas, splits, biases }),
    };
    assert forall|j: int| 0 <= j < eqns.len() && is_rectifier(eqns[j].prim) implies #[trigger]
        layer_walk::param_ok::<S, Tensor<S>>((), eqns[j], params) by {
        assert(layer_params::pair_fits_at(eqns, q, j));
    }
    let n = eqns.len();
    let out = eqns[n - 1].out;
    let at = crown::departed::<S, Tensor<S>>(out);
    layer_walk::lemma_departed_ok::<S, Tensor<S>>((), g);
    assert(weights_wait(eqns, at.weights, n as int));
    assert(scores_hold(eqns, at.scores, n as int));
    assert(layer_walk::network(input, eqns, e));
    lemma_walk_scored(v, at, input, eqns, e, params, n);
    let scores = node.scores;
    assert(scores_hold(eqns, scores, 0));
    let names = env::sorted_names(splits);
    assert(scores.dom() =~= splits.dom()) by {
        assert forall|x: Seq<char>| splits.dom().contains(x) implies scores.dom().contains(x) by {
            assert(rectifies(eqns, x));
            let j = choose|j: int|
                0 <= j < eqns.len() && is_rectifier(eqns[j].prim) && (#[trigger] eqns[j]).out.name
                    == x;
            assert(scores.dom().contains(eqns[j].out.name));
        }
        assert forall|x: Seq<char>| scores.dom().contains(x) implies splits.dom().contains(x) by {
            assert(rectifies(eqns, x));
        }
    }
    assert(env::lists(names, scores));
    env::lemma_sorted_names(names, scores);
    assert forall|i: int| 0 <= i < names.len() implies splits[#[trigger] names[i]].data.len()
        == scores[names[i]].data.len() by {
        assert(env::named(names, names[i]));
        assert(splits.dom().contains(names[i]));
        let j = choose|j: int|
            0 <= j < eqns.len() && is_rectifier(eqns[j].prim) && (#[trigger] eqns[j]).out.name
                == names[i];
        assert(fills(splits[eqns[j].out.name], eqns[j].out.shape));
        assert(fills(scores[eqns[j].out.name], eqns[j].out.shape));
    }
    lemma_same_length(splits, scores, names, names.len());
}

/// The rectifiers of a graph are the names of the splits that its search starts with.
proof fn lemma_open_names<S: Scalar>(eqns: Seq<EqnV<S>>, e: Map<Seq<char>, IBPV<S>>, k: nat)
    requires
        k <= eqns.len(),
    ensures
        node_splitting::open_splits(eqns, e, k) matches Ok(m) ==> {
            &&& forall|x: Seq<char>| #[trigger] m.dom().contains(x) ==> rectifies(eqns, x)
            &&& forall|j: int|
                0 <= j < k && is_rectifier(eqns[j].prim) ==> m.dom().contains(
                    (#[trigger] eqns[j]).out.name,
                )
        },
    decreases k,
{
    if k > 0 {
        lemma_open_names(eqns, e, (k - 1) as nat);
        if let Ok(m) = node_splitting::open_splits(eqns, e, k) {
            assert forall|x: Seq<char>| #[trigger] m.dom().contains(x) implies rectifies(eqns, x) by {
                let before = node_splitting::open_splits(eqns, e, (k - 1) as nat)->Ok_0;
                if !before.dom().contains(x) {
                    assert(is_rectifier(eqns[k - 1].prim) && eqns[k - 1].out.name == x);
                }
            }
        }
    }
}

/// Branch and bound over the phases of rectifiers comes to an end on every network of layers in
/// which all results are used. With more rounds than subproblems can come up by deciding its
/// neurons one after the other, the search is undecided only if branch and bound over boxes is
/// undecided on the same network, box and configuration.
pub proof fn lemma_node_splitting_decides<S: Scalar>(
    v: spec_fn(S) -> real,
    g: GraphV<S>,
    region: IBPV<S>,
    config: BaBConfig<S>,
)
    requires
        exact::exact(v),
        layered::layered(g),
        all_used(g.equations),
        layered::spans(region, g.invars[0].shape),
        ({
            let e = eval::forward::<S, IBPTensor<S>>(
                (),
                g.equations,
                node_verdicts::given(g, region),
                0,
            ).1->Ok_0;
            node_splitting::open_splits(g.equations, e, g.equations.len()) matches Ok(splits)
                ==> config.max_iters > halving::family(forking::open_count(splits))
        }),
    ensures
        node_splitting::node_verdict(g, seq![region], SmartSplit {  }, config) == Ok::<
            VerdictV<S>,
            Fault,
        >(VerdictV::Undecided) ==> input_splitting::input_verdict(
            g,
            seq![region],
            UniformSplit {  },
            config,
        ) == Ok::<VerdictV<S>, Fault>(VerdictV::Undecided),
{
    let inputs = seq![region];
    let eqns = g.equations;
    layered::lemma_layers_bound(v, g, region);
    let e = eval::forward::<S, IBPTensor<S>>((), eqns, node_verdicts::given(g, region), 0).1->Ok_0;
    if let Ok(splits) = node_splitting::open_splits(eqns, e, eqns.len()) {
        node_verdicts::lemma_open_listed(eqns, e, eqns.len());
        layer_verdicts::lemma_open_fit(v, g, e, eqns.len());
        lemma_open_names(eqns, e, eqns.len());
        layer_verdicts::lemma_layers_keep(v, g, e, region);
        let keys = Set::new(|x: Seq<char>| rectifies(eqns, x));
        assert(splits.dom() =~= keys) by {
            assert forall|x: Seq<char>| keys.contains(x) implies splits.dom().contains(x) by {
                let j = choose|j: int|
                    0 <= j < eqns.len() && is_rectifier(eqns[j].prim) && (
                    #[trigger] eqns[j]).out.name == x;
                assert(splits.dom().contains(eqns[j].out.name));
            }
        }
        assert forall|some: Map<Seq<char>, TensorV<S>>, warm: PairV<S>|
            forking::decides(g, some, keys) && node_verdicts::params_fit(e, eqns, warm) implies (
        #[trigger] node_splitting::bounded(g, e, region, some, warm) matches Ok(node)
            ==> node_splitting::flat(some).len() <= node_splitting::flat(node.scores).len()
            && node_verdicts::params_fit(e, eqns, node.params)) by {
            if let Ok(node) = node_splitting::bounded(g, e, region, some, warm) {
                lemma_bounded_scored(v, g, e, region, some, warm, node, keys);
            }
        }
        forking::lemma_forking_decides(v, g, e, inputs, splits, config);
    }
}

/// Both searches together: on a network of layers in which all results are used, with enough
/// rounds and a smallest width above zero, branch and bound over phases is undecided only where
/// some part of the box that is narrower than the smallest width has bounds that leave it open.
pub proof fn lemma_searches_decide<S: Scalar>(
    v: spec_fn(S) -> real,
    g: GraphV<S>,
    region: IBPV<S>,
    config: BaBConfig<S>,
    hs: Seq<nat>,
)
    requires
        exact::exact(v),
        layered::layered(g),
        all_used(g.equations),
        layered::spans(region, g.invars[0].shape),
        containment::inside(v, region.ub, region),
        config.batch_size >= 1,
        0real < v(config.min_width),
        v(S::bottom()) < v(config.min_width),
        halving::cuts_suffice(v, seq![region], v(config.min_width), hs),
        config.max_iters > halving::family(halving::total(hs, hs.len())),
        ({
            let e = eval::forward::<S, IBPTensor<S>>(
                (),
                g.equations,
                node_verdicts::given(g, region),
                0,
            ).1->Ok_0;
            node_splitting::open_splits(g.equations, e, g.equations.len()) matches Ok(splits)
                ==> config.max_iters > halving::family(forking::open_count(splits))
        }),
    ensures
        node_splitting::node_verdict(g, seq![region], SmartSplit {  }, config) == Ok::<
            VerdictV<S>,
            Fault,
        >(VerdictV::Undecided) ==> halving::stuck(
            v,
            g,
            seq![region],
            v(config.min_width),
        ),
{
    lemma_node_splitting_decides(v, g, region, config);
    halving::lemma_halving_decides(v, g, region, config, hs);
}

} // verus!
