//! Branch and bound over the phases of rectifiers comes to an end: every fork decides one neuron
//! more, and where all are decided the verdict is that of branch and bound over boxes.

use vstd::prelude::*;
use crate::affine;
use crate::bab;
use crate::bab::{BaBConfig, VerdictV};
use crate::beta_crown::PairV;
use crate::env;
use crate::eval;
use crate::exact;
use crate::halving;
use crate::halving::family;
use crate::input_splitting;
use crate::input_splitting::UniformSplit;
use crate::interval::{IBPTensor, IBPV};
use crate::layer_params;
use crate::model::{Fault, TensorV, UnOpV};
use crate::nn::{EqnV, GraphV, PrimV};
use crate::node_splitting;
use crate::node_splitting::{NodeSearchV, NodeSplit, NodeV, SmartSplit};
use crate::node_verdicts;
use crate::phases;
use crate::scalar;
use crate::scalar::Scalar;

verus! {

// ---- leaves ----
/// The number of a node of a list than which no other comes first.
pub open spec fn comes_first<S: Scalar>(heap: Seq<NodeV<S>>, m: int) -> bool {
    &&& 0 <= m < heap.len()
    &&& forall|j: int| 0 <= j < heap.len() ==> !(#[trigger] heap[j]).lb.before(heap[m].lb)
    &&& forall|j: int| 0 <= j < m ==> heap[m].lb.before((#[trigger] heap[j]).lb)
}

/// Whether an order of numbers is strict and total, as far as comparing goes.
pub open spec fn strict_order<S: Scalar>() -> bool {
    &&& forall|a: S| !#[trigger] a.before(a)
    &&& forall|a: S, b: S, c: S|
        #![trigger a.before(b), b.before(c)]
        a.before(b) && b.before(c) ==> a.before(c)
    &&& forall|a: S, b: S, c: S|
        #![trigger a.before(b), c.before(b)]
        #![trigger a.before(b), a.before(c)]
        a.before(b) ==> a.before(c) || c.before(b)
}

/// The first of the first `k` numbers that none comes before.
pub(crate) proof fn lemma_first<S: Scalar>(keys: Seq<S>, k: nat)
    requires
        strict_order::<S>(),
        0 < k <= keys.len(),
    ensures
        ({
            let m = bab::first_least(keys, k);
            &&& 0 <= m < k
            &&& forall|j: int| 0 <= j < k ==> !(#[trigger] keys[j]).before(keys[m])
            &&& forall|j: int| 0 <= j < m ==> keys[m].before(#[trigger] keys[j])
        }),
    decreases k,
{
    if k > 1 {
        lemma_first(keys, (k - 1) as nat);
        let (i, m) = (bab::first_least(keys, (k - 1) as nat), bab::first_least(keys, k));
        if m == k - 1 {
            assert(keys[k - 1].before(keys[i]));
            assert forall|j: int| 0 <= j < k implies !(#[trigger] keys[j]).before(keys[m]) by {
                if j < k - 1 && keys[j].before(keys[m]) {
                    assert(keys[j].before(keys[i]));
                }
            }
            assert forall|j: int| 0 <= j < m implies keys[m].before(#[trigger] keys[j]) by {
                assert(!keys[j].before(keys[i]));
                assert(keys[m].before(keys[j]) || keys[j].before(keys[i]));
            }
        }
    }
}

/// The node that is searched next is the first of those with the smallest bound.
pub proof fn lemma_best_first<S: Scalar>(heap: Seq<NodeV<S>>)
    requires
        strict_order::<S>(),
        heap.len() > 0,
    ensures
        comes_first(heap, node_splitting::next_node(heap)),
{
    let keys = node_splitting::node_keys(heap);
    lemma_first(keys, heap.len());
    let m = node_splitting::next_node(heap);
    assert forall|j: int| 0 <= j < heap.len() implies !(#[trigger] heap[j]).lb.before(
        heap[m].lb,
    ) by {
        assert(!keys[j].before(keys[m]));
    }
    assert forall|j: int| 0 <= j < m implies heap[m].lb.before((#[trigger] heap[j]).lb) by {
        assert(keys[m].before(keys[j]));
    }
}

/// Where the search meets a node with a negative bound that cannot be split, since all its phases
/// are decided or it has no parts, the verdict is that of branch and bound over boxes, on the same
/// graph, box and configuration, whatever that verdict is.
pub proof fn lemma_leaf_splits_box<S: Scalar, P: NodeSplit<S>>(
    g: GraphV<S>,
    e: Map<Seq<char>, IBPV<S>>,
    inputs: Seq<IBPV<S>>,
    split: P,
    config: BaBConfig<S>,
    heap: Seq<NodeV<S>>,
    fuel: nat,
    m: int,
)
    requires
        strict_order::<S>(),
        fuel > 0,
        comes_first(heap, m),
        !scalar::zero::<S>().at_most(heap[m].lb),
        node_splitting::decided(heap[m].splits) || split.parts(
            heap[m].splits,
            heap[m].scores,
        ).len() == 0,
    ensures
        node_splitting::node_searched(g, e, inputs, split, config, heap, fuel)
            == input_splitting::input_verdict(g, inputs, UniformSplit {  }, config),
{
    lemma_best_first(heap);
    let n = node_splitting::next_node(heap);
    if n < m {
        assert(heap[m].lb.before(heap[n].lb));
    } else if m < n {
        assert(heap[n].lb.before(heap[m].lb));
    }
}

/// A graph without rectifiers has no phases to split.
proof fn lemma_no_phases<S: Scalar>(eqns: Seq<EqnV<S>>, e: Map<Seq<char>, IBPV<S>>, k: nat)
    requires
        k <= eqns.len(),
        forall|j: int| 0 <= j < eqns.len() ==> !((#[trigger] eqns[j]).prim matches PrimV::Un(
            UnOpV::Relu,
            _,
        )),
    ensures
        node_splitting::open_splits(eqns, e, k) == Ok::<Map<Seq<char>, TensorV<S>>, Fault>(
            Map::empty(),
        ),
    decreases k,
{
    if k > 0 {
        lemma_no_phases(eqns, e, (k - 1) as nat);
        assert(!(eqns[k - 1].prim matches PrimV::Un(UnOpV::Relu, _)));
    }
}

/// On a graph without rectifiers there is nothing to fork: the search reports a corner of the box,
/// finds that the bound of the whole box suffices, or gives the verdict of branch and bound over
/// boxes.
pub proof fn lemma_nothing_to_fork<S: Scalar, P: NodeSplit<S>>(
    g: GraphV<S>,
    inputs: Seq<IBPV<S>>,
    split: P,
    config: BaBConfig<S>,
)
    requires
        config.max_iters > 0,
        forall|j: int| 0 <= j < g.equations.len() ==> !((#[trigger] g.equations[j]).prim matches PrimV::Un(
            UnOpV::Relu,
            _,
        )),
    ensures
        node_splitting::node_verdict(g, inputs, split, config) matches Ok(verdict) ==> verdict
            is Safe || verdict is Unsafe || input_splitting::input_verdict(
            g,
            inputs,
            UniformSplit {  },
            config,
        ) == Ok::<VerdictV<S>, Fault>(verdict),
{
    if inputs.len() > 0 && g.invars.len() > 0 {
        let start = Map::<Seq<char>, IBPV<S>>::empty().insert(g.invars[0].name, inputs[0]);
        if let Ok(e) = eval::forward::<S, IBPTensor<S>>((), g.equations, start, 0).1 {
            lemma_no_phases(g.equations, e, g.equations.len());
            let none = Map::<Seq<char>, TensorV<S>>::empty();
            if let Ok(root) = node_splitting::bounded(
                g,
                e,
                inputs[0],
                none,
                node_splitting::no_params(),
            ) {
                assert(seq![root][0] == root);
                assert(node_splitting::decided(root.splits));
                assert(node_splitting::next_node(seq![root]) == 0);
            }
        }
    }
}

// ---- corners ----
/// Whether `c` is a corner of a box where an affine function of weights `w` is least: its elements
/// are lower ends where the weight is positive, and upper ends where it is negative.
pub open spec fn least_at<S: Scalar>(
    v: spec_fn(S) -> real,
    w: TensorV<S>,
    x: IBPV<S>,
    c: TensorV<S>,
) -> bool {
    &&& c.shape == x.lb.shape
    &&& c.data.len() == x.lb.data.len()
    &&& forall|k: int|
        0 <= k < c.data.len() ==> (c.data[k] == x.lb.data[k] || c.data[k] == x.ub.data[k]) && (v(
            w.data[k],
        ) > 0real ==> #[trigger] c.data[k] == x.lb.data[k]) && (v(w.data[k]) < 0real ==> c.data[k]
            == x.ub.data[k])
}

/// The corner that is tried is one where the affine function is least.
pub proof fn lemma_corner_least<S: Scalar>(v: spec_fn(S) -> real, w: TensorV<S>, x: IBPV<S>)
    requires
        exact::exact(v),
        w.shape == x.lb.shape,
        x.ub.shape == x.lb.shape,
        w.data.len() == x.lb.data.len(),
        x.ub.data.len() == x.lb.data.len(),
    ensures
        least_at(v, w, x, affine::least_corner(w, x.lb, x.ub)),
{
    exact::lemma_numbers(v);
}

/// The smallest of some numbers is negative where one of them is.
proof fn lemma_smallest<S: Scalar>(v: spec_fn(S) -> real, data: Seq<S>, x: S, k: nat, j: int)
    requires
        exact::exact(v),
        k <= data.len(),
    ensures
        v(bab::min_of(data, x, k)) <= v(x),
        0 <= j < k ==> v(bab::min_of(data, x, k)) <= v(data[j]),
    decreases k,
{
    if k > 0 {
        lemma_smallest(v, data, x, (k - 1) as nat, j);
    }
}

/// The smallest of the elements of some tensors is negative where one of them is.
proof fn lemma_smallest_over<S: Scalar>(v: spec_fn(S) -> real, ts: Seq<TensorV<S>>, k: nat, i: int)
    requires
        exact::exact(v),
        0 <= i < k <= ts.len(),
        bab::some_negative(ts[i]),
    ensures
        bab::min_over(ts, k).less(scalar::zero()),
    decreases k,
{
    exact::lemma_numbers(v);
    let t = ts[k - 1].data;
    let before = bab::min_over(ts, (k - 1) as nat);
    if i < k - 1 {
        lemma_smallest_over(v, ts, (k - 1) as nat, i);
        lemma_smallest(v, t, before, t.len(), 0);
    } else {
        let j = choose|j: int| 0 <= j < t.len() && (#[trigger] t[j]).less(scalar::zero());
        lemma_smallest(v, t, before, t.len(), j);
    }
}

/// A box with a negative output at the corner where the bound of the whole box is least is found
/// unsafe, by that corner, however few rounds there are.
pub proof fn lemma_corner_found<S: Scalar, P: NodeSplit<S>>(
    v: spec_fn(S) -> real,
    g: GraphV<S>,
    e: Map<Seq<char>, IBPV<S>>,
    inputs: Seq<IBPV<S>>,
    splits: Map<Seq<char>, TensorV<S>>,
    root: NodeV<S>,
    split: P,
    config: BaBConfig<S>,
)
    requires
        exact::exact(v),
        inputs.len() > 0,
        g.invars.len() > 0,
        eval::forward::<S, IBPTensor<S>>(
            (),
            g.equations,
            Map::<Seq<char>, IBPV<S>>::empty().insert(g.invars[0].name, inputs[0]),
            0,
        ).1 == Ok::<Map<Seq<char>, IBPV<S>>, Fault>(e),
        node_splitting::open_splits(g.equations, e, g.equations.len()) == Ok::<
            Map<Seq<char>, TensorV<S>>,
            Fault,
        >(splits),
        node_splitting::bounded(g, e, inputs[0], splits, node_splitting::no_params()) == Ok::<
            NodeV<S>,
            Fault,
        >(root),
        inputs[0].lb.shape == root.affine.weights.shape,
        crate::input_verdicts::violates(
            g,
            seq![affine::least_corner(root.affine.weights, inputs[0].lb, inputs[0].ub)],
        ),
    ensures
        node_splitting::node_verdict(g, inputs, split, config) == Ok::<VerdictV<S>, Fault>(
            VerdictV::Unsafe(
                seq![affine::least_corner(root.affine.weights, inputs[0].lb, inputs[0].ub)],
            ),
        ),
{
    let c = affine::least_corner(root.affine.weights, inputs[0].lb, inputs[0].ub);
    let ys = eval::evaluated::<S, crate::tensor::Tensor<S>>((), g, seq![c]).1->Ok_0;
    let i = choose|i: int| 0 <= i < ys.len() && bab::some_negative(#[trigger] ys[i]);
    lemma_smallest_over(v, ys, ys.len(), i);
}

// ---- how many neurons are open ----
/// The number of undecided neurons among the first `k`.
pub open spec fn open_among<S: Scalar>(a: Seq<S>, k: nat) -> nat
    decreases k,
{
    if k == 0 {
        0
    } else {
        open_among(a, (k - 1) as nat) + (if a[k - 1].same(scalar::zero()) {
            1nat
        } else {
            0nat
        })
    }
}

/// The number of undecided neurons.
pub open spec fn open_count<S: Scalar>(splits: Map<Seq<char>, TensorV<S>>) -> nat {
    let a = node_splitting::flat(splits);
    open_among(a, a.len())
}

/// One neuron less is undecided.
proof fn lemma_one_decided<S: Scalar>(a: Seq<S>, i: int, x: S, k: nat)
    requires
        0 <= i < a.len(),
        k <= a.len(),
        a[i].same(scalar::zero()),
        !x.same(scalar::zero()),
    ensures
        open_among(a.update(i, x), k) == (if i < k {
            open_among(a, k) - 1
        } else {
            open_among(a, k) as int
        }),
        i < k ==> open_among(a, k) > 0,
    decreases k,
{
    if k > 0 {
        lemma_one_decided(a, i, x, (k - 1) as nat);
    }
}

/// Tensors that a list makes up are that list.
proof fn lemma_relisted_upto<S>(
    m: Map<Seq<char>, TensorV<S>>,
    w: Seq<S>,
    k: nat,
)
    requires
        phases::listed(m),
        w.len() == node_splitting::flat(m).len(),
        k <= env::sorted_names(m).len(),
    ensures
        ({
            let names = env::sorted_names(m);
            let n = node_splitting::flat_upto(m, names, k).len() as int;
            &&& n <= w.len()
            &&& node_splitting::flat_upto(node_splitting::unflat(w, m), names, k) == w.subrange(
                0,
                n,
            )
        }),
    decreases k,
{
    let names = env::sorted_names(m);
    let r = node_splitting::unflat(w, m);
    node_splitting::lemma_flat_monotone(m, names, k, names.len());
    if k > 0 {
        lemma_relisted_upto(m, w, (k - 1) as nat);
        let key = names[k - 1];
        env::lemma_place(names, k - 1);
        assert(env::named(names, key));
        assert(m.dom().contains(key));
        let o = node_splitting::offset(m, key);
        assert(o == node_splitting::flat_upto(m, names, (k - 1) as nat).len());
        let n = node_splitting::flat_upto(m, names, k).len() as int;
        assert(n == o + m[key].data.len());
        assert(r[key].data == w.subrange(o, n));
        assert(w.subrange(0, o) + w.subrange(o, n) =~= w.subrange(0, n));
    } else {
        assert(w.subrange(0, 0) =~= Seq::<S>::empty());
    }
}

/// Tensors that a list makes up are that list.
pub(crate) proof fn lemma_relisted<S>(m: Map<Seq<char>, TensorV<S>>, w: Seq<S>)
    requires
        phases::listed(m),
        w.len() == node_splitting::flat(m).len(),
    ensures
        node_splitting::flat(node_splitting::unflat(w, m)) == w,
        phases::listed(node_splitting::unflat(w, m)),
{
    let names = env::sorted_names(m);
    let r = node_splitting::unflat(w, m);
    assert(r.dom() =~= m.dom());
    assert(env::lists(names, r));
    env::lemma_sorted_names(names, r);
    lemma_relisted_upto(m, w, names.len());
    assert(w.subrange(0, w.len() as int) =~= w);
}

/// Where some neuron is undecided, one is forked: the two parts decide it either way and leave the
/// others as they are.
proof fn lemma_some_open<S: Scalar>(splits: Seq<S>, scores: Seq<S>, k: nat, i: int)
    requires
        0 <= i < k,
        splits[i].same(scalar::zero()),
    ensures
        node_splitting::best_open(splits, scores, k) is Some,
    decreases k,
{
    if i < k - 1 {
        lemma_some_open(splits, scores, (k - 1) as nat, i);
    }
}

/// An undecided neuron stands in the list of all.
proof fn lemma_undecided_listed<S: Scalar>(m: Map<Seq<char>, TensorV<S>>) -> (i: int)
    requires
        phases::listed(m),
        !node_splitting::decided(m),
    ensures
        0 <= i < node_splitting::flat(m).len(),
        node_splitting::flat(m)[i].same(scalar::zero()),
{
    let (k, j) = choose|k: Seq<char>, j: int|
        #![trigger m[k].data[j]]
        m.dom().contains(k) && 0 <= j < m[k].data.len() && m[k].data[j].same(scalar::zero());
    phases::lemma_offset(m, k);
    let i = node_splitting::offset(m, k) + j;
    assert(node_splitting::flat(m)[i] == m[k].data[j]);
    i
}

/// A fork decides one neuron more.
proof fn lemma_fork_decides<S: Scalar>(
    v: spec_fn(S) -> real,
    splits: Map<Seq<char>, TensorV<S>>,
    scores: Map<Seq<char>, TensorV<S>>,
)
    requires
        exact::exact(v),
        phases::listed(splits),
        !node_splitting::decided(splits),
        node_splitting::flat(splits).len() <= node_splitting::flat(scores).len(),
    ensures
        ({
            let parts = node_splitting::forked(splits, scores);
            &&& open_count(splits) > 0
            &&& parts.len() == 2
            &&& forall|j: int|
                0 <= j < 2 ==> phases::listed(#[trigger] parts[j]) && open_count(parts[j]) + 1
                    == open_count(splits) && parts[j].dom() == splits.dom()
        }),
{
    let (a, b) = (node_splitting::flat(splits), node_splitting::flat(scores));
    let i = lemma_undecided_listed(splits);
    lemma_some_open(a, b, a.len(), i);
    node_splitting::lemma_best_open(a, b, a.len());
    let best = node_splitting::best_open(a, b, a.len())->Some_0;
    let parts = node_splitting::forked(splits, scores);
    exact::lemma_numbers(v);
    assert(v(S::ratio(-1, 1)) * (1int as real) == (-1int) as real);
    let (one, minus) = (scalar::one::<S>(), scalar::num::<S>(-1));
    lemma_relisted(splits, a.update(best, one));
    lemma_relisted(splits, a.update(best, minus));
    lemma_one_decided(a, best, one, a.len());
    lemma_one_decided(a, best, minus, a.len());
    assert forall|j: int| 0 <= j < 2 implies phases::listed(#[trigger] parts[j]) && open_count(
        parts[j],
    ) + 1 == open_count(splits) && parts[j].dom() == splits.dom() by {
        assert(parts[j].dom() =~= splits.dom());
    }
}

// ---- the search ----
/// Whether a subproblem of a graph decides phases of the rectifiers `keys`, by signs of their
/// shapes.
pub open spec fn decides<S: Scalar>(
    g: GraphV<S>,
    splits: Map<Seq<char>, TensorV<S>>,
    keys: Set<Seq<char>>,
) -> bool {
    &&& phases::listed(splits)
    &&& splits.dom() == keys
    &&& layer_params::signs_fit(g.equations, splits)
}

/// Whether the bound of every subproblem comes with a score for each of its neurons, and with
/// parameters that fit.
pub open spec fn all_scored<S: Scalar>(
    g: GraphV<S>,
    e: Map<Seq<char>, IBPV<S>>,
    region: IBPV<S>,
    keys: Set<Seq<char>>,
) -> bool {
    forall|splits: Map<Seq<char>, TensorV<S>>, warm: PairV<S>|
        decides(g, splits, keys) && node_verdicts::params_fit(e, g.equations, warm) ==> (
        #[trigger] node_splitting::bounded(g, e, region, splits, warm) matches Ok(node)
            ==> node_splitting::flat(splits).len() <= node_splitting::flat(node.scores).len()
            && node_verdicts::params_fit(e, g.equations, node.params))
}

/// Whether a node has scores for all its neurons.
pub open spec fn node_ready<S: Scalar>(
    g: GraphV<S>,
    e: Map<Seq<char>, IBPV<S>>,
    node: NodeV<S>,
    keys: Set<Seq<char>>,
) -> bool {
    &&& decides(g, node.splits, keys)
    &&& node_verdicts::params_fit(e, g.equations, node.params)
    &&& node_splitting::flat(node.splits).len() <= node_splitting::flat(node.scores).len()
}

/// Whether the nodes of a list have scores for all their neurons.
pub open spec fn ready<S: Scalar>(
    g: GraphV<S>,
    e: Map<Seq<char>, IBPV<S>>,
    heap: Seq<NodeV<S>>,
    keys: Set<Seq<char>>,
) -> bool {
    forall|j: int| 0 <= j < heap.len() ==> node_ready(g, e, #[trigger] heap[j], keys)
}

/// The undecided neurons of each node of a list.
pub open spec fn counts<S: Scalar>(heap: Seq<NodeV<S>>) -> Seq<nat> {
    Seq::new(heap.len(), |j: int| open_count(heap[j].splits))
}

/// The parts from number `i` on lead to no more nodes than they are.
proof fn lemma_expanded_counts<S: Scalar>(
    g: GraphV<S>,
    e: Map<Seq<char>, IBPV<S>>,
    region: IBPV<S>,
    warm: PairV<S>,
    parts: Seq<Map<Seq<char>, TensorV<S>>>,
    heap: Seq<NodeV<S>>,
    i: nat,
    keys: Set<Seq<char>>,
    h: nat,
)
    requires
        all_scored(g, e, region, keys),
        ready(g, e, heap, keys),
        i <= parts.len(),
        forall|j: int|
            0 <= j < parts.len() ==> decides(g, #[trigger] parts[j], keys) && open_count(parts[j])
                == h,
        node_verdicts::params_fit(e, g.equations, warm),
    ensures
        match node_splitting::expanded(g, e, region, warm, parts, heap, i) {
            Ok(NodeSearchV::Open(next)) => ready(g, e, next, keys) && halving::families(counts(next), 0)
                <= halving::families(counts(heap), 0) + (parts.len() - i) * family(h),
            Ok(NodeSearchV::Done(verdict)) => verdict is Unsafe,
            Err(_) => true,
        },
    decreases parts.len() - i,
{
    if i < parts.len() {
        let part = parts[i as int];
        let f = family(h);
        let n = parts.len() - i;
        assert(n * f == (n - 1) * f + f && 0 <= (n - 1) * f) by (nonlinear_arith)
            requires
                n >= 1,
                f >= 0,
        ;
        if !node_splitting::feasible(g, region, part) {
            lemma_expanded_counts(g, e, region, warm, parts, heap, i + 1, keys, h);
        } else {
            let r = node_splitting::bounded(g, e, region, part, warm);
            if r is Ok {
                let child = r->Ok_0;
                assert(child.splits == part);
                let next = if child.lb.less(scalar::zero()) {
                    heap.push(child)
                } else {
                    heap
                };
                assert(ready(g, e, next, keys));
                assert(counts(heap.push(child)) =~= counts(heap).push(h));
                halving::lemma_push(counts(heap), h, 0);
                lemma_expanded_counts(g, e, region, warm, parts, next, i + 1, keys, h);
            }
        }
    } else {
        assert((parts.len() - i) * family(h) == 0) by (nonlinear_arith)
            requires
                i == parts.len(),
        ;
    }
}

/// A search with more rounds than nodes can come up is undecided only where branch and bound over
/// boxes is.
proof fn lemma_search_ends<S: Scalar>(
    v: spec_fn(S) -> real,
    g: GraphV<S>,
    e: Map<Seq<char>, IBPV<S>>,
    inputs: Seq<IBPV<S>>,
    config: BaBConfig<S>,
    heap: Seq<NodeV<S>>,
    fuel: nat,
    keys: Set<Seq<char>>,
)
    requires
        exact::exact(v),
        all_scored(g, e, inputs[0], keys),
        ready(g, e, heap, keys),
        fuel > halving::families(counts(heap), 0),
    ensures
        node_splitting::node_searched(g, e, inputs, SmartSplit {  }, config, heap, fuel) == Ok::<
            VerdictV<S>,
            Fault,
        >(VerdictV::Undecided) ==> input_splitting::input_verdict(
            g,
            inputs,
            UniformSplit {  },
            config,
        ) == Ok::<VerdictV<S>, Fault>(VerdictV::Undecided),
    decreases fuel,
{
    if heap.len() > 0 {
        let m = node_splitting::next_node(heap);
        bab::lemma_first_least(node_splitting::node_keys(heap), heap.len());
        let (node, rest) = (heap[m], heap.remove(m));
        let parts = node_splitting::forked(node.splits, node.scores);
        if !scalar::zero::<S>().at_most(node.lb) && parts.len() > 0 && !node_splitting::decided(
            node.splits,
        ) {
            lemma_fork_decides(v, node.splits, node.scores);
            let h = (open_count(node.splits) - 1) as nat;
            assert(counts(rest) =~= counts(heap).remove(m));
            halving::lemma_remove(counts(heap), m, 0);
            assert(ready(g, e, rest, keys)) by {
                assert forall|j: int| 0 <= j < rest.len() implies node_ready(
                    g,
                    e,
                    #[trigger] rest[j],
                    keys,
                ) by {
                    if j < m {
                        assert(rest[j] == heap[j]);
                    } else {
                        assert(rest[j] == heap[j + 1]);
                    }
                }
            }
            assert(node_ready(g, e, node, keys));
            node_verdicts::lemma_smart_fits(g);
            let split = SmartSplit {  };
            assert forall|j: int| 0 <= j < parts.len() implies decides(
                g,
                #[trigger] parts[j],
                keys,
            ) by {
                assert(split.parts(node.splits, node.scores)[j] == parts[j]);
            }
            lemma_expanded_counts(g, e, inputs[0], node.params, parts, rest, 0, keys, h);
            assert(family(open_count(node.splits)) == 2 * family(h) + 1);
            let r = node_splitting::expanded(g, e, inputs[0], node.params, parts, rest, 0);
            if let Ok(NodeSearchV::Open(next)) = r {
                assert(parts.len() * family(h) == 2 * family(h)) by (nonlinear_arith)
                    requires
                        parts.len() == 2,
                ;
                lemma_search_ends(v, g, e, inputs, config, next, (fuel - 1) as nat, keys);
            }
        }
    }
}

/// Branch and bound over the phases of rectifiers comes to an end. Where every subproblem has a
/// score for each of its `n` neurons, and there are more rounds than subproblems can come up by
/// deciding them one after the other, the search is undecided only if branch and bound over boxes
/// is undecided on the same graph, box and configuration.
pub proof fn lemma_forking_decides<S: Scalar>(
    v: spec_fn(S) -> real,
    g: GraphV<S>,
    e: Map<Seq<char>, IBPV<S>>,
    inputs: Seq<IBPV<S>>,
    splits: Map<Seq<char>, TensorV<S>>,
    config: BaBConfig<S>,
)
    requires
        exact::exact(v),
        inputs.len() > 0,
        g.invars.len() > 0,
        eval::forward::<S, IBPTensor<S>>(
            (),
            g.equations,
            Map::<Seq<char>, IBPV<S>>::empty().insert(g.invars[0].name, inputs[0]),
            0,
        ).1 == Ok::<Map<Seq<char>, IBPV<S>>, Fault>(e),
        node_splitting::open_splits(g.equations, e, g.equations.len()) == Ok::<
            Map<Seq<char>, TensorV<S>>,
            Fault,
        >(splits),
        phases::listed(splits),
        layer_params::signs_fit(g.equations, splits),
        all_scored(g, e, inputs[0], splits.dom()),
        config.max_iters > family(open_count(splits)),
    ensures
        node_splitting::node_verdict(g, inputs, SmartSplit {  }, config) == Ok::<
            VerdictV<S>,
            Fault,
        >(VerdictV::Undecided) ==> input_splitting::input_verdict(
            g,
            inputs,
            UniformSplit {  },
            config,
        ) == Ok::<VerdictV<S>, Fault>(VerdictV::Undecided),
{
    if let Ok(root) = node_splitting::bounded(
        g,
        e,
        inputs[0],
        splits,
        node_splitting::no_params(),
    ) {
        let heap = seq![root];
        assert(heap[0] == root);
        assert(root.splits == splits);
        assert(counts(heap) =~= seq![open_count(splits)]);
        reveal_with_fuel(halving::families, 2);
        assert(ready(g, e, heap, splits.dom()));
        lemma_search_ends(
            v,
            g,
            e,
            inputs,
            config,
            heap,
            config.max_iters as nat,
            splits.dom(),
        );
    }
}

} // verus!
