//! Which boxes a search takes up, and the bounds that it files the halves under.

use vstd::prelude::*;
use crate::attained;
use crate::bab;
use crate::bab::BaBConfig;
use crate::batched;
use crate::eval;
use crate::exact;
use crate::forking;
use crate::input_splitting;
use crate::input_splitting::{BoxV, InputSplit, SearchV};
use crate::interval::IBPV;
use crate::model::{Fault, TensorV};
use crate::node_splitting;
use crate::phases;
use crate::scalar;
use crate::scalar::Scalar;

verus! {

/// The boxes that a round takes up have the smallest bounds: none that stays behind has a smaller
/// one. Boxes with smaller bounds are taken up first.
pub proof fn lemma_boxes_best_first<S: Scalar>(
    v: spec_fn(S) -> real,
    heap: Seq<BoxV<S>>,
    k: nat,
)
    requires
        exact::exact(v),
        k <= heap.len(),
    ensures
        ({
            let (picked, rest) = input_splitting::taken(heap, k);
            &&& picked.len() == k
            &&& rest.len() == heap.len() - k
            &&& forall|i: int, j: int|
                0 <= i < picked.len() && 0 <= j < rest.len() ==> v((#[trigger] picked[i]).lb) <= v(
                    (#[trigger] rest[j]).lb,
                )
            &&& forall|i: int, j: int|
                0 <= i < j < picked.len() ==> v((#[trigger] picked[i]).lb) <= v(
                    (#[trigger] picked[j]).lb,
                )
        }),
    decreases k,
{
    if k > 0 {
        lemma_boxes_best_first(v, heap, (k - 1) as nat);
        let (before, open) = input_splitting::taken(heap, (k - 1) as nat);
        let (picked, rest) = input_splitting::taken(heap, k);
        let keys = input_splitting::box_keys(open);
        assert(forking::strict_order::<S>());
        forking::lemma_first(keys, open.len());
        let m = input_splitting::next_box(open);
        assert forall|j: int| 0 <= j < open.len() implies v(open[m].lb) <= v(
            (#[trigger] open[j]).lb,
        ) by {
            assert(!keys[j].before(keys[m]));
        }
        assert forall|i: int, j: int| 0 <= i < picked.len() && 0 <= j < rest.len() implies v(
            (#[trigger] picked[i]).lb,
        ) <= v((#[trigger] rest[j]).lb) by {
            let o = if j < m {
                j
            } else {
                j + 1
            };
            assert(rest[j] == open[o]);
            if i < k - 1 {
                assert(picked[i] == before[i]);
            } else {
                assert(picked[i] == open[m]);
            }
        }
        assert forall|i: int, j: int| 0 <= i < j < picked.len() implies v(
            (#[trigger] picked[i]).lb,
        ) <= v((#[trigger] picked[j]).lb) by {
            assert(picked[i] == before[i]);
            if j < k - 1 {
                assert(picked[j] == before[j]);
            } else {
                assert(picked[j] == open[m]);
            }
        }
    }
}

/// Whether a number is an element of one of the first `k` tensors.
pub open spec fn found<S>(v: spec_fn(S) -> real, ts: Seq<TensorV<S>>, x: real, k: nat) -> bool {
    exists|i: int, j: int|
        0 <= i < k && 0 <= j < ts[i].data.len() && v(#[trigger] ts[i].data[j]) == x
}

/// The least element of a tensor and a number.
proof fn lemma_least_of<S: Scalar>(v: spec_fn(S) -> real, data: Seq<S>, x: S, k: nat)
    requires
        exact::exact(v),
        k <= data.len(),
    ensures
        v(bab::min_of(data, x, k)) <= v(x),
        forall|j: int| 0 <= j < k ==> v(bab::min_of(data, x, k)) <= v(#[trigger] data[j]),
        v(bab::min_of(data, x, k)) == v(x) || exists|j: int|
            0 <= j < k && v(#[trigger] data[j]) == v(bab::min_of(data, x, k)),
    decreases k,
{
    if k > 0 {
        lemma_least_of(v, data, x, (k - 1) as nat);
        let (a, b) = (bab::min_of(data, x, (k - 1) as nat), bab::min_of(data, x, k));
        if v(b) == v(a) && v(a) != v(x) {
            let j = choose|j: int| 0 <= j < k - 1 && v(#[trigger] data[j]) == v(a);
            assert(v(data[j]) == v(b));
        } else if v(b) != v(a) {
            assert(v(data[k - 1]) == v(b));
        }
    }
}

/// The bound that the parts of a box are filed under: no element of the bounds of the outputs on
/// the box is less, and where one of them is less than infinity, one of them is that bound.
pub proof fn lemma_least_bound<S: Scalar>(v: spec_fn(S) -> real, ts: Seq<TensorV<S>>, k: nat)
    requires
        exact::exact(v),
        k <= ts.len(),
    ensures
        v(bab::min_over(ts, k)) <= v(S::top()),
        forall|i: int, j: int|
            0 <= i < k && 0 <= j < ts[i].data.len() ==> v(bab::min_over(ts, k)) <= v(
                #[trigger] ts[i].data[j],
            ),
        v(bab::min_over(ts, k)) == v(S::top()) || found(v, ts, v(bab::min_over(ts, k)), k),
    decreases k,
{
    if k > 0 {
        lemma_least_bound(v, ts, (k - 1) as nat);
        let before = bab::min_over(ts, (k - 1) as nat);
        let data = ts[k - 1].data;
        lemma_least_of(v, data, before, data.len());
        let now = bab::min_over(ts, k);
        if v(now) != v(S::top()) {
            if v(now) == v(before) {
                let (i, j) = choose|i: int, j: int|
                    0 <= i < k - 1 && 0 <= j < ts[i].data.len() && v(#[trigger] ts[i].data[j])
                        == v(before);
                assert(v(ts[i].data[j]) == v(now));
            } else {
                let j = choose|j: int| 0 <= j < data.len() && v(#[trigger] data[j]) == v(now);
                assert(v(ts[k - 1].data[j]) == v(now));
            }
        }
    }
}

/// The parts of a box that is split are filed under the least element of the bounds of the outputs
/// on the box.
pub proof fn lemma_parts_filed<S: Scalar, P: InputSplit<S>>(
    v: spec_fn(S) -> real,
    split: P,
    config: BaBConfig<S>,
    inputs: Seq<IBPV<S>>,
    out: Seq<IBPV<S>>,
    heap: Seq<BoxV<S>>,
    next: Seq<BoxV<S>>,
    n: int,
)
    requires
        exact::exact(v),
        input_splitting::classified(split, config, inputs, out, heap) == Ok::<SearchV<S>, Fault>(
            SearchV::Open(next),
        ),
        heap.len() <= n < next.len(),
    ensures
        forall|i: int, j: int|
            0 <= i < out.len() && 0 <= j < out[i].lb.data.len() ==> v(next[n].lb) <= v(
                #[trigger] out[i].lb.data[j],
            ),
        v(next[n].lb) == v(S::top()) || found(
            v,
            Seq::new(out.len(), |i: int| out[i].lb),
            v(next[n].lb),
            out.len(),
        ),
{
    let ts = batched::lows(out);
    lemma_least_bound(v, ts, out.len());
    assert(ts =~= Seq::new(out.len(), |i: int| out[i].lb));
    assert forall|i: int, j: int|
        0 <= i < out.len() && 0 <= j < out[i].lb.data.len() implies v(next[n].lb) <= v(
        #[trigger] out[i].lb.data[j],
    ) by {
        assert(ts[i].data[j] == out[i].lb.data[j]);
    }
}

// ---- phases ----
/// Whether neuron `i` is undecided, and none that is undecided among the first `n` has a greater score.
pub open spec fn most_promising<S: Scalar>(
    v: spec_fn(S) -> real,
    splits: Seq<S>,
    scores: Seq<S>,
    n: nat,
    i: int,
) -> bool {
    &&& 0 <= i < n
    &&& v(splits[i]) == 0real
    &&& forall|j: int|
        0 <= j < n && v(#[trigger] splits[j]) == 0real ==> v(scores[j]) <= v(scores[i])
}

/// Whether a list of phases is another with neuron `i` decided.
pub open spec fn decides_one<S: Scalar>(
    v: spec_fn(S) -> real,
    before: Seq<S>,
    after: Seq<S>,
    i: int,
    sign: real,
) -> bool {
    &&& after.len() == before.len()
    &&& v(after[i]) == sign
    &&& forall|j: int| 0 <= j < before.len() && j != i ==> #[trigger] after[j] == before[j]
}

/// A fork decides the undecided neuron with the greatest score: it is active in the first part and
/// inactive in the second one, and all others are as before.
pub proof fn lemma_forks_most_promising<S: Scalar>(
    v: spec_fn(S) -> real,
    splits: Map<Seq<char>, TensorV<S>>,
    scores: Map<Seq<char>, TensorV<S>>,
    open: int,
)
    requires
        exact::exact(v),
        phases::listed(splits),
        ({
            let (a, b) = (node_splitting::flat(splits), node_splitting::flat(scores));
            0 <= open < a.len() && open < b.len() && v(a[open]) == 0real
        }),
    ensures
        ({
            let (a, b) = (node_splitting::flat(splits), node_splitting::flat(scores));
            let parts = node_splitting::forked(splits, scores);
            let n = eval::shorter(a.len(), b.len());
            &&& parts.len() == 2
            &&& exists|i: int| #[trigger]
                most_promising(v, a, b, n, i) && decides_one(
                    v,
                    a,
                    node_splitting::flat(parts[0]),
                    i,
                    1real,
                ) && decides_one(v, a, node_splitting::flat(parts[1]), i, -1real)
        }),
{
    exact::lemma_numbers(v);
    let (a, b) = (node_splitting::flat(splits), node_splitting::flat(scores));
    let parts = node_splitting::forked(splits, scores);
    let n = eval::shorter(a.len(), b.len());
    attained::lemma_greatest_score(v, a, b, n);
    assert(v(a[open]) == 0real);
    let i = node_splitting::best_open(a, b, n)->Some_0;
    forking::lemma_relisted(splits, a.update(i, scalar::one()));
    forking::lemma_relisted(splits, a.update(i, scalar::num(-1)));
    assert(most_promising(v, a, b, n, i));
    assert(v(scalar::num::<S>(-1)) * (1int as real) == (-1int) as real);
    exact::lemma_units(v(scalar::num::<S>(-1)), 0real);
}

} // verus!
