//! Branch and bound over boxes comes to an end: it cuts every box at its widest element, so with
//! enough rounds it stays undecided only about boxes narrower than the smallest width.

use vstd::prelude::*;
use crate::bab;
use crate::bab::{BaBConfig, VerdictV};
use crate::batched::{BatchV, IBPBatchedTensor};
use crate::eval;
use crate::exact;
use crate::input_splitting;
use crate::input_splitting::{BoxV, SearchV, UniformSplit};
use crate::input_verdicts;
use crate::interval;
use crate::interval::IBPV;
use crate::model::Fault;
use crate::nn::GraphV;
use crate::scalar::Scalar;

verus! {

// ---- where a box is cut ----
/// The width of element `k` of an interval.
pub open spec fn width<S>(v: spec_fn(S) -> real, x: IBPV<S>, k: int) -> real {
    v(x.ub.data[k]) - v(x.lb.data[k])
}

/// None of the first `n` elements is wider than the widest.
proof fn lemma_none_wider<S: Scalar>(v: spec_fn(S) -> real, x: IBPV<S>, n: nat)
    requires
        exact::exact(v),
    ensures
        forall|j: int|
            0 <= j < n ==> #[trigger] width(v, x, j) <= width(v, x, input_splitting::widest(x, n)),
    decreases n,
{
    if n > 1 {
        lemma_none_wider(v, x, (n - 1) as nat);
    }
}

/// Whether two intervals are the halves of a third: they are cut in the middle of element `i` and
/// are as it is elsewhere.
pub open spec fn cut_at<S>(
    v: spec_fn(S) -> real,
    x: IBPV<S>,
    i: int,
    low: IBPV<S>,
    high: IBPV<S>,
) -> bool {
    &&& low.lb == x.lb
    &&& high.ub == x.ub
    &&& low.ub.shape == x.ub.shape && low.ub.data.len() == x.ub.data.len()
    &&& high.lb.shape == x.lb.shape && high.lb.data.len() == x.lb.data.len()
    &&& 2real * v(low.ub.data[i]) == v(x.lb.data[i]) + v(x.ub.data[i])
    &&& v(high.lb.data[i]) == v(low.ub.data[i])
    &&& forall|j: int|
        0 <= j < x.ub.data.len() && j != i ==> #[trigger] low.ub.data[j] == x.ub.data[j]
    &&& forall|j: int|
        0 <= j < x.lb.data.len() && j != i ==> #[trigger] high.lb.data[j] == x.lb.data[j]
}

/// Whether boxes are the halves of another: input `k`, the first one that is no point, is cut in the
/// middle of element `i`, than which no other element of it is wider.
pub open spec fn cut_widest<S: Scalar>(
    v: spec_fn(S) -> real,
    b: Seq<IBPV<S>>,
    parts: Seq<Seq<IBPV<S>>>,
    k: int,
    i: int,
) -> bool {
    &&& parts.len() == 2
    &&& 0 <= k < b.len()
    &&& forall|j: int| 0 <= j < k ==> interval::all_same((#[trigger] b[j]).lb, b[j].ub)
    &&& !interval::all_same(b[k].lb, b[k].ub)
    &&& 0 <= i < b[k].lb.data.len()
    &&& forall|j: int| 0 <= j < b[k].lb.data.len() ==> #[trigger] width(v, b[k], j) <= width(v, b[k], i)
    &&& parts[0].len() == b.len() && parts[1].len() == b.len()
    &&& cut_at(v, b[k], i, parts[0][k], parts[1][k])
    &&& forall|j: int|
        0 <= j < b.len() && j != k ==> (#[trigger] parts[0][j]) == b[j] && parts[1][j] == b[j]
}

/// The inputs before the first one that is no point are points.
proof fn lemma_points_before<S: Scalar>(b: Seq<IBPV<S>>, k: nat)
    ensures
        input_splitting::first_wide(b, k) matches Some(i) ==> k <= i && forall|j: int|
            k <= j < i ==> interval::all_same((#[trigger] b[j]).lb, b[j].ub),
        input_splitting::first_wide(b, k) is None ==> forall|j: int|
            k <= j < b.len() ==> interval::all_same((#[trigger] b[j]).lb, b[j].ub),
    decreases b.len() - k,
{
    if k < b.len() && interval::all_same(b[k as int].lb, b[k as int].ub) {
        lemma_points_before(b, k + 1);
    }
}

/// A box is cut in two at the widest element of its first input that is no point. Only a box of
/// points has no halves.
pub proof fn lemma_halves_cut_widest<S: Scalar>(v: spec_fn(S) -> real, b: Seq<IBPV<S>>)
    requires
        exact::exact(v),
        forall|j: int|
            0 <= j < b.len() ==> (#[trigger] b[j]).lb.data.len() == b[j].ub.data.len(),
    ensures
        match input_splitting::halves(b) {
            Ok(parts) => exists|k: int, i: int| #[trigger] cut_widest(v, b, parts, k, i),
            Err(_) => forall|j: int|
                0 <= j < b.len() ==> interval::all_same((#[trigger] b[j]).lb, b[j].ub),
        },
{
    lemma_points_before(b, 0);
    input_verdicts::lemma_first_wide(b, 0);
    if let Some(kk) = input_splitting::first_wide(b, 0) {
        let k = kk as int;
        let x = b[k];
        let n = x.lb.data.len();
        exact::lemma_numbers(v);
        assert(n > 0);
        input_splitting::lemma_widest(x, n);
        lemma_none_wider(v, x, n);
        let i = input_splitting::widest(x, n);
        let parts = input_splitting::halves(b)->Ok_0;
        assert(parts[0][k] == input_splitting::lower_half(x, i));
        assert(parts[1][k] == input_splitting::upper_half(x, i));
        assert(cut_at(v, x, i, parts[0][k], parts[1][k]));
        assert(cut_widest(v, b, parts, k, i));
    }
}

// ---- how often a box can be cut ----
/// `m` doubled `h` times.
pub open spec fn doubled(m: real, h: nat) -> real
    decreases h,
{
    if h == 0 {
        m
    } else {
        2real * doubled(m, (h - 1) as nat)
    }
}

/// The sum of the first `n` of some numbers.
pub open spec fn total(hs: Seq<nat>, n: nat) -> nat
    decreases n,
{
    if n == 0 {
        0
    } else {
        total(hs, (n - 1) as nat) + hs[n - 1]
    }
}

/// The number of boxes that a box which can be cut `h` times in a row leads to at most, itself
/// included.
pub open spec fn family(h: nat) -> nat
    decreases h,
{
    if h == 0 {
        1
    } else {
        2 * family((h - 1) as nat) + 1
    }
}

/// Whether each element of a box of one input is narrower than `m` after it has been halved as
/// often as `hs` says.
pub open spec fn cuts_suffice<S>(
    v: spec_fn(S) -> real,
    b: Seq<IBPV<S>>,
    m: real,
    hs: Seq<nat>,
) -> bool {
    &&& b.len() == 1
    &&& b[0].lb.data.len() == hs.len()
    &&& b[0].ub.data.len() == hs.len()
    &&& forall|k: int| 0 <= k < hs.len() ==> #[trigger] width(v, b[0], k) < doubled(m, hs[k])
}

/// Whether `h` cuts suffice, all elements together.
pub open spec fn reaches<S>(v: spec_fn(S) -> real, b: Seq<IBPV<S>>, m: real, h: nat) -> bool {
    exists|hs: Seq<nat>| #[trigger] cuts_suffice(v, b, m, hs) && total(hs, hs.len()) == h
}

/// One number less makes the sum smaller by as much.
proof fn lemma_one_less(hs: Seq<nat>, i: int, n: nat)
    requires
        0 <= i < hs.len(),
        hs[i] > 0,
        n <= hs.len(),
    ensures
        total(hs.update(i, (hs[i] - 1) as nat), n) == (if i < n {
            total(hs, n) - 1
        } else {
            total(hs, n) as int
        }),
        i < n ==> total(hs, n) > 0,
    decreases n,
{
    if n > 0 {
        lemma_one_less(hs, i, (n - 1) as nat);
    }
}

/// Whether every element of every input of a box is narrower than `m`.
pub open spec fn narrow<S>(v: spec_fn(S) -> real, b: Seq<IBPV<S>>, m: real) -> bool {
    forall|j: int, k: int|
        #![trigger width(v, b[j], k)]
        0 <= j < b.len() && 0 <= k < b[j].lb.data.len() ==> width(v, b[j], k) < m
}

/// The width of a box is less than `m` if all its elements are narrower.
proof fn lemma_width<S: Scalar>(v: spec_fn(S) -> real, x: IBPV<S>, m: real, n: nat)
    requires
        exact::exact(v),
        v(S::bottom()) < m,
    ensures
        (v(input_splitting::width_of(x, n)) < m) == (forall|k: int|
            0 <= k < n ==> #[trigger] width(v, x, k) < m),
    decreases n,
{
    if n > 0 {
        lemma_width(v, x, m, (n - 1) as nat);
        let w = input_splitting::width_of(x, (n - 1) as nat);
        assert(v(input_splitting::span(x, n - 1)) == width(v, x, n - 1));
        if v(input_splitting::width_of(x, n)) < m {
            assert forall|k: int| 0 <= k < n implies #[trigger] width(v, x, k) < m by {
                if k < n - 1 {
                }
            }
        } else if v(w) < m {
            assert(width(v, x, n - 1) >= m);
        } else {
            let k = choose|k: int| 0 <= k < n - 1 && !(#[trigger] width(v, x, k) < m);
            assert(!(width(v, x, k) < m));
        }
    }
}

/// A box that is not narrow can be cut, and its halves need one cut less.
proof fn lemma_cut<S: Scalar>(v: spec_fn(S) -> real, b: Seq<IBPV<S>>, m: real, h: nat)
    requires
        exact::exact(v),
        0real < m,
        reaches(v, b, m, h),
        !narrow(v, b, m),
    ensures
        h > 0,
        input_splitting::halves(b) matches Ok(parts) && parts.len() == 2 && reaches(
            v,
            parts[0],
            m,
            (h - 1) as nat,
        ) && reaches(v, parts[1], m, (h - 1) as nat),
{
    let hs = choose|hs: Seq<nat>| #[trigger]
        cuts_suffice(v, b, m, hs) && total(hs, hs.len()) == h;
    lemma_halves_cut_widest(v, b);
    let (j, wide) = choose|j: int, k: int|
        #![trigger width(v, b[j], k)]
        0 <= j < b.len() && 0 <= k < b[j].lb.data.len() && !(width(v, b[j], k) < m);
    assert(j == 0);
    if input_splitting::halves(b) is Err {
        assert(interval::all_same(b[0].lb, b[0].ub));
        assert(b[0].lb.data[wide].same(b[0].ub.data[wide]));
        assert(false);
    }
    let parts = input_splitting::halves(b)->Ok_0;
    let (k, i) = choose|k: int, i: int| #[trigger] cut_widest(v, b, parts, k, i);
    assert(k == 0);
    let x = b[0];
    assert(width(v, x, wide) <= width(v, x, i));
    assert(width(v, x, i) < doubled(m, hs[i]));
    assert(hs[i] > 0);
    let less = hs.update(i, (hs[i] - 1) as nat);
    lemma_one_less(hs, i, hs.len());
    assert forall|p: int| 0 <= p < 2 implies reaches(
        v,
        #[trigger] parts[p],
        m,
        (h - 1) as nat,
    ) by {
        let y = parts[p][0];
        assert forall|q: int| 0 <= q < less.len() implies #[trigger] width(v, y, q) < doubled(
            m,
            less[q],
        ) by {
            assert(width(v, x, q) < doubled(m, hs[q]));
            if q == i {
                assert(2real * width(v, y, i) == width(v, x, i));
            }
        }
        assert(cuts_suffice(v, parts[p], m, less));
    }
    assert(reaches(v, parts[0], m, (h - 1) as nat));
    assert(reaches(v, parts[1], m, (h - 1) as nat));
}

// ---- the boxes that are open ----
/// Whether `hs[i]` cuts suffice for box `i` of a list.
pub open spec fn all_reach<S>(
    v: spec_fn(S) -> real,
    boxes: Seq<BoxV<S>>,
    m: real,
    hs: Seq<nat>,
) -> bool {
    &&& hs.len() == boxes.len()
    &&& forall|i: int| 0 <= i < boxes.len() ==> reaches(v, (#[trigger] boxes[i]).inputs, m, hs[i])
}

/// The number of boxes that those from number `i` on lead to at most.
pub open spec fn families(hs: Seq<nat>, i: nat) -> nat
    decreases hs.len() - i,
{
    if i >= hs.len() {
        0
    } else {
        family(hs[i as int]) + families(hs, i + 1)
    }
}

/// One more box.
pub(crate) proof fn lemma_push(hs: Seq<nat>, h: nat, i: nat)
    requires
        i <= hs.len(),
    ensures
        families(hs.push(h), i) == families(hs, i) + family(h),
    decreases hs.len() - i,
{
    reveal_with_fuel(families, 2);
    if i < hs.len() {
        lemma_push(hs, h, i + 1);
    }
}

/// One box less.
pub(crate) proof fn lemma_remove(hs: Seq<nat>, j: int, i: nat)
    requires
        i <= j < hs.len(),
    ensures
        families(hs, i) == families(hs.remove(j), i) + family(hs[j]),
    decreases hs.len() - i,
{
    let rest = hs.remove(j);
    if i < j {
        lemma_remove(hs, j, i + 1);
        assert(rest[i as int] == hs[i as int]);
    } else {
        lemma_tail(hs, rest, i + 1, i);
    }
}

/// Lists that are the same from some places on.
proof fn lemma_tail(a: Seq<nat>, b: Seq<nat>, i: nat, j: nat)
    requires
        i <= a.len(),
        j <= b.len(),
        a.len() - i == b.len() - j,
        forall|k: int| 0 <= k < a.len() - i ==> #[trigger] a[i + k] == b[j + k],
    ensures
        families(a, i) == families(b, j),
    decreases a.len() - i,
{
    if i < a.len() {
        assert(a[i + 0int] == b[j + 0int]);
        assert forall|k: int| 0 <= k < a.len() - (i + 1) implies #[trigger] a[(i + 1) + k] == b[(j
            + 1) + k] by {
            assert(a[i + (k + 1)] == b[j + (k + 1)]);
        }
        lemma_tail(a, b, i + 1, j + 1);
    }
}

/// Taking boxes out keeps how often they can be cut.
proof fn lemma_taken_reach<S: Scalar>(
    v: spec_fn(S) -> real,
    heap: Seq<BoxV<S>>,
    m: real,
    hs: Seq<nat>,
    k: nat,
) -> (r: (Seq<nat>, Seq<nat>))
    requires
        k <= heap.len(),
        all_reach(v, heap, m, hs),
    ensures
        ({
            let (out, rest) = input_splitting::taken(heap, k);
            &&& out.len() == k
            &&& rest.len() == heap.len() - k
            &&& all_reach(v, out, m, r.0)
            &&& all_reach(v, rest, m, r.1)
            &&& families(r.0, 0) + families(r.1, 0) == families(hs, 0)
        }),
    decreases k,
{
    if k == 0 {
        (Seq::empty(), hs)
    } else {
        let (a, b) = lemma_taken_reach(v, heap, m, hs, (k - 1) as nat);
        let (before, left) = input_splitting::taken(heap, (k - 1) as nat);
        let (out, rest) = input_splitting::taken(heap, k);
        let j = input_splitting::next_box(left);
        bab::lemma_first_least(input_splitting::box_keys(left), left.len());
        let (a2, b2) = (a.push(b[j]), b.remove(j));
        lemma_push(a, b[j], 0);
        lemma_remove(b, j, 0);
        assert forall|i: int| 0 <= i < out.len() implies reaches(
            v,
            (#[trigger] out[i]).inputs,
            m,
            a2[i],
        ) by {
            if i < k - 1 {
                assert(out[i] == before[i]);
            } else {
                assert(out[i] == left[j]);
            }
        }
        assert forall|i: int| 0 <= i < rest.len() implies reaches(
            v,
            (#[trigger] rest[i]).inputs,
            m,
            b2[i],
        ) by {
            if i < j {
                assert(rest[i] == left[i]);
            } else {
                assert(rest[i] == left[i + 1]);
            }
        }
        (a2, b2)
    }
}

/// Whether the bounds that a batched evaluation gives for box `i` leave it open: no upper end is
/// negative, but some lower end is.
pub open spec fn left_open<S: Scalar>(g: GraphV<S>, picked: Seq<BoxV<S>>, i: int) -> bool {
    &&& 0 <= i < picked.len()
    &&& input_splitting::batches(picked, 1) matches Ok(b) && (eval::evaluated::<
        S,
        IBPBatchedTensor<S>,
    >((), g, b).1 matches Ok(outs) && (input_splitting::members(outs, i) matches Some(out)
        && input_splitting::unclear(out) && !input_splitting::violated(out)))
}

/// Whether some box within another is too narrow to be cut, and its bounds leave it open.
pub open spec fn stuck<S: Scalar>(
    v: spec_fn(S) -> real,
    g: GraphV<S>,
    root: Seq<IBPV<S>>,
    m: real,
) -> bool {
    exists|picked: Seq<BoxV<S>>, i: int| #[trigger]
        left_open(g, picked, i) && narrow(v, picked[i].inputs, m) && input_verdicts::nested(
            v,
            picked[i].inputs,
            root,
        )
}

/// What one box leads to.
proof fn lemma_classified_reach<S: Scalar>(
    v: spec_fn(S) -> real,
    config: BaBConfig<S>,
    inputs: Seq<IBPV<S>>,
    out: Seq<IBPV<S>>,
    heap: Seq<BoxV<S>>,
    h: nat,
    hs: Seq<nat>,
) -> (next: Seq<nat>)
    requires
        exact::exact(v),
        0real < v(config.min_width),
        v(S::bottom()) < v(config.min_width),
        reaches(v, inputs, v(config.min_width), h),
        all_reach(v, heap, v(config.min_width), hs),
    ensures
        match input_splitting::classified(UniformSplit {  }, config, inputs, out, heap) {
            Ok(SearchV::Open(boxes)) => all_reach(v, boxes, v(config.min_width), next) && families(
                next,
                0,
            ) < families(hs, 0) + family(h),
            Ok(SearchV::Done(verdict)) => verdict is Undecided ==> narrow(
                v,
                inputs,
                v(config.min_width),
            ) && input_splitting::unclear(out) && !input_splitting::violated(out),
            Err(_) => true,
        },
{
    let m = v(config.min_width);
    lemma_width(v, inputs[0], m, inputs[0].lb.data.len());
    reveal_with_fuel(input_splitting::branch_width_of, 2);
    reveal_with_fuel(family, 2);
    assert(input_splitting::branch_width_of(inputs, 1).less(config.min_width) == (v(
        input_splitting::width_of(inputs[0], inputs[0].lb.data.len()),
    ) < m));
    if input_splitting::violated(out) || !input_splitting::unclear(out) {
        hs
    } else if input_splitting::branch_width_of(inputs, 1).less(config.min_width) {
        assert(narrow(v, inputs, m));
        hs
    } else {
        assert(!narrow(v, inputs, m)) by {
            let k = choose|k: int|
                0 <= k < inputs[0].lb.data.len() && !(#[trigger] width(v, inputs[0], k) < m);
            assert(!(width(v, inputs[0], k) < m));
        }
        lemma_cut(v, inputs, m, h);
        let parts = input_splitting::halves(inputs)->Ok_0;
        let one = hs.push((h - 1) as nat);
        let next = one.push((h - 1) as nat);
        lemma_push(hs, (h - 1) as nat, 0);
        lemma_push(one, (h - 1) as nat, 0);
        if let Ok(SearchV::Open(boxes)) = input_splitting::classified(
            UniformSplit {  },
            config,
            inputs,
            out,
            heap,
        ) {
            assert forall|i: int| 0 <= i < boxes.len() implies reaches(
                v,
                (#[trigger] boxes[i]).inputs,
                m,
                next[i],
            ) by {
                if i < heap.len() {
                    assert(boxes[i] == heap[i]);
                } else {
                    assert(boxes[i].inputs == parts[i - heap.len()]);
                }
            }
        }
        next
    }
}

/// What the boxes from number `i` on lead to.
#[verifier::rlimit(40)]
proof fn lemma_examined_reach<S: Scalar>(
    v: spec_fn(S) -> real,
    g: GraphV<S>,
    config: BaBConfig<S>,
    picked: Seq<BoxV<S>>,
    outs: Seq<BatchV<S>>,
    heap: Seq<BoxV<S>>,
    i: nat,
    root: Seq<IBPV<S>>,
    ps: Seq<nat>,
    hs: Seq<nat>,
) -> (next: Seq<nat>)
    requires
        exact::exact(v),
        0real < v(config.min_width),
        v(S::bottom()) < v(config.min_width),
        input_splitting::batches(picked, 1) matches Ok(b) && eval::evaluated::<
            S,
            IBPBatchedTensor<S>,
        >((), g, b).1 == Ok::<Seq<BatchV<S>>, Fault>(outs),
        input_verdicts::all_nested(v, picked, root),
        input_verdicts::all_nested(v, heap, root),
        i <= picked.len(),
        all_reach(v, picked, v(config.min_width), ps),
        all_reach(v, heap, v(config.min_width), hs),
    ensures
        match input_splitting::examined(UniformSplit {  }, config, picked, outs, heap, i) {
            Ok(SearchV::Open(boxes)) => all_reach(v, boxes, v(config.min_width), next)
                && input_verdicts::all_nested(v, boxes, root) && families(next, 0) + (picked.len()
                - i) <= families(hs, 0) + families(ps, i),
            Ok(SearchV::Done(verdict)) => verdict is Undecided ==> stuck(
                v,
                g,
                root,
                v(config.min_width),
            ),
            Err(_) => true,
        },
    decreases picked.len() - i,
{
    let m = v(config.min_width);
    if i < picked.len() {
        let inputs = picked[i as int].inputs;
        let member = input_splitting::members(outs, i as int);
        assert(reaches(v, inputs, m, ps[i as int]));
        assert(input_verdicts::nested(v, inputs, root));
        if member is Some {
            let out = member->Some_0;
            let step = input_splitting::classified(UniformSplit {  }, config, inputs, out, heap);
            let more = lemma_classified_reach(v, config, inputs, out, heap, ps[i as int], hs);
            if step is Ok && step->Ok_0 is Open {
                let boxes = step->Ok_0->Open_0;
                input_verdicts::lemma_halves_cover::<S>(v);
                assert(input_verdicts::parts_hold(v, UniformSplit {  }, inputs));
                input_verdicts::lemma_classified_nested(
                    v,
                    UniformSplit {  },
                    config,
                    inputs,
                    out,
                    heap,
                    boxes,
                    root,
                );
                lemma_examined_reach(v, g, config, picked, outs, boxes, i + 1, root, ps, more)
            } else {
                if step is Ok && step->Ok_0->Done_0 is Undecided {
                    assert(left_open(g, picked, i as int));
                    assert(stuck(v, g, root, m));
                }
                hs
            }
        } else {
            hs
        }
    } else {
        hs
    }
}

/// A search with more rounds than boxes can come up stays undecided only about narrow boxes.
proof fn lemma_search_ends<S: Scalar>(
    v: spec_fn(S) -> real,
    g: GraphV<S>,
    config: BaBConfig<S>,
    heap: Seq<BoxV<S>>,
    fuel: nat,
    root: Seq<IBPV<S>>,
    hs: Seq<nat>,
)
    requires
        exact::exact(v),
        config.batch_size >= 1,
        0real < v(config.min_width),
        v(S::bottom()) < v(config.min_width),
        input_verdicts::all_nested(v, heap, root),
        all_reach(v, heap, v(config.min_width), hs),
        fuel > families(hs, 0),
    ensures
        input_splitting::searched(g, 1, UniformSplit {  }, config, heap, fuel) == Ok::<
            VerdictV<S>,
            Fault,
        >(VerdictV::Undecided) ==> stuck(v, g, root, v(config.min_width)),
    decreases fuel,
{
    let m = v(config.min_width);
    if heap.len() > 0 {
        let k = eval::shorter(config.batch_size as nat, heap.len());
        let (picked, rest) = input_splitting::taken(heap, k);
        input_verdicts::lemma_taken(v, heap, k, root);
        let (ps, rs) = lemma_taken_reach(v, heap, m, hs, k);
        if input_splitting::all_of_length(picked, 1) {
            if let Ok(b) = input_splitting::batches(picked, 1) {
                if let Ok(outs) = eval::evaluated::<S, IBPBatchedTensor<S>>((), g, b).1 {
                    let next = lemma_examined_reach(
                        v,
                        g,
                        config,
                        picked,
                        outs,
                        rest,
                        0,
                        root,
                        ps,
                        rs,
                    );
                    if let Ok(SearchV::Open(boxes)) = input_splitting::examined(
                        UniformSplit {  },
                        config,
                        picked,
                        outs,
                        rest,
                        0,
                    ) {
                        lemma_search_ends(v, g, config, boxes, (fuel - 1) as nat, root, next);
                    }
                }
            }
        }
    }
}

/// Branch and bound over the box of one input comes to an end. Let each element `k` of the box be
/// narrower than the smallest width doubled `hs[k]` times. With more rounds than boxes can come up
/// by as many cuts, the search stays undecided only where some part of the box that is narrower
/// than the smallest width in all elements has bounds that leave it open. In all other cases it
/// finds the box safe or unsafe, or fails.
pub proof fn lemma_halving_decides<S: Scalar>(
    v: spec_fn(S) -> real,
    g: GraphV<S>,
    region: IBPV<S>,
    config: BaBConfig<S>,
    hs: Seq<nat>,
)
    requires
        exact::exact(v),
        crate::containment::inside(v, region.ub, region),
        config.batch_size >= 1,
        0real < v(config.min_width),
        v(S::bottom()) < v(config.min_width),
        cuts_suffice(v, seq![region], v(config.min_width), hs),
        config.max_iters > family(total(hs, hs.len())),
    ensures
        input_splitting::input_verdict(g, seq![region], UniformSplit {  }, config) == Ok::<
            VerdictV<S>,
            Fault,
        >(VerdictV::Undecided) ==> stuck(v, g, seq![region], v(config.min_width)),
{
    let root = seq![region];
    let heap = seq![BoxV { lb: S::bottom(), inputs: root }];
    let h = total(hs, hs.len());
    let ends = input_splitting::upper_ends(root);
    assert(input_verdicts::in_box(v, ends, root)) by {
        assert(ends[0] == root[0].ub);
    }
    assert(input_verdicts::nested(v, root, root));
    assert(input_verdicts::all_nested(v, heap, root));
    assert(reaches(v, root, v(config.min_width), h));
    let all = seq![h];
    assert(all_reach(v, heap, v(config.min_width), all));
    reveal_with_fuel(families, 2);
    assert(families(all, 0) == family(h));
    lemma_search_ends(v, g, config, heap, config.max_iters as nat, root, all);
}

} // verus!
