//! Branch and bound over boxes decides rightly: in exact arithmetic, a box that is found safe
//! holds no input with a negative output, and an input that is reported has one.

use vstd::prelude::*;
use crate::bab;
use crate::bab::{BaBConfig, VerdictV};
use crate::batched::{BatchV, IBPBatchedTensor};
use crate::containment;
use crate::eval;
use crate::exact;
use crate::input_splitting;
use crate::input_splitting::{BoxV, InputSplit, SearchV, UniformSplit};
use crate::interval;
use crate::interval::IBPV;
use crate::model::{Fault, TensorV};
use crate::nn::GraphV;
use crate::scalar;
use crate::scalar::Scalar;
use crate::tensor::Tensor;

verus! {

/// Whether some tensors lie in the intervals of a box.
pub open spec fn in_box<S>(v: spec_fn(S) -> real, xs: Seq<TensorV<S>>, b: Seq<IBPV<S>>) -> bool {
    &&& xs.len() == b.len()
    &&& forall|i: int| 0 <= i < b.len() ==> containment::inside(v, xs[i], #[trigger] b[i])
}

/// Whether a graph has a negative output on some inputs.
pub open spec fn violates<S: Scalar>(g: GraphV<S>, xs: Seq<TensorV<S>>) -> bool {
    match eval::evaluated::<S, Tensor<S>>((), g, xs).1 {
        Ok(ys) => exists|i: int| 0 <= i < ys.len() && bab::some_negative(#[trigger] ys[i]),
        Err(_) => false,
    }
}

/// Whether the bounds that a batched evaluation gives for box `i` hold for the outputs on inputs
/// in that box.
pub open spec fn member_holds<S: Scalar>(
    v: spec_fn(S) -> real,
    g: GraphV<S>,
    n: nat,
    picked: Seq<BoxV<S>>,
    i: int,
    xs: Seq<TensorV<S>>,
) -> bool {
    match input_splitting::batches(picked, n) {
        Ok(b) => match (
            eval::evaluated::<S, IBPBatchedTensor<S>>((), g, b).1,
            eval::evaluated::<S, Tensor<S>>((), g, xs).1,
        ) {
            (Ok(outs), Ok(ys)) => match input_splitting::members(outs, i) {
                Some(out) => in_box(v, ys, out),
                None => true,
            },
            _ => true,
        },
        Err(_) => true,
    }
}

/// Whether a box is not empty and lies in another.
pub open spec fn nested<S: Scalar>(
    v: spec_fn(S) -> real,
    b: Seq<IBPV<S>>,
    root: Seq<IBPV<S>>,
) -> bool {
    &&& in_box(v, input_splitting::upper_ends(b), b)
    &&& forall|xs: Seq<TensorV<S>>| #[trigger] in_box(v, xs, b) ==> in_box(v, xs, root)
}

/// Whether the parts of a box cover it and lie in it.
pub open spec fn parts_hold<S: Scalar, P: InputSplit<S>>(
    v: spec_fn(S) -> real,
    split: P,
    b: Seq<IBPV<S>>,
) -> bool {
    split.parts(b) matches Ok(parts) ==> {
        &&& forall|xs: Seq<TensorV<S>>| #[trigger]
            in_box(v, xs, b) ==> exists|j: int|
                0 <= j < parts.len() && in_box(v, xs, #[trigger] parts[j])
        &&& forall|j: int| 0 <= j < parts.len() ==> nested(v, #[trigger] parts[j], b)
    }
}

/// Whether a way to split covers every box that is not empty.
pub open spec fn splits_cover<S: Scalar, P: InputSplit<S>>(v: spec_fn(S) -> real, split: P) -> bool {
    forall|b: Seq<IBPV<S>>|
        in_box(v, input_splitting::upper_ends(b), b) ==> #[trigger] parts_hold(v, split, b)
}

// ---- halves ----
/// The first input that is no point is one of the inputs.
pub(crate) proof fn lemma_first_wide<S: Scalar>(b: Seq<IBPV<S>>, k: nat)
    ensures
        input_splitting::first_wide(b, k) matches Some(i) ==> i < b.len() && !interval::all_same(
            b[i as int].lb,
            b[i as int].ub,
        ),
    decreases b.len() - k,
{
    if k < b.len() && interval::all_same(b[k as int].lb, b[k as int].ub) {
        lemma_first_wide(b, k + 1);
    }
}

/// An interval between two tensors, as real numbers.
pub proof fn lemma_between<S: Scalar>(v: spec_fn(S) -> real, lb: TensorV<S>, ub: TensorV<S>, x: TensorV<S>)
    requires
        exact::exact(v),
        containment::below(v, lb, x),
        containment::below(v, x, ub),
    ensures
        containment::inside(v, x, interval::between(lb, ub)),
{
    if interval::all_same(lb, ub) {
        assert forall|k: int| 0 <= k < ub.data.len() implies v(#[trigger] ub.data[k]) <= v(
            lb.data[k],
        ) by {
            assert(lb.data[k].same(ub.data[k]));
        }
    }
}

/// The halves of an interval cover it and lie in it.
proof fn lemma_interval_halves<S: Scalar>(v: spec_fn(S) -> real, x: IBPV<S>, i: int)
    requires
        exact::exact(v),
        containment::inside(v, x.ub, x),
        !x.is_point,
        0 <= i < x.lb.data.len(),
    ensures
        ({
            let (a, b) = (input_splitting::lower_half(x, i), input_splitting::upper_half(x, i));
            &&& containment::inside(v, a.ub, a)
            &&& containment::inside(v, b.ub, b)
            &&& forall|t: TensorV<S>| #[trigger]
                containment::inside(v, t, x) ==> containment::inside(v, t, a)
                    || containment::inside(v, t, b)
            &&& forall|t: TensorV<S>| #[trigger]
                containment::inside(v, t, a) ==> containment::inside(v, t, x)
            &&& forall|t: TensorV<S>| #[trigger]
                containment::inside(v, t, b) ==> containment::inside(v, t, x)
        }),
{
    let (a, b) = (input_splitting::lower_half(x, i), input_splitting::upper_half(x, i));
    let m = input_splitting::middle(x, i);
    exact::lemma_numbers(v);
    assert(v(m) * 2real == v(x.lb.data[i]) + v(x.ub.data[i]));
    assert(v(x.lb.data[i]) <= v(x.ub.data[i]));
    assert(v(x.lb.data[i]) <= v(m) <= v(x.ub.data[i]));
    assert forall|k: int| 0 <= k < x.lb.data.len() implies v(#[trigger] x.lb.data[k]) <= v(
        a.ub.data[k],
    ) <= v(x.ub.data[k]) && v(x.lb.data[k]) <= v(b.lb.data[k]) <= v(x.ub.data[k]) by {
        assert(v(x.lb.data[k]) <= v(x.ub.data[k]));
    }
    assert(containment::below(v, x.lb, a.ub));
    assert(containment::below(v, a.ub, a.ub));
    assert(containment::below(v, b.lb, x.ub));
    assert(containment::below(v, x.ub, x.ub));
    lemma_between(v, x.lb, a.ub, a.ub);
    lemma_between(v, b.lb, x.ub, x.ub);
    assert forall|t: TensorV<S>| #[trigger] containment::inside(v, t, x) implies containment::inside(
        v,
        t,
        a,
    ) || containment::inside(v, t, b) by {
        if v(t.data[i]) <= v(m) {
            assert forall|k: int| 0 <= k < t.data.len() implies v(#[trigger] t.data[k]) <= v(
                a.ub.data[k],
            ) by {
                assert(v(t.data[k]) <= v(x.ub.data[k]));
            }
            assert(containment::below(v, t, a.ub));
            lemma_between(v, x.lb, a.ub, t);
        } else {
            assert forall|k: int| 0 <= k < t.data.len() implies v(#[trigger] b.lb.data[k]) <= v(
                t.data[k],
            ) by {
                assert(v(x.lb.data[k]) <= v(t.data[k]));
            }
            assert(containment::below(v, b.lb, t));
            lemma_between(v, b.lb, x.ub, t);
        }
    }
    assert forall|t: TensorV<S>| #[trigger] containment::inside(v, t, a) implies containment::inside(
        v,
        t,
        x,
    ) by {
        assert forall|k: int| 0 <= k < t.data.len() implies v(#[trigger] t.data[k]) <= v(
            x.ub.data[k],
        ) by {
            assert(v(x.lb.data[k]) <= v(a.ub.data[k]) <= v(x.ub.data[k]));
        }
    }
    assert forall|t: TensorV<S>| #[trigger] containment::inside(v, t, b) implies containment::inside(
        v,
        t,
        x,
    ) by {
        assert forall|k: int| 0 <= k < t.data.len() implies v(#[trigger] x.lb.data[k]) <= v(
            t.data[k],
        ) by {
            assert(v(b.lb.data[k]) <= v(t.data[k]));
        }
    }
}

/// The halves of a box cover it and lie in it.
pub proof fn lemma_halves_cover<S: Scalar>(v: spec_fn(S) -> real)
    requires
        exact::exact(v),
    ensures
        splits_cover::<S, UniformSplit>(v, UniformSplit {  }),
{
    assert forall|b: Seq<IBPV<S>>|
        in_box(v, input_splitting::upper_ends(b), b) implies #[trigger] parts_hold(
        v,
        UniformSplit {  },
        b,
    ) by {
        lemma_first_wide(b, 0);
        if let Some(k) = input_splitting::first_wide(b, 0) {
            let x = b[k as int];
            let n = x.lb.data.len();
            let parts = input_splitting::halves(b)->Ok_0;
            let ends = input_splitting::upper_ends(b);
            assert(containment::inside(v, ends[k as int], b[k as int]));
            assert(x.ub == ends[k as int]);
            input_splitting::lemma_widest(x, n);
            let i = input_splitting::widest(x, n);
            if x.is_point {
                assert forall|j: int| 0 <= j < n implies (#[trigger] x.lb.data[j]).same(
                    x.ub.data[j],
                ) by {
                    assert(v(x.ub.data[j]) <= v(x.lb.data[j]));
                }
                assert(interval::all_same(x.lb, x.ub));
            }
            lemma_interval_halves(v, x, i);
            let (lo, hi) = (input_splitting::lower_half(x, i), input_splitting::upper_half(x, i));
            assert forall|xs: Seq<TensorV<S>>| #[trigger] in_box(v, xs, b) implies exists|j: int|
                0 <= j < parts.len() && in_box(v, xs, #[trigger] parts[j]) by {
                assert(containment::inside(v, xs[k as int], b[k as int]));
                if containment::inside(v, xs[k as int], lo) {
                    assert(in_box(v, xs, parts[0]));
                } else {
                    assert(in_box(v, xs, parts[1]));
                }
            }
            assert forall|j: int| 0 <= j < parts.len() implies nested(
                v,
                #[trigger] parts[j],
                b,
            ) by {
                let p = parts[j];
                let half = if j == 0 {
                    lo
                } else {
                    hi
                };
                assert(p == b.update(k as int, half));
                let e = input_splitting::upper_ends(p);
                assert forall|m: int| 0 <= m < p.len() implies containment::inside(
                    v,
                    e[m],
                    #[trigger] p[m],
                ) by {
                    assert(containment::inside(v, ends[m], b[m]));
                }
                assert forall|xs: Seq<TensorV<S>>| #[trigger] in_box(v, xs, p) implies in_box(
                    v,
                    xs,
                    b,
                ) by {
                    assert forall|m: int| 0 <= m < b.len() implies containment::inside(
                        v,
                        xs[m],
                        #[trigger] b[m],
                    ) by {
                        assert(containment::inside(v, xs[m], p[m]));
                    }
                }
            }
        }
    }
}

// ---- the search ----
/// Whether some box of a list holds some tensors.
pub open spec fn held<S: Scalar>(
    v: spec_fn(S) -> real,
    boxes: Seq<BoxV<S>>,
    from: int,
    xs: Seq<TensorV<S>>,
) -> bool {
    exists|j: int| from <= j < boxes.len() && in_box(v, xs, (#[trigger] boxes[j]).inputs)
}

/// Whether all boxes of a list are not empty and lie in one box.
pub open spec fn all_nested<S: Scalar>(
    v: spec_fn(S) -> real,
    boxes: Seq<BoxV<S>>,
    root: Seq<IBPV<S>>,
) -> bool {
    forall|j: int| 0 <= j < boxes.len() ==> nested(v, (#[trigger] boxes[j]).inputs, root)
}

/// Whether the batched evaluation of a graph bounds its outputs, on boxes that lie in `root` and of
/// which none is empty.
pub open spec fn batches_hold<S: Scalar>(
    v: spec_fn(S) -> real,
    g: GraphV<S>,
    root: Seq<IBPV<S>>,
) -> bool {
    forall|picked: Seq<BoxV<S>>, i: int, xs: Seq<TensorV<S>>|
        input_splitting::all_of_length(picked, root.len()) && all_nested(v, picked, root) && 0 <= i
            < picked.len() <= usize::MAX && in_box(v, xs, picked[i].inputs)
            ==> #[trigger] member_holds(v, g, root.len(), picked, i, xs)
}

/// Taking boxes out loses none and adds none.
pub(crate) proof fn lemma_taken<S: Scalar>(
    v: spec_fn(S) -> real,
    heap: Seq<BoxV<S>>,
    k: nat,
    root: Seq<IBPV<S>>,
)
    requires
        k <= heap.len(),
        all_nested(v, heap, root),
    ensures
        ({
            let (out, rest) = input_splitting::taken(heap, k);
            &&& out.len() == k
            &&& rest.len() == heap.len() - k
            &&& all_nested(v, out, root)
            &&& all_nested(v, rest, root)
            &&& forall|xs: Seq<TensorV<S>>| #[trigger]
                held(v, heap, 0, xs) ==> held(v, out, 0, xs) || held(v, rest, 0, xs)
        }),
    decreases k,
{
    if k > 0 {
        lemma_taken(v, heap, (k - 1) as nat, root);
        let (before, left) = input_splitting::taken(heap, (k - 1) as nat);
        let (out, rest) = input_splitting::taken(heap, k);
        let m = input_splitting::next_box(left);
        bab::lemma_first_least(input_splitting::box_keys(left), left.len());
        assert forall|xs: Seq<TensorV<S>>| #[trigger] held(v, heap, 0, xs) implies held(
            v,
            out,
            0,
            xs,
        ) || held(v, rest, 0, xs) by {
            if held(v, before, 0, xs) {
                let j = choose|j: int|
                    0 <= j < before.len() && in_box(v, xs, (#[trigger] before[j]).inputs);
                assert(out[j] == before[j]);
            } else {
                let j = choose|j: int|
                    0 <= j < left.len() && in_box(v, xs, (#[trigger] left[j]).inputs);
                if j == m {
                    assert(out[k - 1] == left[m]);
                } else if j < m {
                    assert(rest[j] == left[j]);
                } else {
                    assert(rest[j - 1] == left[j]);
                }
            }
        }
        assert forall|j: int| 0 <= j < out.len() implies nested(
            v,
            (#[trigger] out[j]).inputs,
            root,
        ) by {
            if j < k - 1 {
                assert(out[j] == before[j]);
            } else {
                assert(out[j] == left[m]);
            }
        }
        assert forall|j: int| 0 <= j < rest.len() implies nested(
            v,
            (#[trigger] rest[j]).inputs,
            root,
        ) by {
            if j < m {
                assert(rest[j] == left[j]);
            } else {
                assert(rest[j] == left[j + 1]);
            }
        }
    }
}

/// Some outputs are negative where bounds say so, and bounds say so where some are.
proof fn lemma_signs<S: Scalar>(
    v: spec_fn(S) -> real,
    ys: Seq<TensorV<S>>,
    out: Seq<IBPV<S>>,
)
    requires
        exact::exact(v),
        in_box(v, ys, out),
    ensures
        (exists|i: int| 0 <= i < ys.len() && bab::some_negative(#[trigger] ys[i]))
            ==> input_splitting::unclear(out),
        input_splitting::violated(out) ==> exists|i: int|
            0 <= i < ys.len() && bab::some_negative(#[trigger] ys[i]),
{
    let zero = scalar::zero::<S>();
    if exists|i: int| 0 <= i < ys.len() && bab::some_negative(#[trigger] ys[i]) {
        let i = choose|i: int| 0 <= i < ys.len() && bab::some_negative(#[trigger] ys[i]);
        let k = choose|k: int| 0 <= k < ys[i].data.len() && (#[trigger] ys[i].data[k]).less(zero);
        assert(containment::inside(v, ys[i], out[i]));
        assert(v(out[i].lb.data[k]) <= v(ys[i].data[k]));
        assert(out[i].lb.data[k].less(zero));
        assert(bab::some_negative(out[i].lb));
    }
    if input_splitting::violated(out) {
        let i = choose|i: int| 0 <= i < out.len() && bab::some_negative((#[trigger] out[i]).ub);
        let u = out[i].ub;
        let k = choose|k: int| 0 <= k < u.data.len() && (#[trigger] u.data[k]).less(zero);
        assert(containment::inside(v, ys[i], out[i]));
        assert(v(ys[i].data[k]) <= v(u.data[k]));
        assert(ys[i].data[k].less(zero));
        assert(bab::some_negative(ys[i]));
    }
}

/// Whether a reported verdict is right: the inputs lie in the box and have a negative output.
pub open spec fn verdict_holds<S: Scalar>(
    v: spec_fn(S) -> real,
    g: GraphV<S>,
    root: Seq<IBPV<S>>,
    verdict: VerdictV<S>,
) -> bool {
    match verdict {
        VerdictV::Unsafe(xs) => in_box(v, xs, root) && (eval::evaluated::<S, Tensor<S>>(
            (),
            g,
            xs,
        ).1 is Ok ==> violates(g, xs)),
        _ => true,
    }
}

/// Whether inputs with a negative output that one of two lists held from some place on are held by
/// a third list.
pub open spec fn kept<S: Scalar>(
    v: spec_fn(S) -> real,
    g: GraphV<S>,
    picked: Seq<BoxV<S>>,
    from: int,
    heap: Seq<BoxV<S>>,
    next: Seq<BoxV<S>>,
) -> bool {
    forall|xs: Seq<TensorV<S>>| #[trigger]
        violates(g, xs) && (held(v, picked, from, xs) || held(v, heap, 0, xs)) ==> held(
            v,
            next,
            0,
            xs,
        )
}

/// What one box leads to: no input with a negative output is lost.
proof fn lemma_classified_keeps<S: Scalar, P: InputSplit<S>>(
    v: spec_fn(S) -> real,
    g: GraphV<S>,
    split: P,
    config: BaBConfig<S>,
    inputs: Seq<IBPV<S>>,
    out: Seq<IBPV<S>>,
    heap: Seq<BoxV<S>>,
    next: Seq<BoxV<S>>,
    xs: Seq<TensorV<S>>,
)
    requires
        exact::exact(v),
        parts_hold(v, split, inputs),
        input_splitting::classified(split, config, inputs, out, heap) == Ok::<
            SearchV<S>,
            Fault,
        >(SearchV::Open(next)),
        violates(g, xs),
        in_box(v, xs, inputs) && in_box(
            v,
            eval::evaluated::<S, Tensor<S>>((), g, xs).1->Ok_0,
            out,
        ) || held(v, heap, 0, xs),
    ensures
        held(v, next, 0, xs),
{
    if held(v, heap, 0, xs) {
        let j = choose|j: int|
            0 <= j < heap.len() && in_box(v, xs, (#[trigger] heap[j]).inputs);
        assert(next[j] == heap[j]);
    } else {
        let ys = eval::evaluated::<S, Tensor<S>>((), g, xs).1->Ok_0;
        lemma_signs(v, ys, out);
        let parts = split.parts(inputs)->Ok_0;
        let j = choose|j: int| 0 <= j < parts.len() && in_box(v, xs, #[trigger] parts[j]);
        assert(next[heap.len() + j].inputs == parts[j]);
    }
}

/// What one box leads to lies in the root box.
pub(crate) proof fn lemma_classified_nested<S: Scalar, P: InputSplit<S>>(
    v: spec_fn(S) -> real,
    split: P,
    config: BaBConfig<S>,
    inputs: Seq<IBPV<S>>,
    out: Seq<IBPV<S>>,
    heap: Seq<BoxV<S>>,
    next: Seq<BoxV<S>>,
    root: Seq<IBPV<S>>,
)
    requires
        parts_hold(v, split, inputs),
        nested(v, inputs, root),
        all_nested(v, heap, root),
        input_splitting::classified(split, config, inputs, out, heap) == Ok::<
            SearchV<S>,
            Fault,
        >(SearchV::Open(next)),
    ensures
        all_nested(v, next, root),
{
    assert forall|j: int| 0 <= j < next.len() implies nested(
        v,
        (#[trigger] next[j]).inputs,
        root,
    ) by {
        if j < heap.len() {
            assert(next[j] == heap[j]);
        } else {
            let parts = split.parts(inputs)->Ok_0;
            assert(next[j].inputs == parts[j - heap.len()]);
            assert(nested(v, parts[j - heap.len()], inputs));
        }
    }
}

/// Examining boxes loses no input with a negative output, keeps to the box, and reports rightly.
#[verifier::rlimit(40)]
proof fn lemma_examined<S: Scalar, P: InputSplit<S>>(
    v: spec_fn(S) -> real,
    g: GraphV<S>,
    n: nat,
    split: P,
    config: BaBConfig<S>,
    picked: Seq<BoxV<S>>,
    outs: Seq<BatchV<S>>,
    heap: Seq<BoxV<S>>,
    i: nat,
    root: Seq<IBPV<S>>,
)
    requires
        exact::exact(v),
        n == root.len(),
        batches_hold(v, g, root),
        splits_cover(v, split),
        input_splitting::all_of_length(picked, n),
        input_splitting::batches(picked, n) matches Ok(b) && eval::evaluated::<
            S,
            IBPBatchedTensor<S>,
        >((), g, b).1 == Ok::<Seq<BatchV<S>>, Fault>(outs),
        picked.len() <= usize::MAX,
        all_nested(v, picked, root),
        all_nested(v, heap, root),
        i <= picked.len(),
    ensures
        match input_splitting::examined(split, config, picked, outs, heap, i) {
            Ok(SearchV::Open(next)) => all_nested(v, next, root) && kept(
                v,
                g,
                picked,
                i as int,
                heap,
                next,
            ),
            Ok(SearchV::Done(verdict)) => verdict != VerdictV::<S>::Safe && verdict_holds(
                v,
                g,
                root,
                verdict,
            ),
            Err(_) => true,
        },
    decreases picked.len() - i,
{
    if i < picked.len() {
        let inputs = picked[i as int].inputs;
        let member = input_splitting::members(outs, i as int);
        if member is Some {
            let out = member->Some_0;
            assert(nested(v, inputs, root));
            assert(parts_hold(v, split, inputs));
            let step = input_splitting::classified(split, config, inputs, out, heap);
            if step is Ok && step->Ok_0 is Open {
                let next = step->Ok_0->Open_0;
                lemma_classified_nested(v, split, config, inputs, out, heap, next, root);
                lemma_examined(v, g, n, split, config, picked, outs, next, i + 1, root);
                let last = input_splitting::examined(split, config, picked, outs, heap, i);
                if last is Ok && last->Ok_0 is Open {
                    let end = last->Ok_0->Open_0;
                    assert forall|xs: Seq<TensorV<S>>| #[trigger]
                        violates(g, xs) && (held(v, picked, i as int, xs) || held(
                            v,
                            heap,
                            0,
                            xs,
                        )) implies held(v, end, 0, xs) by {
                        if in_box(v, xs, inputs) || held(v, heap, 0, xs) {
                            if in_box(v, xs, inputs) {
                                assert(member_holds(v, g, n, picked, i as int, xs));
                            }
                            lemma_classified_keeps(
                                v,
                                g,
                                split,
                                config,
                                inputs,
                                out,
                                heap,
                                next,
                                xs,
                            );
                        } else {
                            let j = choose|j: int|
                                i <= j < picked.len() && in_box(
                                    v,
                                    xs,
                                    (#[trigger] picked[j]).inputs,
                                );
                            assert(held(v, picked, (i + 1) as int, xs));
                        }
                    }
                }
            } else if step is Ok && input_splitting::violated(out) {
                let ends = input_splitting::upper_ends(inputs);
                assert(member_holds(v, g, n, picked, i as int, ends));
                if eval::evaluated::<S, Tensor<S>>((), g, ends).1 is Ok {
                    let ys = eval::evaluated::<S, Tensor<S>>((), g, ends).1->Ok_0;
                    lemma_signs(v, ys, out);
                }
            }
        }
    }
}

/// The search over boxes decides rightly: a search that ends safe held no input with a negative
/// output, and what it reports lies in the box.
pub proof fn lemma_search_sound<S: Scalar, P: InputSplit<S>>(
    v: spec_fn(S) -> real,
    g: GraphV<S>,
    n: nat,
    split: P,
    config: BaBConfig<S>,
    heap: Seq<BoxV<S>>,
    fuel: nat,
    root: Seq<IBPV<S>>,
)
    requires
        exact::exact(v),
        n == root.len(),
        batches_hold(v, g, root),
        splits_cover(v, split),
        all_nested(v, heap, root),
    ensures
        match input_splitting::searched(g, n, split, config, heap, fuel) {
            Ok(VerdictV::Safe) => forall|xs: Seq<TensorV<S>>| #[trigger]
                held(v, heap, 0, xs) ==> !violates(g, xs),
            Ok(verdict) => verdict_holds(v, g, root, verdict),
            Err(_) => true,
        },
    decreases fuel,
{
    if fuel > 0 && heap.len() > 0 {
        let k = eval::shorter(config.batch_size as nat, heap.len());
        let (picked, rest) = input_splitting::taken(heap, k);
        lemma_taken(v, heap, k, root);
        if input_splitting::all_of_length(picked, n) {
            if let Ok(b) = input_splitting::batches(picked, n) {
                if let Ok(outs) = eval::evaluated::<S, IBPBatchedTensor<S>>((), g, b).1 {
                    lemma_examined(v, g, n, split, config, picked, outs, rest, 0, root);
                    if let Ok(SearchV::Open(next)) = input_splitting::round(
                        g,
                        n,
                        split,
                        config,
                        heap,
                    ) {
                        lemma_search_sound(
                            v,
                            g,
                            n,
                            split,
                            config,
                            next,
                            (fuel - 1) as nat,
                            root,
                        );
                        assert forall|xs: Seq<TensorV<S>>|
                            held(v, heap, 0, xs) && #[trigger] violates(g, xs) implies held(
                            v,
                            next,
                            0,
                            xs,
                        ) by {
                            assert(held(v, picked, 0, xs) || held(v, rest, 0, xs));
                        }
                    }
                }
            }
        }
    }
}

/// Branch and bound over a box decides rightly: where it says that the box is safe, no input in
/// the box has a negative output; inputs that it reports lie in the box, and where the graph has
/// outputs on them, one is negative.
pub proof fn lemma_input_verdict_sound<S: Scalar, P: InputSplit<S>>(
    v: spec_fn(S) -> real,
    g: GraphV<S>,
    inputs: Seq<IBPV<S>>,
    split: P,
    config: BaBConfig<S>,
)
    requires
        exact::exact(v),
        batches_hold(v, g, inputs),
        splits_cover(v, split),
        in_box(v, input_splitting::upper_ends(inputs), inputs),
    ensures
        match input_splitting::input_verdict(g, inputs, split, config) {
            Ok(VerdictV::Safe) => forall|xs: Seq<TensorV<S>>| #[trigger]
                in_box(v, xs, inputs) ==> !violates(g, xs),
            Ok(verdict) => verdict_holds(v, g, inputs, verdict),
            Err(_) => true,
        },
{
    let heap = seq![BoxV { lb: S::bottom(), inputs }];
    assert(heap[0].inputs == inputs);
    lemma_search_sound(
        v,
        g,
        inputs.len(),
        split,
        config,
        heap,
        config.max_iters as nat,
        inputs,
    );
    assert forall|xs: Seq<TensorV<S>>| #[trigger] in_box(v, xs, inputs) implies held(
        v,
        heap,
        0,
        xs,
    ) by {
        assert(in_box(v, xs, heap[0].inputs));
    }
}

} // verus!
