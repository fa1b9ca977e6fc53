//! Branch and bound over the inputs of a graph.

use vstd::prelude::*;
use crate::bab;
use crate::bab::{BaBConfig, BaBResult, VerdictV};
use crate::batched;
use crate::batched::{BatchV, IBPBatchedInterpreter, IBPBatchedTensor};
use crate::error::EvalError;
use crate::eval::Interpreter;
use crate::interval;
use crate::interval::{IBPTensor, IBPV};
use crate::model::{Fault, TensorV};
use crate::nn::{ComputeGraph, GraphV};
use crate::scalar;
use crate::scalar::Scalar;
use crate::tensor;
use crate::tensor::Tensor;
use crate::value;

verus! {

// ---- splitting ----
/// A way to split a box into parts.
pub trait InputSplit<S: Scalar> {
    /// The parts of a box.
    spec fn parts(&self, inputs: Seq<IBPV<S>>) -> Result<Seq<Seq<IBPV<S>>>, Fault>;

    /// The parts of a box.
    fn split(&self, inputs: &Vec<IBPTensor<S>>) -> (r: Result<Vec<Vec<IBPTensor<S>>>, EvalError>)
        ensures
            match (r, self.parts(value::models::<S, IBPTensor<S>>(inputs@))) {
                (Ok(v), Ok(m)) => v@.len() == m.len() && forall|i: int|
                    0 <= i < m.len() ==> value::models::<S, IBPTensor<S>>((#[trigger] v@[i])@)
                        == m[i],
                (Err(e), Err(f)) => e@ == f,
                _ => false,
            },
    ;
}

/// The number of the first input from `k` on that is no point.
pub open spec fn first_wide<S: Scalar>(inputs: Seq<IBPV<S>>, k: nat) -> Option<nat>
    decreases inputs.len() - k,
{
    if k >= inputs.len() {
        None
    } else if !interval::all_same(inputs[k as int].lb, inputs[k as int].ub) {
        Some(k)
    } else {
        first_wide(inputs, k + 1)
    }
}

/// The number of the last of the widest of the first `k` elements of an interval.
pub open spec fn widest<S: Scalar>(x: IBPV<S>, k: nat) -> int
    decreases k,
{
    if k <= 1 {
        0
    } else {
        let i = widest(x, (k - 1) as nat);
        if span(x, k - 1).less(span(x, i)) {
            i
        } else {
            k - 1
        }
    }
}

/// The width of an element of an interval.
pub open spec fn span<S: Scalar>(x: IBPV<S>, i: int) -> S {
    x.ub.data[i].minus(x.lb.data[i])
}

/// The middle of an element of an interval.
pub open spec fn middle<S: Scalar>(x: IBPV<S>, i: int) -> S {
    x.lb.data[i].plus(x.ub.data[i]).over(scalar::num(2))
}

/// A tensor with one element replaced.
pub open spec fn with_element<S>(t: TensorV<S>, i: int, v: S) -> TensorV<S> {
    TensorV { shape: t.shape, data: t.data.update(i, v) }
}

/// The half of an interval below the middle of element `i`.
pub open spec fn lower_half<S: Scalar>(x: IBPV<S>, i: int) -> IBPV<S> {
    interval::between(x.lb, with_element(x.ub, i, middle(x, i)))
}

/// The half of an interval above the middle of element `i`.
pub open spec fn upper_half<S: Scalar>(x: IBPV<S>, i: int) -> IBPV<S> {
    interval::between(with_element(x.lb, i, middle(x, i)), x.ub)
}

/// The halves of a box: the first input that is no point is cut in the middle of its widest
/// element.
pub open spec fn halves<S: Scalar>(inputs: Seq<IBPV<S>>) -> Result<Seq<Seq<IBPV<S>>>, Fault> {
    match first_wide(inputs, 0) {
        None => Err(Fault::Empty),
        Some(k) => {
            let x = inputs[k as int];
            let i = widest(x, x.lb.data.len());
            Ok(
                seq![
                    inputs.update(k as int, lower_half(x, i)),
                    inputs.update(k as int, upper_half(x, i)),
                ],
            )
        },
    }
}

/// The widest element is an element.
pub proof fn lemma_widest<S: Scalar>(x: IBPV<S>, k: nat)
    requires
        k > 0,
    ensures
        0 <= widest(x, k) < k,
    decreases k,
{
    if k > 1 {
        lemma_widest(x, (k - 1) as nat);
    }
}

/// A tensor with one element replaced.
fn replace_element<S: Scalar>(t: &Tensor<S>, i: usize, v: S) -> (r: Tensor<S>)
    requires
        i < t@.data.len(),
    ensures
        r@ == with_element(t@, i as int, v),
{
    let s = t.shape();
    let mut data = t.dup().into_inner();
    data.set(i, v);
    Tensor::make(tensor::copy_of(s), data)
}

/// A list of intervals with one replaced.
fn replace_box<S: Scalar>(inputs: &Vec<IBPTensor<S>>, k: usize, x: IBPTensor<S>) -> (r: Vec<
    IBPTensor<S>,
>)
    requires
        k < inputs@.len(),
    ensures
        bab::boxes(r@) == bab::boxes(inputs@).update(k as int, x@),
{
    let mut child = bab::copy_boxes(inputs);
    let ghost before = bab::boxes(child@);
    assert(child@.len() == before.len());
    child.set(k, x);
    assert(bab::boxes(child@) =~= before.update(k as int, x@));
    child
}

/// The halves of a box: the first input that is no point is cut in the middle of its widest
/// element. A box without such an input is an error.
pub fn uniform_split<S: Scalar>(inputs: &Vec<IBPTensor<S>>) -> (r: Result<
    Vec<Vec<IBPTensor<S>>>,
    EvalError,
>)
    ensures
        match (r, halves(bab::boxes(inputs@))) {
            (Ok(v), Ok(m)) => v@.len() == m.len() && forall|i: int|
                0 <= i < m.len() ==> bab::boxes((#[trigger] v@[i])@) == m[i],
            (Err(e), Err(f)) => e@ == f,
            _ => false,
        },
{
    let ghost all = bab::boxes(inputs@);
    let mut found: Option<usize> = None;
    for k in 0..inputs.len()
        invariant
            all == bab::boxes(inputs@),
            match found {
                Some(i) => i < inputs@.len() && first_wide(all, 0) == Some(i as nat)
                    && !interval::all_same(all[i as int].lb, all[i as int].ub),
                None => first_wide(all, 0) == first_wide(all, k as nat),
            },
    {
        assert(all[k as int] == inputs@[k as int]@);
        if found.is_none() && !interval::same_values(inputs[k].lb(), inputs[k].ub()) {
            found = Some(k);
        }
    }
    let split_idx = match found {
        Some(i) => i,
        None => {
            return Err(EvalError::Empty);
        },
    };
    let x = &inputs[split_idx];
    assert(all[split_idx as int] == x@);
    let (lb, ub) = (x.lb().values(), x.ub().values());
    // find the index with the biggest difference
    let mut best: usize = 0;
    let mut i: usize = 1;
    while i < lb.len()
        invariant
            lb@ == x@.lb.data,
            ub@ == x@.ub.data,
            lb@.len() == ub@.len(),
            lb@.len() > 0,
            1 <= i <= lb@.len(),
            best < i,
            best == widest(x@, i as nat),
        decreases lb@.len() - i,
    {
        if !ub[i].sub(lb[i]).is_lt(ub[best].sub(lb[best])) {
            best = i;
        }
        i = i + 1;
    }
    // construct new ub for left partition, as well as new lb for right partition (the midpoint
    // at the widest index)
    let mid = lb[best].add(ub[best]).div(scalar::number::<S>(2));
    let left_ub = replace_element(x.ub(), best, mid);
    let right_lb = replace_element(x.lb(), best, mid);
    let left = IBPTensor::spanning(x.lb().dup(), left_ub);
    let right = IBPTensor::spanning(right_lb, x.ub().dup());
    let left_child = replace_box(inputs, split_idx, left);
    let right_child = replace_box(inputs, split_idx, right);
    let out: Vec<Vec<IBPTensor<S>>> = vec![left_child, right_child];
    Ok(out)
}

/// Splits a box into halves.
pub struct UniformSplit {}

impl<S: Scalar> InputSplit<S> for UniformSplit {
    open spec fn parts(&self, inputs: Seq<IBPV<S>>) -> Result<Seq<Seq<IBPV<S>>>, Fault> {
        halves(inputs)
    }

    fn split(&self, inputs: &Vec<IBPTensor<S>>) -> (r: Result<Vec<Vec<IBPTensor<S>>>, EvalError>) {
        uniform_split(inputs)
    }
}

// ---- branches ----
/// A box with a lower bound of the outputs on a box that it came from.
pub struct BoxV<S> {
    pub lb: S,
    pub inputs: Seq<IBPV<S>>,
}

/// The bounds of some boxes.
pub open spec fn box_keys<S>(heap: Seq<BoxV<S>>) -> Seq<S> {
    Seq::new(heap.len(), |i: int| heap[i].lb)
}

/// Which box comes next: the first of those with the smallest bound.
pub open spec fn next_box<S: Scalar>(heap: Seq<BoxV<S>>) -> int {
    bab::first_least(box_keys(heap), heap.len())
}

/// The first `k` boxes to come, and those that remain.
pub open spec fn taken<S: Scalar>(heap: Seq<BoxV<S>>, k: nat) -> (Seq<BoxV<S>>, Seq<BoxV<S>>)
    decreases k,
{
    if k == 0 {
        (Seq::empty(), heap)
    } else {
        let (out, rest) = taken(heap, (k - 1) as nat);
        (out.push(rest[next_box(rest)]), rest.remove(next_box(rest)))
    }
}

/// The widest difference in the first `k` elements of an interval, or `x` if that is more.
pub open spec fn width_of<S: Scalar>(t: IBPV<S>, k: nat) -> S
    decreases k,
{
    if k == 0 {
        S::bottom()
    } else {
        width_of(t, (k - 1) as nat).larger(span(t, k - 1))
    }
}

/// The widest difference in the first `k` inputs.
pub open spec fn branch_width_of<S: Scalar>(inputs: Seq<IBPV<S>>, k: nat) -> S
    decreases k,
{
    if k == 0 {
        S::bottom()
    } else {
        branch_width_of(inputs, (k - 1) as nat).larger(
            width_of(inputs[k - 1], inputs[k - 1].lb.data.len()),
        )
    }
}

/// The widest difference in the inputs of a branch.
fn branch_width<S: Scalar>(inputs: &Vec<IBPTensor<S>>) -> (r: S)
    ensures
        r == branch_width_of(bab::boxes(inputs@), inputs@.len()),
{
    let ghost all = bab::boxes(inputs@);
    let mut a: S = S::neg_infinity();
    for i in 0..inputs.len()
        invariant
            all == bab::boxes(inputs@),
            a == branch_width_of(all, i as nat),
    {
        let t = &inputs[i];
        assert(all[i as int] == t@);
        let (lb, ub) = (t.lb().values(), t.ub().values());
        let mut b: S = S::neg_infinity();
        for j in 0..lb.len()
            invariant
                lb@ == t@.lb.data,
                ub@ == t@.ub.data,
                lb@.len() == ub@.len(),
                b == width_of(t@, j as nat),
        {
            b = b.max_of(ub[j].sub(lb[j]));
        }
        a = a.max_of(b);
    }
    a
}

/// The upper ends of some intervals.
pub open spec fn upper_ends<S>(inputs: Seq<IBPV<S>>) -> Seq<TensorV<S>> {
    batched::highs(inputs)
}

/// Whether some upper end is negative somewhere.
pub open spec fn violated<S: Scalar>(out: Seq<IBPV<S>>) -> bool {
    exists|j: int| 0 <= j < out.len() && bab::some_negative((#[trigger] out[j]).ub)
}

/// Whether some lower end is negative somewhere.
pub open spec fn unclear<S: Scalar>(out: Seq<IBPV<S>>) -> bool {
    exists|j: int| 0 <= j < out.len() && bab::some_negative((#[trigger] out[j]).lb)
}

/// Member number `i` of each batch, if all have one.
pub open spec fn members<S: Scalar>(outs: Seq<BatchV<S>>, i: int) -> Option<Seq<IBPV<S>>> {
    if forall|j: int|
        0 <= j < outs.len() ==> (#[trigger] outs[j]).lb.shape.len() > 0 && i < outs[j].lb.shape[0] {
        Some(Seq::new(outs.len(), |j: int| batched::member(outs[j], i)))
    } else {
        None
    }
}

/// What a step of the search leads to: a verdict, or the boxes still open.
pub enum SearchV<S> {
    Done(VerdictV<S>),
    Open(Seq<BoxV<S>>),
}

/// The boxes of some parts, with their common bound.
pub open spec fn children<S>(parts: Seq<Seq<IBPV<S>>>, lb: S) -> Seq<BoxV<S>> {
    Seq::new(parts.len(), |i: int| BoxV { lb, inputs: parts[i] })
}

/// What the bounds `out` of the outputs on a box lead to. A violation ends the search; a box that
/// is safe is discarded; any other box is split, unless it is too small.
pub open spec fn classified<S: Scalar, P: InputSplit<S>>(
    split: P,
    config: BaBConfig<S>,
    inputs: Seq<IBPV<S>>,
    out: Seq<IBPV<S>>,
    heap: Seq<BoxV<S>>,
) -> Result<SearchV<S>, Fault> {
    if violated(out) {
        Ok(SearchV::Done(VerdictV::Unsafe(upper_ends(inputs))))
    } else if !unclear(out) {
        Ok(SearchV::Open(heap))
    } else if branch_width_of(inputs, inputs.len()).less(config.min_width) {
        Ok(SearchV::Done(VerdictV::Undecided))
    } else {
        match split.parts(inputs) {
            Err(f) => Err(f),
            Ok(parts) => Ok(
                SearchV::Open(
                    heap + children(parts, bab::min_over(batched::lows(out), out.len())),
                ),
            ),
        }
    }
}

/// What the boxes from number `i` on lead to, in turn.
pub open spec fn examined<S: Scalar, P: InputSplit<S>>(
    split: P,
    config: BaBConfig<S>,
    picked: Seq<BoxV<S>>,
    outs: Seq<BatchV<S>>,
    heap: Seq<BoxV<S>>,
    i: nat,
) -> Result<SearchV<S>, Fault>
    decreases picked.len() - i,
{
    if i >= picked.len() {
        Ok(SearchV::Open(heap))
    } else {
        match members(outs, i as int) {
            None => Err(Fault::Graph),
            Some(out) => match classified(split, config, picked[i as int].inputs, out, heap) {
                Ok(SearchV::Open(next)) => examined(split, config, picked, outs, next, i + 1),
                done => done,
            },
        }
    }
}

/// Whether all boxes have `n` inputs.
pub open spec fn all_of_length<S>(picked: Seq<BoxV<S>>, n: nat) -> bool {
    forall|i: int| 0 <= i < picked.len() ==> (#[trigger] picked[i]).inputs.len() == n
}

/// The intervals at position `idx` of some boxes.
pub open spec fn position<S>(picked: Seq<BoxV<S>>, idx: int) -> Seq<IBPV<S>> {
    Seq::new(picked.len(), |i: int| picked[i].inputs[idx])
}

/// The first `k` inputs of a batched evaluation of some boxes.
pub open spec fn batches<S>(picked: Seq<BoxV<S>>, k: nat) -> Result<Seq<BatchV<S>>, Fault>
    decreases k,
{
    if k == 0 {
        Ok(Seq::empty())
    } else {
        match batches(picked, (k - 1) as nat) {
            Err(f) => Err(f),
            Ok(s) => match batched::batch_from(position(picked, k - 1)) {
                Ok(b) => Ok(s.push(b)),
                Err(f) => Err(f),
            },
        }
    }
}

/// One round of the search: the next boxes are evaluated in one batch and examined.
pub open spec fn round<S: Scalar, P: InputSplit<S>>(
    g: GraphV<S>,
    n: nat,
    split: P,
    config: BaBConfig<S>,
    heap: Seq<BoxV<S>>,
) -> Result<SearchV<S>, Fault> {
    let k = crate::eval::shorter(config.batch_size as nat, heap.len());
    let (picked, rest) = taken(heap, k);
    if !all_of_length(picked, n) {
        Err(Fault::Graph)
    } else {
        match batches(picked, n) {
            Err(f) => Err(f),
            Ok(b) => match crate::eval::evaluated::<S, IBPBatchedTensor<S>>((), g, b).1 {
                Err(f) => Err(f),
                Ok(outs) => examined(split, config, picked, outs, rest, 0),
            },
        }
    }
}

/// The verdict of at most `fuel` rounds.
pub open spec fn searched<S: Scalar, P: InputSplit<S>>(
    g: GraphV<S>,
    n: nat,
    split: P,
    config: BaBConfig<S>,
    heap: Seq<BoxV<S>>,
    fuel: nat,
) -> Result<VerdictV<S>, Fault>
    decreases fuel,
{
    if fuel == 0 {
        Ok(VerdictV::Undecided)
    } else if heap.len() == 0 {
        Ok(VerdictV::Safe)
    } else {
        match round(g, n, split, config, heap) {
            Err(f) => Err(f),
            Ok(SearchV::Done(v)) => Ok(v),
            Ok(SearchV::Open(next)) => searched(g, n, split, config, next, (fuel - 1) as nat),
        }
    }
}

/// The verdict of branch and bound on a box.
pub open spec fn input_verdict<S: Scalar, P: InputSplit<S>>(
    g: GraphV<S>,
    inputs: Seq<IBPV<S>>,
    split: P,
    config: BaBConfig<S>,
) -> Result<VerdictV<S>, Fault> {
    searched(
        g,
        inputs.len(),
        split,
        config,
        seq![BoxV { lb: S::bottom(), inputs }],
        config.max_iters as nat,
    )
}

// ---- execution ----
/// A box with a lower bound of the outputs on a box that it came from.
struct Branch<S> {
    lb: S,
    inputs: Vec<IBPTensor<S>>,
}

spec fn branch<S: Scalar>(b: Branch<S>) -> BoxV<S> {
    BoxV { lb: b.lb, inputs: bab::boxes(b.inputs@) }
}

spec fn branches<S: Scalar>(v: Seq<Branch<S>>) -> Seq<BoxV<S>> {
    Seq::new(v.len(), |i: int| branch(v[i]))
}

enum Search<S> {
    Done(BaBResult<S>),
    Open(Vec<Branch<S>>),
}

spec fn search_of<S: Scalar>(r: Result<Search<S>, EvalError>) -> Result<SearchV<S>, Fault> {
    match r {
        Ok(Search::Done(v)) => Ok(SearchV::Done(v@)),
        Ok(Search::Open(h)) => Ok(SearchV::Open(branches(h@))),
        Err(e) => Err(e@),
    }
}

/// Removes the box that comes next.
fn pop<S: Scalar>(heap: &mut Vec<Branch<S>>) -> (r: Branch<S>)
    requires
        old(heap)@.len() > 0,
    ensures
        branch(r) == branches(old(heap)@)[next_box(branches(old(heap)@))],
        branches(final(heap)@) == branches(old(heap)@).remove(next_box(branches(old(heap)@))),
{
    let ghost all = branches(heap@);
    let ghost keys = box_keys(all);
    let mut best: usize = 0;
    let mut i: usize = 1;
    while i < heap.len()
        invariant
            all == branches(heap@),
            keys == box_keys(all),
            1 <= i <= heap@.len(),
            best < i,
            best == bab::first_least(keys, i as nat),
        decreases heap@.len() - i,
    {
        assert(keys[i as int] == heap@[i as int].lb);
        assert(keys[best as int] == heap@[best as int].lb);
        if heap[i].lb.is_before(heap[best].lb) {
            best = i;
        }
        i = i + 1;
    }
    let r = heap.remove(best);
    assert(branches(heap@) =~= all.remove(best as int));
    r
}

/// Removes the first `k` boxes to come.
fn take<S: Scalar>(heap: &mut Vec<Branch<S>>, k: usize) -> (r: Vec<Branch<S>>)
    requires
        k <= old(heap)@.len(),
    ensures
        (branches(r@), branches(final(heap)@)) == taken(branches(old(heap)@), k as nat),
        r@.len() == k,
{
    let ghost all = branches(heap@);
    let mut out: Vec<Branch<S>> = Vec::new();
    assert(branches(out@) =~= Seq::<BoxV<S>>::empty());
    for i in 0..k
        invariant
            k <= all.len(),
            all == branches(old(heap)@),
            heap@.len() == all.len() - i,
            out@.len() == i,
            (branches(out@), branches(heap@)) == taken(all, i as nat),
    {
        let ghost before = branches(out@);
        let ghost h = branches(heap@);
        proof {
            bab::lemma_first_least(box_keys(h), h.len());
        }
        let b = pop(heap);
        assert(branches(heap@).len() == h.len() - 1);
        out.push(b);
        assert(branches(out@) =~= before.push(branch(b)));
    }
    out
}

/// The upper ends of some intervals.
fn copy_upper<S: Scalar>(inputs: &Vec<IBPTensor<S>>) -> (r: Vec<Tensor<S>>)
    ensures
        value::models::<S, Tensor<S>>(r@) == upper_ends(bab::boxes(inputs@)),
{
    let mut cex: Vec<Tensor<S>> = Vec::new();
    for i in 0..inputs.len()
        invariant
            cex@.len() == i,
            forall|j: int| 0 <= j < i ==> (#[trigger] cex@[j])@ == inputs@[j]@.ub,
    {
        cex.push(inputs[i].ub().dup());
    }
    assert(value::models::<S, Tensor<S>>(cex@) =~= upper_ends(bab::boxes(inputs@)));
    cex
}

/// What the bounds of the outputs on a box lead to.
fn classify<S: Scalar, P: InputSplit<S>>(
    split: &P,
    config: &BaBConfig<S>,
    inputs: &Vec<IBPTensor<S>>,
    out: &Vec<IBPTensor<S>>,
    heap: Vec<Branch<S>>,
) -> (r: Result<Search<S>, EvalError>)
    ensures
        search_of(r) == classified(
            *split,
            *config,
            bab::boxes(inputs@),
            bab::boxes(out@),
            branches(heap@),
        ),
{
    let ghost outs = bab::boxes(out@);
    let mut broken: bool = false;
    let mut open: bool = false;
    let mut least: S = S::infinity();
    for j in 0..out.len()
        invariant
            outs == bab::boxes(out@),
            broken == exists|i: int| 0 <= i < j && bab::some_negative((#[trigger] outs[i]).ub),
            open == exists|i: int| 0 <= i < j && bab::some_negative((#[trigger] outs[i]).lb),
            least == bab::min_over(batched::lows(outs), j as nat),
    {
        assert(outs[j as int] == out@[j as int]@);
        assert(batched::lows(outs)[j as int] == out@[j as int]@.lb);
        if bab::has_negative(out[j].ub()) {
            broken = true;
        }
        if bab::has_negative(out[j].lb()) {
            open = true;
        }
        least = bab::smallest(out[j].lb(), least);
    }
    // ub < 0: definite violation of property
    if broken {
        let cex = copy_upper(inputs);
        return Ok(Search::Done(BaBResult::Unsafe(cex)));
    }
    // lb >= 0: this branch is safe, discard
    if !open {
        return Ok(Search::Open(heap));
    }
    // check if maximal dimension (branch width) is below min_width threshold
    if branch_width(inputs).is_lt(config.min_width) {
        return Ok(Search::Done(BaBResult::Undecided));
    }
    // lb < 0 <= ub: undecided; keep splitting
    let parts = split.split(inputs)?;
    let ghost ms = split.parts(bab::boxes(inputs@))->Ok_0;
    let ghost start = branches(heap@);
    let ghost more = children(ms, least);
    let mut heap = heap;
    let mut left = parts;
    let ghost total = ms.len();
    let n = left.len();
    for i in 0..n
        invariant
            n == total,
            total == ms.len(),
            more == children(ms, least),
            left@.len() == n - i,
            forall|j: int|
                0 <= j < left@.len() ==> value::models::<S, IBPTensor<S>>(
                    (#[trigger] left@[j])@,
                ) == ms[i + j],
            branches(heap@) == start + more.subrange(0, i as int),
    {
        let ghost old_left = left@;
        let child = left.remove(0);
        assert forall|j: int| 0 <= j < left@.len() implies value::models::<S, IBPTensor<S>>(
            (#[trigger] left@[j])@,
        ) == ms[(i + 1) + j] by {
            assert(left@[j] == old_left[j + 1]);
        }
        assert(value::models::<S, IBPTensor<S>>(old_left[0]@) == ms[i as int]);
        let ghost before = branches(heap@);
        let b = Branch { lb: least, inputs: child };
        let ghost bv = branch(b);
        heap.push(b);
        proof {
            assert(bv == more[i as int]);
            assert(branches(heap@) =~= before.push(bv));
            assert(before.push(bv) =~= start + more.subrange(0, i + 1));
        }
    }
    assert(more.subrange(0, more.len() as int) =~= more);
    Ok(Search::Open(heap))
}

/// Member number `i` of each batch, if all have one.
fn pick_members<S: Scalar>(outs: &Vec<IBPBatchedTensor<S>>, i: usize) -> (r: Option<
    Vec<IBPTensor<S>>,
>)
    ensures
        match (r, members(value::models::<S, IBPBatchedTensor<S>>(outs@), i as int)) {
            (Some(v), Some(m)) => bab::boxes(v@) == m,
            (None, None) => true,
            _ => false,
        },
{
    let ghost ms = value::models::<S, IBPBatchedTensor<S>>(outs@);
    let mut out: Vec<IBPTensor<S>> = Vec::new();
    for j in 0..outs.len()
        invariant
            ms == value::models::<S, IBPBatchedTensor<S>>(outs@),
            out@.len() == j,
            forall|k: int|
                0 <= k < j ==> (#[trigger] ms[k]).lb.shape.len() > 0 && i < ms[k].lb.shape[0],
            forall|k: int|
                0 <= k < j ==> (#[trigger] out@[k])@ == batched::member(ms[k], i as int),
    {
        assert(ms[j as int] == outs@[j as int]@);
        let s = outs[j].lb().shape();
        if s.len() == 0 || i >= s[0] {
            return None;
        }
        out.push(outs[j].get(i));
    }
    assert(bab::boxes(out@) =~= members(ms, i as int)->Some_0);
    Some(out)
}

/// What some boxes lead to, in turn.
fn examine<S: Scalar, P: InputSplit<S>>(
    split: &P,
    config: &BaBConfig<S>,
    picked: &Vec<Branch<S>>,
    outs: &Vec<IBPBatchedTensor<S>>,
    heap: Vec<Branch<S>>,
) -> (r: Result<Search<S>, EvalError>)
    ensures
        search_of(r) == examined(
            *split,
            *config,
            branches(picked@),
            value::models::<S, IBPBatchedTensor<S>>(outs@),
            branches(heap@),
            0,
        ),
{
    let ghost ms = value::models::<S, IBPBatchedTensor<S>>(outs@);
    let ghost ps = branches(picked@);
    let ghost goal = examined(*split, *config, ps, ms, branches(heap@), 0);
    let mut now = heap;
    for i in 0..picked.len()
        invariant
            ms == value::models::<S, IBPBatchedTensor<S>>(outs@),
            ps == branches(picked@),
            goal == examined(*split, *config, ps, ms, branches(heap@), 0),
            goal == examined(*split, *config, ps, ms, branches(now@), i as nat),
    {
        assert(ps[i as int] == branch(picked@[i as int]));
        let out = match pick_members(outs, i) {
            Some(v) => v,
            None => {
                return Err(EvalError::Graph);
            },
        };
        match classify(split, config, &picked[i].inputs, &out, now)? {
            Search::Done(v) => {
                return Ok(Search::Done(v));
            },
            Search::Open(next) => {
                now = next;
            },
        }
    }
    Ok(Search::Open(now))
}

/// A failure decides the outcome.
proof fn lemma_batches_fail<S>(picked: Seq<BoxV<S>>, i: nat, k: nat)
    requires
        i <= k,
        batches(picked, i) is Err,
    ensures
        batches(picked, k) == batches(picked, i),
    decreases k,
{
    if i < k {
        lemma_batches_fail(picked, i, (k - 1) as nat);
    }
}

/// The inputs of a batched evaluation of some boxes.
fn stack<S: Scalar>(picked: &Vec<Branch<S>>, n: usize) -> (r: Result<
    Vec<IBPBatchedTensor<S>>,
    EvalError,
>)
    requires
        all_of_length(branches(picked@), n as nat),
    ensures
        value::results::<S, IBPBatchedTensor<S>>(r) == batches(branches(picked@), n as nat),
{
    let ghost ps = branches(picked@);
    let mut lists: Vec<&Vec<IBPTensor<S>>> = Vec::new();
    for i in 0..picked.len()
        invariant
            lists@.len() == i,
            forall|j: int| 0 <= j < i ==> *(#[trigger] lists@[j]) == picked@[j].inputs,
    {
        lists.push(&picked[i].inputs);
    }
    let mut out: Vec<IBPBatchedTensor<S>> = Vec::new();
    assert(value::models::<S, IBPBatchedTensor<S>>(out@) =~= Seq::<BatchV<S>>::empty());
    assert forall|i: int| 0 <= i < lists@.len() implies (#[trigger] lists@[i])@.len() == n by {
        assert(ps[i].inputs.len() == n);
    }
    for idx in 0..n
        invariant
            ps == branches(picked@),
            lists@.len() == picked@.len(),
            forall|j: int| 0 <= j < lists@.len() ==> *(#[trigger] lists@[j]) == picked@[j].inputs,
            forall|i: int| 0 <= i < lists@.len() ==> (#[trigger] lists@[i])@.len() == n,
            batches(ps, idx as nat) == Ok::<Seq<BatchV<S>>, Fault>(
                value::models::<S, IBPBatchedTensor<S>>(out@),
            ),
    {
        proof {
            assert(batched::column(lists@, idx as int) =~= position(ps, idx as int));
            if batches(ps, (idx + 1) as nat) is Err {
                lemma_batches_fail(ps, (idx + 1) as nat, n as nat);
            }
        }
        let b = IBPBatchedTensor::stack_input(&lists, idx)?;
        let ghost before = value::models::<S, IBPBatchedTensor<S>>(out@);
        let ghost bm = b@;
        out.push(b);
        assert(value::models::<S, IBPBatchedTensor<S>>(out@) =~= before.push(bm));
    }
    Ok(out)
}

/// Whether all boxes have `n` inputs.
fn same_length<S: Scalar>(picked: &Vec<Branch<S>>, n: usize) -> (r: bool)
    ensures
        r == all_of_length(branches(picked@), n as nat),
{
    let ghost ps = branches(picked@);
    for i in 0..picked.len()
        invariant
            ps == branches(picked@),
            forall|j: int| 0 <= j < i ==> (#[trigger] ps[j]).inputs.len() == n,
    {
        assert(ps[i as int] == branch(picked@[i as int]));
        if picked[i].inputs.len() != n {
            return false;
        }
    }
    true
}

/// Searches a box for inputs on which an output of a graph is negative. Boxes whose outputs are
/// bounded away from zero are settled; any other box is split, the one with the smallest bound
/// first.
pub fn input_splitting_bab<S: Scalar, P: InputSplit<S>>(
    graph: &ComputeGraph<S>,
    inputs: &Vec<IBPTensor<S>>,
    split: &P,
    config: &BaBConfig<S>,
) -> (r: Result<BaBResult<S>, EvalError>)
    requires
        config.batch_size >= 1,
    ensures
        (match r {
            Ok(v) => Ok(v@),
            Err(e) => Err(e@),
        }) == input_verdict(graph@, bab::boxes(inputs@), *split, *config),
{
    let n = inputs.len();
    // priority heap (lower lb first)
    let mut heap: Vec<Branch<S>> = vec![
        Branch { lb: S::neg_infinity(), inputs: bab::copy_boxes(inputs) },
    ];
    let ghost start = seq![BoxV { lb: S::bottom(), inputs: bab::boxes(inputs@) }];
    assert(branches(heap@) =~= start);
    let ghost goal = input_verdict(graph@, bab::boxes(inputs@), *split, *config);
    // max iterations
    for i in 0..config.max_iters
        invariant
            n == inputs@.len(),
            config.batch_size >= 1,
            goal == input_verdict(graph@, bab::boxes(inputs@), *split, *config),
            goal == searched(
                graph@,
                n as nat,
                *split,
                *config,
                branches(heap@),
                (config.max_iters - i) as nat,
            ),
    {
        if heap.len() == 0 {
            return Ok(BaBResult::Safe);
        }
        let k = if config.batch_size <= heap.len() {
            config.batch_size
        } else {
            heap.len()
        };
        // choose k branches
        let picked = take(&mut heap, k);
        if !same_length(&picked, n) {
            return Err(EvalError::Graph);
        }
        // stack per input position -> one batch per network input
        let batched_inputs = stack(&picked, n)?;
        // single batched IBP forward pass
        let outs = IBPBatchedInterpreter::run(graph, &batched_inputs)?;
        // Unstack and classify each output
        match examine(split, config, &picked, &outs, heap)? {
            Search::Done(v) => {
                return Ok(v);
            },
            Search::Open(next) => {
                heap = next;
            },
        }
    }
    Ok(BaBResult::Undecided)
}

} // verus!
