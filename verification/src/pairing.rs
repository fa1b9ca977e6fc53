//! Inner products of tensors of exact numbers, and what programs of tensor operations compute.

use vstd::prelude::*;
use crate::exact;
use crate::manipulate;
use crate::model;
use crate::model::{BinOpV, Fault, TensorV, UnOpV};
use crate::reals;
use crate::scalar::Scalar;
use crate::shape;
use crate::sums;
use crate::tensor::Tensor;
use crate::value;
use crate::value::{Reg, StepV};
use crate::vjp;
use crate::vjp::RuleV;

verus! {

/// Whether the elements of a tensor fill its shape, whose rank an `isize` can count.
pub open spec fn sizable<S>(t: TensorV<S>) -> bool {
    reals::full(t) && t.shape.len() <= isize::MAX
}

/// The inner product of two tensors of one shape.
pub open spec fn pairing<S>(v: spec_fn(S) -> real, w: TensorV<S>, x: TensorV<S>) -> real {
    sums::sum(|k: int| v(w.data[k]) * v(x.data[k]), w.data.len())
}

/// The inner product of a tensor with another that is broadcast to its shape.
pub open spec fn spread<S>(v: spec_fn(S) -> real, w: TensorV<S>, x: TensorV<S>) -> real {
    sums::sum(
        |k: int| v(w.data[k]) * v(x.data[shape::source_index(k, w.shape, x.shape)]),
        w.data.len(),
    )
}

// ---- broadcasting ----
/// A shape broadcasts to itself.
pub proof fn lemma_same_shape(s: Seq<usize>)
    ensures
        shape::broadcast(s, s) == Some(s),
        shape::expands_to(s, s),
{
    let n = s.len() as int;
    assert forall|i: int| 0 <= i < n implies shape::dims_agree(
        #[trigger] shape::aligned(s, n, i),
        shape::aligned(s, n, i),
    ) by {}
    assert(shape::broadcast(s, s)->0 =~= s);
}

/// Each element of a tensor that is broadcast to its own shape stays where it is.
pub proof fn lemma_same_index(k: int, s: Seq<usize>)
    requires
        0 <= k < shape::product(s),
    ensures
        shape::source_index(k, s, s) == k,
    decreases s.len(),
{
    if s.len() > 0 {
        let d = s.last() as int;
        let p = shape::product(s.drop_last()) as int;
        manipulate::lemma_row(k, p, d);
        lemma_same_index(k / d, s.drop_last());
        if d == 1 {
            assert(k % 1 == 0) by (nonlinear_arith);
        }
    } else {
        assert(shape::product(s) == 1);
    }
}

/// A tensor without axes broadcasts to every shape.
pub proof fn lemma_scalar_shape(s: Seq<usize>)
    ensures
        shape::broadcast(s, Seq::<usize>::empty()) == Some(s),
        shape::broadcast(Seq::<usize>::empty(), s) == Some(s),
        shape::expands_to(Seq::<usize>::empty(), s),
        shape::product(Seq::<usize>::empty()) == 1,
{
    let e = Seq::<usize>::empty();
    let n = s.len() as int;
    assert forall|i: int| 0 <= i < n implies shape::dims_agree(
        #[trigger] shape::aligned(s, n, i),
        shape::aligned(e, n, i),
    ) by {}
    assert(shape::broadcast(s, e)->0 =~= s);
    assert forall|i: int| 0 <= i < n implies shape::dims_agree(
        #[trigger] shape::aligned(e, n, i),
        shape::aligned(s, n, i),
    ) by {}
    assert(shape::broadcast(e, s)->0 =~= s);
}

/// Inner products with a tensor of the same shape.
pub proof fn lemma_spread_same<S>(v: spec_fn(S) -> real, w: TensorV<S>, x: TensorV<S>)
    requires
        w.shape == x.shape,
        reals::full(w),
        reals::full(x),
    ensures
        spread(v, w, x) == pairing(v, w, x),
{
    let f = |k: int| v(w.data[k]) * v(x.data[shape::source_index(k, w.shape, x.shape)]);
    let g = |k: int| v(w.data[k]) * v(x.data[k]);
    assert forall|k: int| 0 <= k < w.data.len() implies #[trigger] f(k) == g(k) by {
        lemma_same_index(k, w.shape);
    }
    sums::lemma_sum_same(f, g, w.data.len());
}

// ---- single operations ----
/// The sum of two tensors, with broadcasting.
pub proof fn lemma_add<S: Scalar>(
    v: spec_fn(S) -> real,
    a: TensorV<S>,
    b: TensorV<S>,
    c: TensorV<S>,
)
    requires
        exact::exact(v),
        reals::full(a),
        reals::full(b),
        model::bin_tensor(BinOpV::Add, a, b) == Ok::<TensorV<S>, Fault>(c),
    ensures
        sizable(c),
        shape::broadcast(a.shape, b.shape) == Some(c.shape),
        forall|r: int|
            0 <= r < c.data.len() ==> v(#[trigger] c.data[r]) == v(
                a.data[shape::source_index(r, c.shape, a.shape)],
            ) + v(b.data[shape::source_index(r, c.shape, b.shape)]),
{
}

/// The product of the elements of two tensors, with broadcasting.
pub proof fn lemma_mul<S: Scalar>(
    v: spec_fn(S) -> real,
    a: TensorV<S>,
    b: TensorV<S>,
    c: TensorV<S>,
)
    requires
        exact::exact(v),
        reals::full(a),
        reals::full(b),
        model::bin_tensor(BinOpV::Mul, a, b) == Ok::<TensorV<S>, Fault>(c),
    ensures
        sizable(c),
        shape::broadcast(a.shape, b.shape) == Some(c.shape),
        forall|r: int|
            0 <= r < c.data.len() ==> v(#[trigger] c.data[r]) == v(
                a.data[shape::source_index(r, c.shape, a.shape)],
            ) * v(b.data[shape::source_index(r, c.shape, b.shape)]),
{
}

/// The sum of two tensors of one shape.
pub proof fn lemma_add_same<S: Scalar>(
    v: spec_fn(S) -> real,
    a: TensorV<S>,
    b: TensorV<S>,
    c: TensorV<S>,
)
    requires
        exact::exact(v),
        reals::full(a),
        reals::full(b),
        a.shape == b.shape,
        model::bin_tensor(BinOpV::Add, a, b) == Ok::<TensorV<S>, Fault>(c),
    ensures
        sizable(c),
        c.shape == a.shape,
        forall|r: int|
            0 <= r < c.data.len() ==> v(#[trigger] c.data[r]) == v(a.data[r]) + v(b.data[r]),
{
    lemma_add(v, a, b, c);
    lemma_same_shape(a.shape);
    assert forall|r: int| 0 <= r < c.data.len() implies v(#[trigger] c.data[r]) == v(a.data[r])
        + v(b.data[r]) by {
        lemma_same_index(r, a.shape);
    }
}

/// The product of the elements of two tensors of one shape.
pub proof fn lemma_mul_same<S: Scalar>(
    v: spec_fn(S) -> real,
    a: TensorV<S>,
    b: TensorV<S>,
    c: TensorV<S>,
)
    requires
        exact::exact(v),
        reals::full(a),
        reals::full(b),
        a.shape == b.shape,
        model::bin_tensor(BinOpV::Mul, a, b) == Ok::<TensorV<S>, Fault>(c),
    ensures
        sizable(c),
        c.shape == a.shape,
        forall|r: int|
            0 <= r < c.data.len() ==> v(#[trigger] c.data[r]) == v(a.data[r]) * v(b.data[r]),
{
    lemma_mul(v, a, b, c);
    lemma_same_shape(a.shape);
    assert forall|r: int| 0 <= r < c.data.len() implies v(#[trigger] c.data[r]) == v(a.data[r])
        * v(b.data[r]) by {
        lemma_same_index(r, a.shape);
    }
}

// ---- the sum of all elements ----
/// The sum along the last axis.
proof fn lemma_sum_last<S: Scalar>(v: spec_fn(S) -> real, t: TensorV<S>)
    requires
        exact::exact(v),
        reals::full(t),
        t.shape.len() > 0,
    ensures
        ({
            let u = model::sum_axis(t, t.shape.len() - 1);
            &&& u.shape == t.shape.drop_last()
            &&& reals::full(u)
            &&& sums::sum(|k: int| v(u.data[k]), u.data.len()) == sums::sum(
                |k: int| v(t.data[k]),
                t.data.len(),
            )
        }),
{
    let ax = t.shape.len() - 1;
    let u = model::sum_axis(t, ax);
    let d = t.shape.last() as nat;
    let p = shape::product(t.shape.drop_last());
    assert(t.shape.remove(ax) =~= t.shape.drop_last());
    assert(t.shape.subrange(ax + 1, t.shape.len() as int) =~= Seq::<usize>::empty());
    assert(model::inner_size(t.shape, ax) == 1);
    let f = |k: int| v(t.data[k]);
    let g = |k: int| v(u.data[k]);
    let h = |i: int| sums::sum(|j: int| f(i * d + j), d);
    sums::lemma_sum_blocks(f, p, d);
    assert forall|q: int| 0 <= q < p implies #[trigger] g(q) == h(q) by {
        reals::lemma_line_sum(v, t.data, d as int, 1, q, d);
        let a = |i: int| v(t.data[reals::on_line(d as int, 1, q, i)]);
        let b = |j: int| f(q * d + j);
        assert forall|i: int| 0 <= i < d implies #[trigger] a(i) == b(i) by {
            assert(q / 1 == q && q % 1 == 0) by (nonlinear_arith);
        }
        sums::lemma_sum_same(a, b, d);
    }
    sums::lemma_sum_same(g, h, p);
}

/// The sum along all axes.
proof fn lemma_sum_axes_all<S: Scalar>(v: spec_fn(S) -> real, t: TensorV<S>, n: nat)
    requires
        exact::exact(v),
        reals::full(t),
        t.shape.len() <= n <= isize::MAX,
    ensures
        ({
            let u = model::sum_axes(t, value::all_axes(n), n as int, t.shape.len());
            &&& u.shape == Seq::<usize>::empty()
            &&& reals::full(u)
            &&& v(u.data[0]) == sums::sum(|k: int| v(t.data[k]), t.data.len())
        }),
    decreases t.shape.len(),
{
    let k = t.shape.len();
    if k > 0 {
        let axes = value::all_axes(n);
        assert(shape::norm_axis(axes[k - 1] as int, n as int) == k - 1);
        assert(model::names_axis(axes, n as int, k - 1));
        lemma_sum_last(v, t);
        lemma_sum_axes_all(v, model::sum_axis(t, k - 1), n);
    } else {
        assert(t.shape =~= Seq::<usize>::empty());
        assert(shape::product(t.shape) == 1);
        let f = |k: int| v(t.data[k]);
        assert(sums::sum(f, 0) == 0real);
        assert(sums::sum(f, 1) == f(0));
    }
}

/// Whether a tensor holds one number and has no axes.
pub open spec fn is_scalar<S>(t: TensorV<S>) -> bool {
    t.shape == Seq::<usize>::empty() && t.data.len() == 1
}

/// The sum of all elements.
pub proof fn lemma_sum_all<S: Scalar>(v: spec_fn(S) -> real, t: TensorV<S>, u: TensorV<S>)
    requires
        exact::exact(v),
        sizable(t),
        model::un_tensor(UnOpV::ReduceSum(value::all_axes(t.shape.len())), t) == Ok::<
            TensorV<S>,
            Fault,
        >(u),
    ensures
        is_scalar(u),
        v(u.data[0]) == sums::sum(|k: int| v(t.data[k]), t.data.len()),
{
    let n = t.shape.len();
    lemma_sum_axes_all(v, t, n);
    reals::lemma_sum_axes_full(t, value::all_axes(n), n as int, n);
    assert(shape::product(Seq::<usize>::empty()) == 1);
}

/// The sum of two numbers.
pub proof fn lemma_add_scalars<S: Scalar>(
    v: spec_fn(S) -> real,
    a: TensorV<S>,
    b: TensorV<S>,
    c: TensorV<S>,
)
    requires
        exact::exact(v),
        is_scalar(a),
        is_scalar(b),
        model::bin_tensor(BinOpV::Add, a, b) == Ok::<TensorV<S>, Fault>(c),
    ensures
        is_scalar(c),
        v(c.data[0]) == v(a.data[0]) + v(b.data[0]),
{
    assert(shape::product(Seq::<usize>::empty()) == 1);
    lemma_add_same(v, a, b, c);
}

// ---- programs ----
/// Whether step `i` of a program gave its result.
pub open spec fn works<S: Scalar>(
    steps: Seq<StepV<S>>,
    inputs: Seq<TensorV<S>>,
    done: Seq<TensorV<S>>,
    i: int,
) -> bool {
    value::step::<S, Tensor<S>>((), steps[i], inputs, done.subrange(0, i)).1 == Ok::<
        TensorV<S>,
        Fault,
    >(done[i])
}

/// A program that has run gave a result at each step.
proof fn lemma_played<S: Scalar>(
    steps: Seq<StepV<S>>,
    inputs: Seq<TensorV<S>>,
    done: Seq<TensorV<S>>,
    all: Seq<TensorV<S>>,
)
    requires
        done.len() <= steps.len(),
        value::play::<S, Tensor<S>>((), steps, inputs, done).1 == Ok::<Seq<TensorV<S>>, Fault>(
            all,
        ),
        forall|i: int| 0 <= i < done.len() ==> #[trigger] works(steps, inputs, done, i),
    ensures
        all.len() == steps.len(),
        forall|i: int| 0 <= i < steps.len() ==> #[trigger] works(steps, inputs, all, i),
    decreases steps.len() - done.len(),
{
    if done.len() < steps.len() {
        let x = value::step::<S, Tensor<S>>(
            (),
            steps[done.len() as int],
            inputs,
            done,
        ).1->Ok_0;
        let next = done.push(x);
        assert forall|i: int| 0 <= i < next.len() implies #[trigger] works(
            steps,
            inputs,
            next,
            i,
        ) by {
            if i < done.len() {
                assert(works(steps, inputs, done, i));
                assert(next.subrange(0, i) =~= done.subrange(0, i));
            } else {
                assert(next.subrange(0, i) =~= done);
            }
        }
        lemma_played(steps, inputs, next, all);
    }
}

/// Whether each step of a program gave its result.
pub open spec fn ran<S: Scalar>(
    steps: Seq<StepV<S>>,
    inputs: Seq<TensorV<S>>,
    all: Seq<TensorV<S>>,
) -> bool {
    &&& all.len() == steps.len()
    &&& forall|i: int| 0 <= i < steps.len() ==> #[trigger] works(steps, inputs, all, i)
}

/// A program that has run gave a result at each step.
pub proof fn lemma_ran<S: Scalar>(
    steps: Seq<StepV<S>>,
    inputs: Seq<TensorV<S>>,
    all: Seq<TensorV<S>>,
)
    requires
        value::run_steps::<S, Tensor<S>>((), steps, inputs).1 == Ok::<Seq<TensorV<S>>, Fault>(all),
    ensures
        ran(steps, inputs, all),
{
    lemma_played(steps, inputs, Seq::empty(), all);
}

/// The value that an operand names in a finished program.
pub open spec fn named<S>(r: Reg, inputs: Seq<TensorV<S>>, all: Seq<TensorV<S>>) -> TensorV<S> {
    match r {
        Reg::In(i) => inputs[i as int],
        Reg::Out(i) => all[i as int],
    }
}

/// What step `i` of a finished program computed.
pub open spec fn computed<S: Scalar>(
    s: StepV<S>,
    inputs: Seq<TensorV<S>>,
    all: Seq<TensorV<S>>,
) -> Result<TensorV<S>, Fault> {
    match s {
        StepV::Load(t) => Ok(t),
        StepV::Un(op, a) => model::un_tensor(op, named(a, inputs, all)),
        StepV::Bin(op, a, b) => model::bin_tensor(
            op,
            named(a, inputs, all),
            named(b, inputs, all),
        ),
        StepV::Select(p, a, b) => model::select_tensor(
            named(p, inputs, all),
            named(a, inputs, all),
            named(b, inputs, all),
        ),
        StepV::SumAll(a) => {
            let x = named(a, inputs, all);
            model::un_tensor(UnOpV::ReduceSum(value::all_axes(x.shape.len())), x)
        },
    }
}

/// Whether a program ran to these results.
#[verifier::opaque]
pub open spec fn performed<S: Scalar>(
    steps: Seq<StepV<S>>,
    inputs: Seq<TensorV<S>>,
    all: Seq<TensorV<S>>,
) -> bool {
    &&& all.len() == steps.len()
    &&& forall|i: int|
        #![trigger all[i]]
        #![trigger steps[i]]
        0 <= i < steps.len() ==> computed(steps[i], inputs, all) == Ok::<TensorV<S>, Fault>(all[i])
}

/// A program whose operands are all known and that has run.
pub proof fn lemma_performed<S: Scalar>(
    steps: Seq<StepV<S>>,
    inputs: Seq<TensorV<S>>,
    all: Seq<TensorV<S>>,
)
    requires
        value::run_steps::<S, Tensor<S>>((), steps, inputs).1 == Ok::<Seq<TensorV<S>>, Fault>(all),
    ensures
        performed(steps, inputs, all),
{
    lemma_ran(steps, inputs, all);
    reveal(performed);
    assert forall|i: int| 0 <= i < steps.len() implies computed(
        #[trigger] steps[i],
        inputs,
        all,
    ) == Ok::<TensorV<S>, Fault>(all[i]) by {
        assert(works(steps, inputs, all, i));
        let before = all.subrange(0, i);
        match steps[i] {
            StepV::Load(_) => {},
            StepV::Un(_, a) => lemma_fetched(a, inputs, all, i),
            StepV::Bin(_, a, b) => {
                lemma_fetched(a, inputs, all, i);
                lemma_fetched(b, inputs, all, i);
            },
            StepV::Select(p, a, b) => {
                lemma_fetched(p, inputs, all, i);
                lemma_fetched(a, inputs, all, i);
                lemma_fetched(b, inputs, all, i);
            },
            StepV::SumAll(a) => lemma_fetched(a, inputs, all, i),
        }
    }
}

/// The result of a step on one value.
pub proof fn lemma_un_step<S: Scalar>(
    steps: Seq<StepV<S>>,
    inputs: Seq<TensorV<S>>,
    all: Seq<TensorV<S>>,
    i: int,
    op: UnOpV<S>,
    a: Reg,
)
    requires
        performed(steps, inputs, all),
        0 <= i < steps.len(),
        steps[i] == StepV::Un(op, a),
    ensures
        model::un_tensor(op, named(a, inputs, all)) == Ok::<TensorV<S>, Fault>(all[i]),
{
    reveal(performed);
}

/// The result of a step on two values.
pub proof fn lemma_bin_step<S: Scalar>(
    steps: Seq<StepV<S>>,
    inputs: Seq<TensorV<S>>,
    all: Seq<TensorV<S>>,
    i: int,
    op: BinOpV,
    a: Reg,
    b: Reg,
)
    requires
        performed(steps, inputs, all),
        0 <= i < steps.len(),
        steps[i] == StepV::<S>::Bin(op, a, b),
    ensures
        model::bin_tensor(op, named(a, inputs, all), named(b, inputs, all)) == Ok::<
            TensorV<S>,
            Fault,
        >(all[i]),
{
    reveal(performed);
}

/// The result of a step that loads a constant.
pub proof fn lemma_load_step<S: Scalar>(
    steps: Seq<StepV<S>>,
    inputs: Seq<TensorV<S>>,
    all: Seq<TensorV<S>>,
    i: int,
    t: TensorV<S>,
)
    requires
        performed(steps, inputs, all),
        0 <= i < steps.len(),
        steps[i] == StepV::Load(t),
    ensures
        all[i] == t,
{
    reveal(performed);
}

/// Whether a tensor holds the sum of the elements of another.
pub open spec fn summed<S: Scalar>(t: TensorV<S>, u: TensorV<S>) -> bool {
    model::un_tensor(UnOpV::ReduceSum(value::all_axes(t.shape.len())), t) == Ok::<
        TensorV<S>,
        Fault,
    >(u)
}

/// The result of a step that sums up all elements.
pub proof fn lemma_sum_step<S: Scalar>(
    steps: Seq<StepV<S>>,
    inputs: Seq<TensorV<S>>,
    all: Seq<TensorV<S>>,
    i: int,
    a: Reg,
)
    requires
        performed(steps, inputs, all),
        0 <= i < steps.len(),
        steps[i] == StepV::<S>::SumAll(a),
    ensures
        summed(named(a, inputs, all), all[i]),
{
    reveal(performed);
}

/// What an operand of step `i` named when the step ran.
proof fn lemma_fetched<S>(r: Reg, inputs: Seq<TensorV<S>>, all: Seq<TensorV<S>>, i: int)
    requires
        0 <= i < all.len(),
    ensures
        value::fetched(r, inputs, all.subrange(0, i)) matches Some(x) ==> x == named(
            r,
            inputs,
            all,
        ),
{
}

/// Whether an operand names the result of one of the first `n` steps.
pub open spec fn is_result(r: Reg, n: int) -> bool {
    match r {
        Reg::In(_) => false,
        Reg::Out(j) => j < n,
    }
}

/// The start of a program that runs, runs.
proof fn lemma_start_plays<S: Scalar>(
    short: Seq<StepV<S>>,
    long: Seq<StepV<S>>,
    inputs: Seq<TensorV<S>>,
    done: Seq<TensorV<S>>,
)
    requires
        done.len() <= short.len() <= long.len(),
        forall|i: int| 0 <= i < short.len() ==> #[trigger] long[i] == short[i],
        value::play::<S, Tensor<S>>((), long, inputs, done).1 is Ok,
    ensures
        value::play::<S, Tensor<S>>((), short, inputs, done).1 is Ok,
        value::play::<S, Tensor<S>>((), short, inputs, done).1->Ok_0.len() == short.len(),
    decreases short.len() - done.len(),
{
    if done.len() < short.len() {
        assert(long[done.len() as int] == short[done.len() as int]);
        let x = value::step::<S, Tensor<S>>(
            (),
            short[done.len() as int],
            inputs,
            done,
        ).1->Ok_0;
        lemma_start_plays(short, long, inputs, done.push(x));
    }
}

/// A rule that takes its results from the start of a program that runs has results.
pub proof fn lemma_start_applies<S: Scalar>(
    rule: RuleV<S>,
    long: Seq<StepV<S>>,
    inputs: Seq<TensorV<S>>,
)
    requires
        rule.steps.len() <= long.len(),
        forall|i: int| 0 <= i < rule.steps.len() ==> #[trigger] long[i] == rule.steps[i],
        forall|i: int|
            0 <= i < rule.outs.len() ==> is_result(
                #[trigger] rule.outs[i],
                rule.steps.len() as int,
            ),
        value::run_steps::<S, Tensor<S>>((), long, inputs).1 is Ok,
    ensures
        vjp::applied::<S, Tensor<S>>((), rule, inputs).1 is Ok,
{
    lemma_start_plays(rule.steps, long, inputs, Seq::empty());
    let done = value::run_steps::<S, Tensor<S>>((), rule.steps, inputs).1->Ok_0;
    lemma_all_picked(rule.outs, inputs, done, rule.outs.len());
}

/// Places that exist can be picked from.
proof fn lemma_all_picked<S>(
    outs: Seq<Reg>,
    inputs: Seq<TensorV<S>>,
    done: Seq<TensorV<S>>,
    k: nat,
)
    requires
        k <= outs.len(),
        forall|i: int| 0 <= i < outs.len() ==> is_result(#[trigger] outs[i], done.len() as int),
    ensures
        vjp::picked_all(outs, inputs, done, k) is Ok,
    decreases k,
{
    if k > 0 {
        lemma_all_picked(outs, inputs, done, (k - 1) as nat);
        assert(is_result(outs[k - 1], done.len() as int));
    }
}

/// The results that a rule picks from a program that has run.
pub proof fn lemma_applied<S: Scalar>(
    rule: RuleV<S>,
    inputs: Seq<TensorV<S>>,
    parts: Seq<TensorV<S>>,
) -> (all: Seq<TensorV<S>>)
    requires
        vjp::applied::<S, Tensor<S>>((), rule, inputs).1 == Ok::<Seq<TensorV<S>>, Fault>(parts),
    ensures
        ran(rule.steps, inputs, all),
        performed(rule.steps, inputs, all),
        parts.len() == rule.outs.len(),
        forall|i: int|
            0 <= i < parts.len() ==> #[trigger] parts[i] == named(rule.outs[i], inputs, all),
{
    let all = value::run_steps::<S, Tensor<S>>((), rule.steps, inputs).1->Ok_0;
    lemma_ran(rule.steps, inputs, all);
    lemma_performed(rule.steps, inputs, all);
    lemma_picked(rule.outs, inputs, all, rule.outs.len());
    all
}

/// The values that some places name.
proof fn lemma_picked<S>(
    outs: Seq<Reg>,
    inputs: Seq<TensorV<S>>,
    all: Seq<TensorV<S>>,
    k: nat,
)
    ensures
        vjp::picked_all(outs, inputs, all, k) matches Ok(parts) ==> {
            &&& parts.len() == k
            &&& forall|i: int|
                0 <= i < k ==> #[trigger] parts[i] == named(outs[i], inputs, all)
        },
    decreases k,
{
    if k > 0 {
        lemma_picked(outs, inputs, all, (k - 1) as nat);
    }
}

// ---- operations in broadcasts ----
/// A shape that expands to another broadcasts with it.
pub proof fn lemma_expands_broadcast(a: Seq<usize>, s: Seq<usize>)
    requires
        shape::expands_to(a, s),
    ensures
        shape::broadcast(a, s) == Some(s),
        shape::broadcast(s, a) == Some(s),
{
    let n = s.len() as int;
    assert forall|i: int| 0 <= i < n implies shape::dims_agree(
        #[trigger] shape::aligned(a, n, i),
        shape::aligned(s, n, i),
    ) && (shape::aligned(a, n, i) == 1 || shape::aligned(a, n, i) == s[i]) by {
        if i + a.len() >= n {
            let j = i + a.len() - n;
            assert(a[j] == 1 || a[j] == s[j + s.len() - a.len()]);
        }
    }
    assert forall|i: int| 0 <= i < n implies shape::dims_agree(
        #[trigger] shape::aligned(s, n, i),
        shape::aligned(a, n, i),
    ) by {
        assert(shape::dims_agree(shape::aligned(a, n, i), shape::aligned(s, n, i)));
    }
    assert(shape::broadcast(a, s)->0 =~= s);
    assert(shape::broadcast(s, a)->0 =~= s);
}

/// An element of a tensor without axes.
pub proof fn lemma_scalar_index(k: int, s: Seq<usize>)
    ensures
        shape::source_index(k, s, Seq::<usize>::empty()) == 0,
{
}

/// The positive part.
pub proof fn lemma_relu<S: Scalar>(v: spec_fn(S) -> real, a: TensorV<S>, b: TensorV<S>)
    requires
        exact::exact(v),
        sizable(a),
        model::un_tensor(UnOpV::Relu, a) == Ok::<TensorV<S>, Fault>(b),
    ensures
        sizable(b),
        b.shape == a.shape,
        forall|k: int|
            0 <= k < b.data.len() ==> v(#[trigger] b.data[k]) == (if v(a.data[k]) <= 0real {
                0real
            } else {
                v(a.data[k])
            }),
{
    exact::lemma_numbers(v);
}

/// The negative.
pub proof fn lemma_neg<S: Scalar>(v: spec_fn(S) -> real, a: TensorV<S>, b: TensorV<S>)
    requires
        exact::exact(v),
        sizable(a),
        model::un_tensor(UnOpV::Neg, a) == Ok::<TensorV<S>, Fault>(b),
    ensures
        sizable(b),
        b.shape == a.shape,
        forall|k: int| 0 <= k < b.data.len() ==> v(#[trigger] b.data[k]) == -v(a.data[k]),
{
}

/// The selection between two tensors of one shape by a third of that shape.
pub proof fn lemma_select_same<S: Scalar>(
    v: spec_fn(S) -> real,
    p: TensorV<S>,
    a: TensorV<S>,
    b: TensorV<S>,
    c: TensorV<S>,
)
    requires
        exact::exact(v),
        sizable(p),
        sizable(a),
        sizable(b),
        p.shape == a.shape,
        a.shape == b.shape,
        model::select_tensor(p, a, b) == Ok::<TensorV<S>, Fault>(c),
    ensures
        sizable(c),
        c.shape == a.shape,
        forall|k: int|
            0 <= k < c.data.len() ==> v(#[trigger] c.data[k]) == (if v(p.data[k]) == 0real {
                v(b.data[k])
            } else {
                v(a.data[k])
            }),
{
    exact::lemma_numbers(v);
    lemma_same_shape(a.shape);
    assert forall|k: int| 0 <= k < c.data.len() implies v(#[trigger] c.data[k]) == (if v(
        p.data[k],
    ) == 0real {
        v(b.data[k])
    } else {
        v(a.data[k])
    }) by {
        lemma_same_index(k, a.shape);
    }
}

/// The product of a tensor with a number.
pub proof fn lemma_mul_number<S: Scalar>(
    v: spec_fn(S) -> real,
    a: TensorV<S>,
    b: TensorV<S>,
    c: TensorV<S>,
)
    requires
        exact::exact(v),
        sizable(a),
        is_scalar(b),
        model::bin_tensor(BinOpV::Mul, a, b) == Ok::<TensorV<S>, Fault>(c),
    ensures
        sizable(c),
        c.shape == a.shape,
        forall|k: int|
            0 <= k < c.data.len() ==> v(#[trigger] c.data[k]) == v(a.data[k]) * v(b.data[0]),
{
    lemma_scalar_shape(a.shape);
    lemma_mul(v, a, b, c);
    assert forall|k: int| 0 <= k < c.data.len() implies v(#[trigger] c.data[k]) == v(a.data[k])
        * v(b.data[0]) by {
        lemma_same_index(k, a.shape);
        lemma_scalar_index(k, a.shape);
    }
}

/// The sum of a tensor with a number.
pub proof fn lemma_add_number<S: Scalar>(
    v: spec_fn(S) -> real,
    a: TensorV<S>,
    b: TensorV<S>,
    c: TensorV<S>,
)
    requires
        exact::exact(v),
        sizable(a),
        is_scalar(b),
        model::bin_tensor(BinOpV::Add, a, b) == Ok::<TensorV<S>, Fault>(c),
    ensures
        sizable(c),
        c.shape == a.shape,
        forall|k: int|
            0 <= k < c.data.len() ==> v(#[trigger] c.data[k]) == v(a.data[k]) + v(b.data[0]),
{
    lemma_scalar_shape(a.shape);
    lemma_add(v, a, b, c);
    assert forall|k: int| 0 <= k < c.data.len() implies v(#[trigger] c.data[k]) == v(a.data[k])
        + v(b.data[0]) by {
        lemma_same_index(k, a.shape);
        lemma_scalar_index(k, a.shape);
    }
}

} // verus!
