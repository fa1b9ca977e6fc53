//! The programs of sums along axes and of operations that move elements carry the weights of
//! their results to their operands.

use vstd::prelude::*;
use crate::containment;
use crate::crown;
use crate::exact;
use crate::manipulate;
use crate::model;
use crate::model::{BinOpV, Fault, TensorV, UnOpV};
use crate::pairing;
use crate::reals;
use crate::scalar;
use crate::scalar::Scalar;
use crate::shape;
use crate::sums;
use crate::support;
use crate::tensor::Tensor;
use crate::unspread;
use crate::value::{Reg, StepV};
use crate::vjp;
use crate::vjp::RuleV;

verus! {

/// One weight with the same inner product as the result, and a number that is zero.
pub proof fn lemma_one<S: Scalar>(
    v: spec_fn(S) -> real,
    parts: Seq<TensorV<S>>,
    x: TensorV<S>,
    w: TensorV<S>,
    y: TensorV<S>,
)
    requires
        exact::exact(v),
        parts.len() == 2,
        support::weighable(parts[0]),
        shape::expands_to(x.shape, parts[0].shape),
        parts[1] == model::scalar_tensor(scalar::zero::<S>()),
        pairing::spread(v, parts[0], x) == pairing::pairing(v, w, y),
    ensures
        support::carries(v, parts, seq![x], w, y),
{
    exact::lemma_numbers(v);
    let xs = seq![x];
    assert(xs[0] == x);
    assert(support::carried(v, parts, xs, 0) == 0real);
    assert(support::carried(v, parts, xs, 1) == 0real + pairing::spread(v, parts[0], x) + v(
        parts[1].data[0],
    ));
    assert forall|i: int| 0 <= i < xs.len() implies support::part_fits(
        parts[2 * i],
        parts[2 * i + 1],
        #[trigger] xs[i],
    ) by {}
}

/// The results of a program that adds nothing to the bias.
pub proof fn lemma_unbiased<S: Scalar>(
    rule: RuleV<S>,
    inputs: Seq<TensorV<S>>,
    parts: Seq<TensorV<S>>,
) -> (all: Seq<TensorV<S>>)
    requires
        rule.steps.len() < usize::MAX,
        crown::without_bias(Ok(rule)) is Ok,
        vjp::applied::<S, Tensor<S>>((), crown::without_bias(Ok(rule))->Ok_0, inputs).1 == Ok::<
            Seq<TensorV<S>>,
            Fault,
        >(parts),
    ensures
        pairing::performed(
            rule.steps.push(vjp::load_number(scalar::zero::<S>())),
            inputs,
            all,
        ),
        parts.len() == 2,
        parts[0] == pairing::named(rule.outs[0], inputs, all),
        parts[1] == model::scalar_tensor(scalar::zero::<S>()),
{
    let whole = crown::without_bias(Ok(rule))->Ok_0;
    let all = pairing::lemma_applied(whole, inputs, parts);
    let n = rule.steps.len() as int;
    assert(whole.steps[n] == vjp::load_number(scalar::zero::<S>()));
    pairing::lemma_load_step(
        whole.steps,
        inputs,
        all,
        n,
        model::scalar_tensor(scalar::zero::<S>()),
    );
    assert(parts[0] == pairing::named(whole.outs[0], inputs, all));
    assert(parts[1] == pairing::named(whole.outs[1], inputs, all));
    all
}

/// The result of a program of one operation.
pub proof fn lemma_single_op<S: Scalar>(
    op: UnOpV<S>,
    inputs: Seq<TensorV<S>>,
    parts: Seq<TensorV<S>>,
)
    requires
        inputs.len() > 0,
        vjp::applied::<S, Tensor<S>>(
            (),
            crown::without_bias(Ok(vjp::single(seq![StepV::Un(op, Reg::In(0))])))->Ok_0,
            inputs,
        ).1 == Ok::<Seq<TensorV<S>>, Fault>(parts),
    ensures
        parts.len() == 2,
        model::un_tensor(op, inputs[0]) == Ok::<TensorV<S>, Fault>(parts[0]),
        parts[1] == model::scalar_tensor(scalar::zero::<S>()),
{
    let rule = vjp::single(seq![StepV::Un(op, Reg::In(0))]);
    let all = lemma_unbiased(rule, inputs, parts);
    let steps = rule.steps.push(vjp::load_number(scalar::zero::<S>()));
    assert(steps[0] == StepV::Un(op, Reg::In(0)));
    pairing::lemma_un_step(steps, inputs, all, 0, op, Reg::In(0));
}

// ---- reshaping ----
/// The program of a reshape carries weights.
pub proof fn lemma_reshape_carries<S: Scalar>(
    v: spec_fn(S) -> real,
    d: Seq<isize>,
    x: TensorV<S>,
    y: TensorV<S>,
    inputs: Seq<TensorV<S>>,
    parts: Seq<TensorV<S>>,
)
    requires
        exact::exact(v),
        inputs.len() == 1,
        support::weighable(inputs[0]),
        support::weighable(x),
        shape::fits(x.shape),
        model::un_tensor(UnOpV::Reshape(d), x) == Ok::<TensorV<S>, Fault>(y),
        inputs[0].shape == y.shape,
        vjp::applied::<S, Tensor<S>>(
            (),
            crown::without_bias(
                Ok(
                    vjp::single(
                        seq![StepV::Un(UnOpV::Reshape(vjp::as_lengths(x.shape)), Reg::In(0))],
                    ),
                ),
            )->Ok_0,
            inputs,
        ).1 == Ok::<Seq<TensorV<S>>, Fault>(parts),
    ensures
        support::carries(v, parts, seq![x], inputs[0], y),
{
    let w = inputs[0];
    let back = vjp::as_lengths(x.shape);
    lemma_single_op(UnOpV::Reshape(back), inputs, parts);
    shape::lemma_volume_bounds(x.shape);
    assert(model::resolved(back, shape::product(w.shape)) =~= x.shape) by {
        assert forall|i: int| 0 <= i < x.shape.len() implies back[i] >= 0 && #[trigger] x.shape[i]
            == back[i] as usize by {}
    }
    let p = parts[0];
    assert(p.shape == x.shape && p.data == w.data);
    pairing::lemma_same_shape(x.shape);
    pairing::lemma_spread_same(v, p, x);
    lemma_one(v, parts, x, w, y);
}

// ---- axes of length one ----
/// The unnamed ones among the first `k` axes.
pub open spec fn kept_axes(s: Seq<usize>, axes: Seq<isize>, n: int, k: nat) -> Seq<usize>
    decreases k,
{
    if k == 0 {
        Seq::empty()
    } else if model::names_axis(axes, n, k - 1) {
        kept_axes(s, axes, n, (k - 1) as nat)
    } else {
        kept_axes(s, axes, n, (k - 1) as nat).push(s[k - 1])
    }
}

/// How many axes are not named, and which.
pub proof fn lemma_kept<S: Scalar>(s: Seq<usize>, axes: Seq<isize>, n: int, k: nat, i: int)
    requires
        0 <= i,
    ensures
        kept_axes(s, axes, n, k).len() == model::unnamed_below(axes, n, k),
        i < k && !model::names_axis(axes, n, i) ==> model::unnamed_below(axes, n, i as nat)
            < kept_axes(s, axes, n, k).len() && kept_axes(s, axes, n, k)[model::unnamed_below(
            axes,
            n,
            i as nat,
        ) as int] == s[i],
    decreases k,
{
    if k > 0 {
        lemma_kept::<S>(s, axes, n, (k - 1) as nat, i);
    }
}

/// What is left when named axes are dropped.
proof fn lemma_dropped(
    s: Seq<usize>,
    cur: Seq<usize>,
    axes: Seq<isize>,
    n: int,
    k: nat,
)
    requires
        k <= s.len(),
        k <= cur.len(),
        cur.subrange(0, k as int) == s.subrange(0, k as int),
    ensures
        model::drop_axes(cur, axes, n, k) == kept_axes(s, axes, n, k) + cur.subrange(
            k as int,
            cur.len() as int,
        ),
    decreases k,
{
    if k > 0 {
        let j = k - 1;
        assert(cur[j] == cur.subrange(0, k as int)[j]);
        assert(s[j] == s.subrange(0, k as int)[j]);
        assert(s.subrange(0, j) =~= s.subrange(0, k as int).subrange(0, j));
        if model::names_axis(axes, n, j) {
            let next = cur.remove(j);
            assert(next.subrange(0, j) =~= cur.subrange(0, k as int).subrange(0, j));
            lemma_dropped(s, next, axes, n, j as nat);
            assert(next.subrange(j, next.len() as int) =~= cur.subrange(
                k as int,
                cur.len() as int,
            ));
        } else {
            assert(cur.subrange(0, j) =~= cur.subrange(0, k as int).subrange(0, j));
            lemma_dropped(s, cur, axes, n, j as nat);
            assert(kept_axes(s, axes, n, j as nat) + cur.subrange(j, cur.len() as int)
                =~= kept_axes(s, axes, n, k) + cur.subrange(k as int, cur.len() as int));
        }
    } else {
        assert(kept_axes(s, axes, n, 0) + cur.subrange(0, cur.len() as int) =~= cur);
    }
}

/// The shape without the named axes.
pub proof fn lemma_drop_all(s: Seq<usize>, axes: Seq<isize>)
    ensures
        model::drop_axes(s, axes, s.len() as int, s.len()) == kept_axes(
            s,
            axes,
            s.len() as int,
            s.len(),
        ),
{
    lemma_dropped(s, s, axes, s.len() as int, s.len());
    assert(kept_axes(s, axes, s.len() as int, s.len()) + s.subrange(
        s.len() as int,
        s.len() as int,
    ) =~= kept_axes(s, axes, s.len() as int, s.len()));
}

/// Whether no axis of a shape of rank `n` is named twice.
pub open spec fn named_once(axes: Seq<isize>, n: int) -> bool {
    model::unnamed_below(axes, n, n as nat) + axes.len() == n
}

/// The shape with its named axes set to one.
pub open spec fn flattened(s: Seq<usize>, axes: Seq<isize>, k: int) -> Seq<usize> {
    Seq::new(
        s.len(),
        |i: int|
            if k <= i && model::names_axis(axes, s.len() as int, i) {
                1
            } else {
                s[i]
            },
    )
}

/// Axes that were dropped are put back with length one.
pub proof fn lemma_put_back<S: Scalar>(s: Seq<usize>, axes: Seq<isize>)
    requires
        named_once(axes, s.len() as int),
    ensures
        model::expanded(model::drop_axes(s, axes, s.len() as int, s.len()), axes) == flattened(
            s,
            axes,
            0,
        ),
{
    let n = s.len() as int;
    let d = model::drop_axes(s, axes, n, n as nat);
    lemma_drop_all(s, axes);
    lemma_kept::<S>(s, axes, n, n as nat, 0);
    let e = model::expanded(d, axes);
    assert(e.len() == n);
    assert forall|i: int| 0 <= i < n implies #[trigger] e[i] == flattened(s, axes, 0)[i] by {
        lemma_kept::<S>(s, axes, n, n as nat, i);
    }
    assert(e =~= flattened(s, axes, 0));
}

/// Axes of length one that were put in are dropped again.
pub proof fn lemma_take_out<S: Scalar>(s: Seq<usize>, axes: Seq<isize>)
    requires
        model::expand_ok(s, axes),
    ensures
        ({
            let e = model::expanded(s, axes);
            model::drop_axes(e, axes, e.len() as int, e.len()) == s
        }),
{
    let e = model::expanded(s, axes);
    let n = e.len() as int;
    lemma_drop_all(e, axes);
    lemma_kept_expanded(s, axes, n, n as nat);
    assert(s.subrange(0, s.len() as int) =~= s);
}

/// The unnamed axes of an expanded shape are those of the shape.
proof fn lemma_kept_expanded(s: Seq<usize>, axes: Seq<isize>, n: int, k: nat)
    requires
        n == s.len() + axes.len(),
        k <= n,
        model::unnamed_below(axes, n, n as nat) == s.len(),
    ensures
        model::unnamed_below(axes, n, k) <= s.len(),
        kept_axes(model::expanded(s, axes), axes, n, k) == s.subrange(
            0,
            model::unnamed_below(axes, n, k) as int,
        ),
    decreases k,
{
    lemma_unnamed_grows(axes, n, k, n as nat);
    if k > 0 {
        lemma_kept_expanded(s, axes, n, (k - 1) as nat);
        let u = model::unnamed_below(axes, n, (k - 1) as nat) as int;
        if !model::names_axis(axes, n, k - 1) {
            assert(s.subrange(0, u).push(s[u]) =~= s.subrange(0, u + 1));
        }
    } else {
        assert(s.subrange(0, 0) =~= Seq::<usize>::empty());
    }
}

/// The number of unnamed axes grows.
proof fn lemma_unnamed_grows(axes: Seq<isize>, n: int, i: nat, j: nat)
    requires
        i <= j,
    ensures
        model::unnamed_below(axes, n, i) <= model::unnamed_below(axes, n, j),
    decreases j,
{
    if i < j {
        lemma_unnamed_grows(axes, n, i, (j - 1) as nat);
    }
}

// ---- sums along axes ----
/// Sums along the named axes from the last on, with axes of length one left in their place, keep
/// the inner products with a tensor that has length one there.
proof fn lemma_reduced<S: Scalar>(
    v: spec_fn(S) -> real,
    s: Seq<usize>,
    axes: Seq<isize>,
    t: TensorV<S>,
    r: TensorV<S>,
    g: TensorV<S>,
    k: nat,
)
    requires
        exact::exact(v),
        k <= s.len(),
        reals::full(t),
        t.shape == flattened(s, axes, k as int),
        reals::full(r),
        r.data == t.data,
        k <= r.shape.len(),
        r.shape.subrange(0, k as int) == s.subrange(0, k as int),
        shape::product(r.shape.subrange(k as int, r.shape.len() as int)) == shape::product(
            t.shape.subrange(k as int, s.len() as int),
        ),
        reals::full(g),
        g.shape == flattened(s, axes, 0),
    ensures
        ({
            let u = model::sum_axes(r, axes, s.len() as int, k);
            &&& u.data.len() == g.data.len()
            &&& sums::sum(|q: int| v(u.data[q]) * v(g.data[q]), g.data.len()) == pairing::spread(
                v,
                t,
                g,
            )
        }),
    decreases k,
{
    let n = s.len() as int;
    if k == 0 {
        let u = model::sum_axes(r, axes, n, 0);
        pairing::lemma_spread_same(v, t, g);
        sums::lemma_sum_same(
            |q: int| v(u.data[q]) * v(g.data[q]),
            |q: int| v(t.data[q]) * v(g.data[q]),
            g.data.len(),
        );
    } else {
        let ax = k - 1;
        assert(r.shape[ax] == r.shape.subrange(0, k as int)[ax]);
        assert(s[ax] == s.subrange(0, k as int)[ax]);
        assert(t.shape[ax] == s[ax]);
        assert(r.shape.subrange(0, ax) =~= r.shape.subrange(0, k as int).subrange(0, ax));
        assert(s.subrange(0, ax) =~= s.subrange(0, k as int).subrange(0, ax));
        assert(t.shape.subrange(0, ax) =~= s.subrange(0, ax));
        if model::names_axis(axes, n, ax) {
            let r2 = model::sum_axis(r, ax);
            let one = t.shape.update(ax, 1);
            let t2 = TensorV { shape: one, data: model::sum_axis(t, ax).data };
            manipulate::lemma_remove(r.shape, ax);
            manipulate::lemma_remove(t.shape, ax);
            manipulate::lemma_update(t.shape, ax, 1);
            let (o, i) = (model::outer_size(t.shape, ax), model::inner_size(t.shape, ax));
            assert(o * 1 * i == o * i) by (nonlinear_arith);
            assert(model::inner_size(r.shape, ax) == i);
            assert(model::outer_size(r.shape, ax) == o);
            assert(r2.data =~= t2.data);
            assert(one =~= flattened(s, axes, ax));
            assert(shape::expands_to(g.shape, t.shape)) by {
                assert forall|j: int| 0 <= j < g.shape.len() implies #[trigger] g.shape[j] == 1
                    || g.shape[j] == t.shape[j + t.shape.len() - g.shape.len()] by {}
            }
            unspread::lemma_spread_sum(v, t, ax, g);
            assert(r2.shape.subrange(0, ax) =~= r.shape.subrange(0, ax));
            let (a, b) = (
                r2.shape.subrange(ax, r2.shape.len() as int),
                one.subrange(ax, n),
            );
            assert(a =~= r.shape.subrange(k as int, r.shape.len() as int));
            assert(b =~= seq![1usize] + t.shape.subrange(k as int, n));
            shape::lemma_product_concat(seq![1usize], t.shape.subrange(k as int, n));
            shape::lemma_product_single(1);
            let pr = shape::product(t.shape.subrange(k as int, n));
            assert(1 * pr == pr) by (nonlinear_arith);
            lemma_reduced(v, s, axes, t2, r2, g, ax as nat);
        } else {
            assert(flattened(s, axes, ax) =~= t.shape);
            let (a, b) = (
                r.shape.subrange(ax, r.shape.len() as int),
                t.shape.subrange(ax, n),
            );
            assert(a =~= seq![r.shape[ax]] + r.shape.subrange(k as int, r.shape.len() as int));
            assert(b =~= seq![t.shape[ax]] + t.shape.subrange(k as int, n));
            shape::lemma_product_concat(
                seq![r.shape[ax]],
                r.shape.subrange(k as int, r.shape.len() as int),
            );
            shape::lemma_product_concat(seq![t.shape[ax]], t.shape.subrange(k as int, n));
            lemma_reduced(v, s, axes, t, r, g, ax as nat);
        }
    }
}

/// The program of a sum along axes.
pub open spec fn reduce_program<S: Scalar>(axes: Seq<isize>, s: Seq<usize>) -> RuleV<S> {
    vjp::single(
        seq![
            StepV::Un(UnOpV::ExpandDims(axes), Reg::In(0)),
            vjp::load_zeros(s),
            StepV::Bin(BinOpV::Add, Reg::Out(0), Reg::Out(1)),
        ],
    )
}

/// The program of a sum along axes of which none is named twice carries weights.
pub proof fn lemma_reduce_carries<S: Scalar>(
    v: spec_fn(S) -> real,
    axes: Seq<isize>,
    x: TensorV<S>,
    y: TensorV<S>,
    inputs: Seq<TensorV<S>>,
    parts: Seq<TensorV<S>>,
)
    requires
        exact::exact(v),
        inputs.len() == 1,
        support::weighable(inputs[0]),
        support::weighable(x),
        named_once(axes, x.shape.len() as int),
        model::un_tensor(UnOpV::ReduceSum(axes), x) == Ok::<TensorV<S>, Fault>(y),
        inputs[0].shape == y.shape,
        vjp::applied::<S, Tensor<S>>(
            (),
            crown::without_bias(Ok(reduce_program::<S>(axes, x.shape)))->Ok_0,
            inputs,
        ).1 == Ok::<Seq<TensorV<S>>, Fault>(parts),
    ensures
        support::carries(v, parts, seq![x], inputs[0], y),
{
    let w = inputs[0];
    let s = x.shape;
    let n = s.len() as int;
    let rule = reduce_program::<S>(axes, s);
    let all = lemma_unbiased(rule, inputs, parts);
    let steps = rule.steps.push(vjp::load_number(scalar::zero::<S>()));
    assert(steps[0] == StepV::<S>::Un(UnOpV::ExpandDims(axes), Reg::In(0)));
    assert(steps[1] == vjp::load_zeros::<S>(s));
    assert(steps[2] == StepV::<S>::Bin(BinOpV::Add, Reg::Out(0), Reg::Out(1)));
    pairing::lemma_un_step(steps, inputs, all, 0, UnOpV::ExpandDims(axes), Reg::In(0));
    let zeros = model::filled(s, scalar::zero::<S>());
    pairing::lemma_load_step(steps, inputs, all, 1, zeros);
    pairing::lemma_bin_step(steps, inputs, all, 2, BinOpV::Add, Reg::Out(0), Reg::Out(1));
    let g = all[0];
    let p = parts[0];
    assert(p == all[2]);
    reals::lemma_sum_axes_full(x, axes, n, n as nat);
    lemma_put_back::<S>(s, axes);
    assert(g.shape == flattened(s, axes, 0));
    // the expanded weight fills its shape
    let m = (w.shape.len() + axes.len()) as int;
    containment::lemma_expanded_product(w.shape, axes, m, m as nat);
    assert(g.shape.subrange(0, m) =~= g.shape);
    assert(w.shape.subrange(0, w.shape.len() as int) =~= w.shape);
    assert(shape::expands_to(g.shape, s)) by {
        assert forall|j: int| 0 <= j < g.shape.len() implies #[trigger] g.shape[j] == 1
            || g.shape[j] == s[j + s.len() - g.shape.len()] by {}
    }
    pairing::lemma_expands_broadcast(g.shape, s);
    pairing::lemma_add(v, g, zeros, p);
    exact::lemma_numbers(v);
    // the sums
    assert(flattened(s, axes, n) =~= s);
    assert(s.subrange(0, n) =~= s);
    lemma_reduced(v, s, axes, x, x, g, n as nat);
    let u = model::sum_axes(x, axes, n, n as nat);
    let (f1, f2) = (
        |q: int| v(u.data[q]) * v(g.data[q]),
        |q: int| v(w.data[q]) * v(y.data[q]),
    );
    assert forall|q: int| 0 <= q < w.data.len() implies #[trigger] f1(q) == f2(q) by {
        exact::lemma_units(v(w.data[q]), v(y.data[q]));
    }
    sums::lemma_sum_same(f1, f2, w.data.len());
    // the weight at each element of the operand
    pairing::lemma_same_shape(s);
    pairing::lemma_spread_same(v, p, x);
    let (g1, g2) = (
        |k: int| v(p.data[k]) * v(x.data[k]),
        |k: int| v(x.data[k]) * v(g.data[shape::source_index(k, s, g.shape)]),
    );
    assert forall|k: int| 0 <= k < p.data.len() implies #[trigger] g1(k) == g2(k) by {
        pairing::lemma_same_index(k, s);
        let c = v(g.data[shape::source_index(k, s, g.shape)]);
        assert(v(p.data[k]) == c + 0real);
        exact::lemma_units(c, v(x.data[k]));
    }
    sums::lemma_sum_same(g1, g2, p.data.len());
    lemma_one(v, parts, x, w, y);
}

/// Sums along axes of length one keep all elements.
proof fn lemma_unit_sums<S: Scalar>(
    v: spec_fn(S) -> real,
    s: Seq<usize>,
    axes: Seq<isize>,
    r: TensorV<S>,
    n: int,
    k: nat,
)
    requires
        exact::exact(v),
        reals::full(r),
        k <= s.len(),
        k <= r.shape.len(),
        n == s.len(),
        r.shape.subrange(0, k as int) == s.subrange(0, k as int),
        forall|i: int| 0 <= i < k && model::names_axis(axes, n, i) ==> #[trigger] s[i] == 1,
    ensures
        ({
            let u = model::sum_axes(r, axes, n, k);
            &&& u.data.len() == r.data.len()
            &&& forall|q: int| 0 <= q < r.data.len() ==> v(#[trigger] u.data[q]) == v(r.data[q])
        }),
    decreases k,
{
    if k > 0 {
        let ax = k - 1;
        assert(r.shape[ax] == r.shape.subrange(0, k as int)[ax]);
        assert(s[ax] == s.subrange(0, k as int)[ax]);
        assert(s.subrange(0, ax) =~= s.subrange(0, k as int).subrange(0, ax));
        if model::names_axis(axes, n, ax) {
            let r2 = model::sum_axis(r, ax);
            manipulate::lemma_remove(r.shape, ax);
            let (o, i) = (
                model::outer_size(r.shape, ax) as int,
                model::inner_size(r.shape, ax) as int,
            );
            assert(o * 1 * i == o * i) by (nonlinear_arith);
            assert(r2.shape.subrange(0, ax) =~= r.shape.subrange(0, k as int).subrange(0, ax));
            lemma_unit_sums(v, s, axes, r2, n, ax as nat);
            let u = model::sum_axes(r2, axes, n, ax as nat);
            assert forall|q: int| 0 <= q < r.data.len() implies v(#[trigger] u.data[q]) == v(
                r.data[q],
            ) by {
                reals::lemma_line_sum(v, r.data, 1, i, q, 1);
                let f = |j: int| v(r.data[reals::on_line(1, i, q, j)]);
                assert(sums::sum(f, 0) == 0real);
                assert(sums::sum(f, 1) == f(0));
                manipulate::lemma_row(q, o, i);
                assert(((q / i) * 1 + 0) * i == (q / i) * i) by (nonlinear_arith);
                assert(v(r2.data[q]) == v(r.data[q]));
            }
        } else {
            assert(r.shape.subrange(0, ax) =~= r.shape.subrange(0, k as int).subrange(0, ax));
            lemma_unit_sums(v, s, axes, r, n, ax as nat);
        }
    }
}

/// The program of an expansion carries weights.
pub proof fn lemma_expand_carries<S: Scalar>(
    v: spec_fn(S) -> real,
    axes: Seq<isize>,
    x: TensorV<S>,
    y: TensorV<S>,
    inputs: Seq<TensorV<S>>,
    parts: Seq<TensorV<S>>,
)
    requires
        exact::exact(v),
        inputs.len() == 1,
        support::weighable(inputs[0]),
        support::weighable(x),
        model::un_tensor(UnOpV::ExpandDims(axes), x) == Ok::<TensorV<S>, Fault>(y),
        inputs[0].shape == y.shape,
        vjp::applied::<S, Tensor<S>>(
            (),
            crown::without_bias(
                Ok(vjp::single(seq![StepV::Un(UnOpV::ReduceSum(axes), Reg::In(0))])),
            )->Ok_0,
            inputs,
        ).1 == Ok::<Seq<TensorV<S>>, Fault>(parts),
    ensures
        support::carries(v, parts, seq![x], inputs[0], y),
{
    let w = inputs[0];
    lemma_single_op(UnOpV::ReduceSum(axes), inputs, parts);
    let e = y.shape;
    let n = e.len() as int;
    lemma_take_out::<S>(x.shape, axes);
    assert forall|i: int| 0 <= i < n && model::names_axis(axes, n, i) implies #[trigger] e[i]
        == 1 by {}
    lemma_unit_sums(v, e, axes, w, n, n as nat);
    reals::lemma_sum_axes_full(w, axes, n, n as nat);
    let p = parts[0];
    assert(p.shape == x.shape);
    pairing::lemma_same_shape(x.shape);
    pairing::lemma_spread_same(v, p, x);
    let (f, g) = (|k: int| v(p.data[k]) * v(x.data[k]), |k: int| v(w.data[k]) * v(y.data[k]));
    assert forall|k: int| 0 <= k < p.data.len() implies #[trigger] f(k) == g(k) by {
        assert(v(p.data[k]) == v(w.data[k]));
    }
    sums::lemma_sum_same(f, g, p.data.len());
    lemma_one(v, parts, x, w, y);
}

} // verus!
