//! Sums along broadcast axes give each element the weights of all its copies.

use vstd::prelude::*;
use crate::exact;
use crate::manipulate;
use crate::model;
use crate::model::{Fault, TensorV, UnOpV};
use crate::pairing;
use crate::reals;
use crate::scalar::Scalar;
use crate::shape;
use crate::sums;
use crate::tensor::Tensor;
use crate::value;
use crate::value::Reg;
use crate::vjp;

verus! {

/// A sum over all elements, taken along the lines of one axis.
pub proof fn lemma_sum_lines(f: spec_fn(int) -> real, outer: nat, d: nat, inner: nat)
    ensures
        sums::sum(f, outer * d * inner) == sums::sum(
            |q: int| sums::sum(|i: int| f(reals::on_line(d as int, inner as int, q, i)), d),
            outer * inner,
        ),
{
    let g = |q: int| sums::sum(|i: int| f(reals::on_line(d as int, inner as int, q, i)), d);
    // both sides, in blocks
    sums::lemma_sum_blocks(f, outer * d, inner);
    let rows = |t: int| sums::sum(|c: int| f(t * inner + c), inner);
    sums::lemma_sum_blocks(rows, outer, d);
    sums::lemma_sum_blocks(g, outer, inner);
    let a = |o: int| sums::sum(|i: int| rows(o * d + i), d);
    let b = |o: int| sums::sum(|c: int| g(o * inner + c), inner);
    assert forall|o: int| 0 <= o < outer implies #[trigger] a(o) == b(o) by {
        let h = |i: int, c: int| f((o * d + i) * inner + c);
        sums::lemma_sum_swap(h, d, inner);
        let (a1, a2) = (|i: int| rows(o * d + i), |i: int| sums::sum(|c: int| h(i, c), inner));
        assert forall|i: int| 0 <= i < d implies #[trigger] a1(i) == a2(i) by {
            sums::lemma_sum_same(
                |c: int| f((o * d + i) * inner + c),
                |c: int| h(i, c),
                inner,
            );
        }
        sums::lemma_sum_same(a1, a2, d);
        let (b1, b2) = (|c: int| g(o * inner + c), |c: int| sums::sum(|i: int| h(i, c), d));
        assert forall|c: int| 0 <= c < inner implies #[trigger] b1(c) == b2(c) by {
            manipulate::lemma_cell(o, c, outer as int, inner as int);
            let q = o * inner + c;
            let (c1, c2) = (
                |i: int| f(reals::on_line(d as int, inner as int, q, i)),
                |i: int| h(i, c),
            );
            assert forall|i: int| 0 <= i < d implies #[trigger] c1(i) == c2(i) by {}
            sums::lemma_sum_same(c1, c2, d);
        }
        sums::lemma_sum_same(b1, b2, inner);
    }
    sums::lemma_sum_same(a, b, outer);
}

/// All elements on a line along an axis that was expanded come from the same element.
pub proof fn lemma_source_line(out: Seq<usize>, ax: int, s: Seq<usize>, q: int, i: int)
    requires
        0 <= ax < out.len(),
        shape::expands_to(s, out),
        shape::aligned(s, out.len() as int, ax) == 1,
        0 <= q < model::outer_size(out, ax) * model::inner_size(out, ax),
        0 <= i < out[ax],
    ensures
        shape::source_index(
            reals::on_line(out[ax] as int, model::inner_size(out, ax) as int, q, i),
            out,
            s,
        ) == shape::source_index(q, out.update(ax, 1), s),
    decreases out.len(),
{
    let d = out[ax] as int;
    let inner = model::inner_size(out, ax) as int;
    let outer = model::outer_size(out, ax) as int;
    let k = reals::on_line(d, inner, q, i);
    let one = out.update(ax, 1);
    manipulate::lemma_row(q, outer, inner);
    if s.len() > 0 {
        let e = out.last() as int;
        let (t, r) = (out.drop_last(), s.drop_last());
        assert(shape::expands_to(r, t)) by {
            assert forall|j: int| 0 <= j < r.len() implies #[trigger] r[j] == 1 || r[j] == t[j
                + t.len() - r.len()] by {
                assert(s[j] == 1 || s[j] == out[j + out.len() - s.len()]);
            }
        }
        if ax == out.len() - 1 {
            assert(out.subrange(ax + 1, out.len() as int) =~= Seq::<usize>::empty());
            assert(inner == 1);
            assert(q / 1 == q && q % 1 == 0) by (nonlinear_arith);
            assert((q * d + i) * inner == q * d + i) by (nonlinear_arith)
                requires
                    inner == 1,
            ;
            assert(k == q * d + i);
            manipulate::lemma_cell(q, i, outer, d);
            assert(one.drop_last() =~= t);
            assert(s.last() == 1);
        } else {
            let inside = model::inner_size(t, ax) as int;
            assert(out.subrange(ax + 1, out.len() as int).drop_last() =~= t.subrange(
                ax + 1,
                t.len() as int,
            ));
            assert(inner == inside * e);
            assert(out.subrange(0, ax) =~= t.subrange(0, ax));
            assert(outer * (inside * e) == (outer * inside) * e) by (nonlinear_arith);
            manipulate::lemma_row(q, outer * inside, e);
            let (p, c) = (q / e, q % e);
            manipulate::lemma_row(p, outer, inside);
            // q = ((p / inside) * inside + p % inside) * e + c
            let (x, y) = (p / inside, p % inside);
            manipulate::lemma_cell(y, c, inside, e);
            assert(q == x * (inside * e) + (y * e + c)) by (nonlinear_arith)
                requires
                    q == p * e + c,
                    p == x * inside + y,
            ;
            manipulate::lemma_cell(x, y * e + c, outer, inner);
            assert(q / inner == x && q % inner == y * e + c);
            let l = reals::on_line(d, inside, p, i);
            assert(k == l * e + c) by (nonlinear_arith)
                requires
                    k == (x * d + i) * (inside * e) + (y * e + c),
                    l == (x * d + i) * inside + y,
            ;
            reals::lemma_on_line(outer, d, inside, p, i);
            manipulate::lemma_cell(l, c, outer * d * inside, e);
            assert(one.drop_last() =~= t.update(ax, 1));
            assert(one.last() == e);
            assert(shape::aligned(r, t.len() as int, ax) == 1);
            lemma_source_line(t, ax, r, p, i);
        }
    }
}

/// Where a tensor has fewer axes than another, the first axis of the other does not matter.
proof fn lemma_source_lead(out: Seq<usize>, s: Seq<usize>, q: int)
    requires
        s.len() < out.len(),
    ensures
        shape::source_index(q, out, s) == shape::source_index(q, out.remove(0), s),
    decreases s.len(),
{
    if s.len() > 0 {
        assert(out.remove(0).drop_last() =~= out.drop_last().remove(0));
        lemma_source_lead(out.drop_last(), s.drop_last(), q / (out.last() as int));
    }
}

/// The sum along an expanded axis, with an axis of length one left in its place, has the same
/// inner products.
pub proof fn lemma_spread_sum<S: Scalar>(
    v: spec_fn(S) -> real,
    w: TensorV<S>,
    ax: int,
    x: TensorV<S>,
)
    requires
        exact::exact(v),
        reals::full(w),
        reals::full(x),
        0 <= ax < w.shape.len(),
        shape::expands_to(x.shape, w.shape),
        shape::aligned(x.shape, w.shape.len() as int, ax) == 1,
    ensures
        pairing::spread(
            v,
            TensorV { shape: w.shape.update(ax, 1), data: model::sum_axis(w, ax).data },
            x,
        ) == pairing::spread(v, w, x),
{
    let s = w.shape;
    let u = model::sum_axis(w, ax);
    let one = s.update(ax, 1);
    let (outer, d, inner) = (
        model::outer_size(s, ax),
        s[ax] as nat,
        model::inner_size(s, ax),
    );
    manipulate::lemma_remove(s, ax);
    let f = |k: int| v(w.data[k]) * v(x.data[shape::source_index(k, s, x.shape)]);
    lemma_sum_lines(f, outer, d, inner);
    let g = |q: int| sums::sum(|i: int| f(reals::on_line(d as int, inner as int, q, i)), d);
    let h = |q: int| v(u.data[q]) * v(x.data[shape::source_index(q, one, x.shape)]);
    assert forall|q: int| 0 <= q < outer * inner implies #[trigger] h(q) == g(q) by {
        let c = v(x.data[shape::source_index(q, one, x.shape)]);
        reals::lemma_line_sum(v, w.data, d as int, inner as int, q, d);
        let a = |i: int| v(w.data[reals::on_line(d as int, inner as int, q, i)]);
        let b = |i: int| f(reals::on_line(d as int, inner as int, q, i));
        assert forall|i: int| 0 <= i < d implies #[trigger] b(i) == c * a(i) by {
            lemma_source_line(s, ax, x.shape, q, i);
            exact::lemma_distribute(c, a(i), 0real);
        }
        sums::lemma_sum_scale(c, a, b, d);
        exact::lemma_distribute(c, v(u.data[q]), 0real);
    }
    sums::lemma_sum_same(h, g, outer * inner);
}

// ---- sums along one axis ----
/// The sum along one axis.
pub proof fn lemma_single_axis<S: Scalar>(t: TensorV<S>, axis: isize, n: int, k: nat)
    requires
        shape::axis_ok(axis as int, n),
    ensures
        model::sum_axes(t, seq![axis], n, k) == (if k > shape::norm_axis(axis as int, n) {
            model::sum_axis(t, shape::norm_axis(axis as int, n))
        } else {
            t
        }),
    decreases k,
{
    let ax = shape::norm_axis(axis as int, n);
    let axes = seq![axis];
    if k > 0 {
        assert(axes[0] == axis);
        assert(model::names_axis(axes, n, k - 1) == (k - 1 == ax));
        if k - 1 == ax {
            lemma_no_axis(model::sum_axis(t, ax), axis, n, (k - 1) as nat);
        } else {
            lemma_single_axis(t, axis, n, (k - 1) as nat);
        }
    }
}

/// Below the axis, nothing is summed up.
proof fn lemma_no_axis<S: Scalar>(t: TensorV<S>, axis: isize, n: int, k: nat)
    requires
        k <= shape::norm_axis(axis as int, n),
    ensures
        model::sum_axes(t, seq![axis], n, k) == t,
    decreases k,
{
    if k > 0 {
        assert(seq![axis][0] == axis);
        assert(!model::names_axis(seq![axis], n, k - 1));
        lemma_no_axis(t, axis, n, (k - 1) as nat);
    }
}

/// The number of other axes before a position.
pub proof fn lemma_unnamed_single(axis: isize, n: int, i: nat)
    requires
        shape::axis_ok(axis as int, n),
    ensures
        model::unnamed_below(seq![axis], n, i) == (if i > shape::norm_axis(axis as int, n) {
            i - 1
        } else {
            i as int
        }),
    decreases i,
{
    if i > 0 {
        lemma_unnamed_single(axis, n, (i - 1) as nat);
        assert(seq![axis][0] == axis);
        assert(model::names_axis(seq![axis], n, i - 1) == (i - 1 == shape::norm_axis(
            axis as int,
            n,
        )));
    }
}

/// An axis that was taken out is put back with length one.
pub proof fn lemma_expand_single(s: Seq<usize>, axis: isize)
    requires
        shape::axis_ok(axis as int, s.len() as int),
    ensures
        model::expanded(s.remove(shape::norm_axis(axis as int, s.len() as int)), seq![axis])
            == s.update(shape::norm_axis(axis as int, s.len() as int), 1),
{
    let n = s.len() as int;
    let ax = shape::norm_axis(axis as int, n);
    let e = model::expanded(s.remove(ax), seq![axis]);
    assert forall|i: int| 0 <= i < n implies #[trigger] e[i] == s.update(ax, 1)[i] by {
        assert(seq![axis][0] == axis);
        assert(model::names_axis(seq![axis], n, i) == (i == ax));
        lemma_unnamed_single(axis, n, i as nat);
    }
    assert(e =~= s.update(ax, 1));
}

// ---- the whole ----
/// The value after the first `m` operations of a chain.
pub open spec fn after<S>(g: TensorV<S>, all: Seq<TensorV<S>>, m: int) -> TensorV<S> {
    if m == 0 {
        g
    } else {
        all[m - 1]
    }
}

/// Each operation of a chain acts on the result of the one before.
pub proof fn lemma_chain<S: Scalar>(
    ops: Seq<UnOpV<S>>,
    g: TensorV<S>,
    all: Seq<TensorV<S>>,
)
    requires
        ops.len() <= usize::MAX,
        pairing::performed(vjp::chain(ops, Reg::In(0), 0), seq![g], all),
    ensures
        all.len() == ops.len(),
        forall|i: int|
            0 <= i < ops.len() ==> model::un_tensor(#[trigger] ops[i], after(g, all, i)) == Ok::<
                TensorV<S>,
                Fault,
            >(all[i]),
{
    let steps = vjp::chain(ops, Reg::In(0), 0);
    reveal(pairing::performed);
    assert forall|i: int| 0 <= i < ops.len() implies model::un_tensor(
        #[trigger] ops[i],
        after(g, all, i),
    ) == Ok::<TensorV<S>, Fault>(all[i]) by {
        assert(steps[i] == value::StepV::Un(
            ops[i],
            if i == 0 {
                Reg::In(0)
            } else {
                Reg::Out((i - 1) as usize)
            },
        ));
        assert(pairing::computed(steps[i], seq![g], all) == Ok::<TensorV<S>, Fault>(all[i]));
    }
}

/// The first operations sum up the leading axes.
proof fn lemma_lead<S: Scalar>(
    v: spec_fn(S) -> real,
    g: TensorV<S>,
    all: Seq<TensorV<S>>,
    x: TensorV<S>,
    j: nat,
)
    requires
        exact::exact(v),
        pairing::sizable(g),
        reals::full(x),
        shape::expands_to(x.shape, g.shape),
        j <= g.shape.len() - x.shape.len(),
        j <= all.len(),
        forall|i: int|
            0 <= i < j ==> model::un_tensor(
                UnOpV::ReduceSum(seq![0isize]),
                #[trigger] after(g, all, i),
            ) == Ok::<TensorV<S>, Fault>(all[i]),
    ensures
        after(g, all, j as int).shape == g.shape.subrange(j as int, g.shape.len() as int),
        pairing::sizable(after(g, all, j as int)),
        pairing::spread(v, after(g, all, j as int), x) == pairing::spread(v, g, x),
    decreases j,
{
    if j > 0 {
        lemma_lead(v, g, all, x, (j - 1) as nat);
        let t = after(g, all, j - 1);
        let u = all[j - 1];
        assert(model::un_tensor(UnOpV::ReduceSum(seq![0isize]), t) == Ok::<TensorV<S>, Fault>(u));
        let n = t.shape.len();
        lemma_single_axis(t, 0isize, n as int, n);
        assert(u.data == model::sum_axis(t, 0).data);
        reals::lemma_sum_axes_full(t, seq![0isize], n as int, n);
        assert(u.shape =~= t.shape.remove(0));
        assert(u.shape =~= g.shape.subrange(j as int, g.shape.len() as int));
        assert(shape::expands_to(x.shape, t.shape)) by {
            assert forall|i: int| 0 <= i < x.shape.len() implies #[trigger] x.shape[i] == 1
                || x.shape[i] == t.shape[i + t.shape.len() - x.shape.len()] by {
                assert(x.shape[i] == 1 || x.shape[i] == g.shape[i + g.shape.len()
                    - x.shape.len()]);
            }
        }
        lemma_spread_sum(v, t, 0, x);
        let r = TensorV { shape: t.shape.update(0, 1), data: u.data };
        assert(pairing::spread(v, r, x) == pairing::spread(v, u, x)) by {
            let f = |k: int| v(r.data[k]) * v(x.data[shape::source_index(k, r.shape, x.shape)]);
            let h = |k: int| v(u.data[k]) * v(x.data[shape::source_index(k, u.shape, x.shape)]);
            assert forall|k: int| 0 <= k < u.data.len() implies #[trigger] f(k) == h(k) by {
                lemma_source_lead(r.shape, x.shape, k);
                assert(r.shape.remove(0) =~= u.shape);
            }
            sums::lemma_sum_same(f, h, u.data.len());
        }
    } else {
        assert(g.shape.subrange(0, g.shape.len() as int) =~= g.shape);
    }
}

/// The shape after the first `k` axes have been summed back.
pub open spec fn half_done(from: Seq<usize>, to: Seq<usize>, k: int) -> Seq<usize> {
    Seq::new(
        to.len(),
        |i: int|
            if i < k {
                to[i]
            } else {
                from[from.len() - to.len() + i]
            },
    )
}

/// The next operations sum up the axes that were expanded from length one.
#[verifier::spinoff_prover]
#[verifier::rlimit(50)]
proof fn lemma_squeezed<S: Scalar>(
    v: spec_fn(S) -> real,
    g: TensorV<S>,
    all: Seq<TensorV<S>>,
    x: TensorV<S>,
    ops: Seq<UnOpV<S>>,
    k: nat,
)
    requires
        exact::exact(v),
        pairing::sizable(g),
        reals::full(x),
        shape::expands_to(x.shape, g.shape),
        forall|i: int| 0 <= i < g.shape.len() ==> #[trigger] g.shape[i] > 0,
        vjp::unbroadcast_ops::<S>(g.shape, x.shape) == Ok::<Seq<UnOpV<S>>, Fault>(ops),
        all.len() == ops.len(),
        forall|i: int|
            0 <= i < ops.len() ==> model::un_tensor(#[trigger] ops[i], after(g, all, i)) == Ok::<
                TensorV<S>,
                Fault,
            >(all[i]),
        k <= x.shape.len(),
    ensures
        ({
            let d = g.shape.len() - x.shape.len();
            let m = d + vjp::squeeze::<S>(g.shape, x.shape, d, k).len();
            let t = after(g, all, m);
            &&& m <= ops.len()
            &&& t.shape == half_done(g.shape, x.shape, k as int)
            &&& pairing::sizable(t)
            &&& pairing::spread(v, t, x) == pairing::spread(v, g, x)
        }),
    decreases k,
{
    let (from, to) = (g.shape, x.shape);
    let d = from.len() - to.len();
    if k == 0 {
        assert forall|i: int| 0 <= i < d implies model::un_tensor(
            UnOpV::ReduceSum(seq![0isize]),
            #[trigger] after(g, all, i),
        ) == Ok::<TensorV<S>, Fault>(all[i]) by {
            assert(ops[i] == UnOpV::<S>::ReduceSum(seq![0isize]));
        }
        lemma_lead(v, g, all, x, d as nat);
        assert(half_done(from, to, 0) =~= from.subrange(d, from.len() as int));
    } else {
        lemma_squeezed(v, g, all, x, ops, (k - 1) as nat);
        let before = vjp::squeeze::<S>(from, to, d, (k - 1) as nat);
        let now = vjp::squeeze::<S>(from, to, d, k);
        let m = d + before.len();
        let t = after(g, all, m);
        let ax = k - 1;
        assert(to[ax] == 1 || to[ax] == from[ax + from.len() - to.len()]);
        assert(from[d + ax] > 0);
        lemma_squeeze_prefix::<S>(from, to, d, k, to.len());
        if to[ax] == 1 && from[d + ax] > 1 {
            let lead = Seq::new(d as nat, |i: int| UnOpV::<S>::ReduceSum(seq![0isize]));
            let whole = vjp::squeeze::<S>(from, to, d, to.len());
            assert(ops == lead + whole);
            assert(now[before.len() as int] == UnOpV::<S>::ReduceSum(seq![ax as isize]));
            assert(now[(before.len() + 1) as int] == UnOpV::<S>::ExpandDims(seq![ax as isize]));
            assert(ops[m] == whole[before.len() as int]);
            assert(ops[m + 1] == whole[(before.len() + 1) as int]);
            assert(model::un_tensor(ops[m], after(g, all, m)) == Ok::<TensorV<S>, Fault>(all[m]));
            assert(model::un_tensor(ops[m + 1], after(g, all, m + 1)) == Ok::<TensorV<S>, Fault>(
                all[m + 1],
            ));
            let (u, r) = (all[m], all[m + 1]);
            let n = t.shape.len();
            lemma_single_axis(t, ax as isize, n as int, n);
            reals::lemma_sum_axes_full(t, seq![ax as isize], n as int, n);
            assert(u.data == model::sum_axis(t, ax).data);
            assert(u.shape == t.shape.remove(ax));
            lemma_expand_single(t.shape, ax as isize);
            assert(r.shape == t.shape.update(ax, 1));
            assert(r.data == u.data);
            assert(shape::expands_to(to, t.shape)) by {
                assert forall|i: int| 0 <= i < to.len() implies #[trigger] to[i] == 1 || to[i]
                    == t.shape[i + t.shape.len() - to.len()] by {
                    assert(to[i] == 1 || to[i] == from[i + from.len() - to.len()]);
                }
            }
            lemma_spread_sum(v, t, ax, x);
            assert(half_done(from, to, k as int) =~= r.shape);
            manipulate::lemma_update(t.shape, ax, 1);
            manipulate::lemma_remove(t.shape, ax);
            let (o, i) = (model::outer_size(t.shape, ax), model::inner_size(t.shape, ax));
            assert(o * 1 * i == o * i) by (nonlinear_arith);
        } else {
            assert(half_done(from, to, k as int) =~= t.shape);
        }
    }
}

/// Shorter lists of these operations start longer ones.
pub proof fn lemma_squeeze_prefix<S>(from: Seq<usize>, to: Seq<usize>, d: int, k: nat, n: nat)
    requires
        k <= n,
    ensures
        ({
            let (a, b) = (vjp::squeeze::<S>(from, to, d, k), vjp::squeeze::<S>(from, to, d, n));
            &&& a.len() <= b.len()
            &&& forall|i: int| 0 <= i < a.len() ==> a[i] == #[trigger] b[i]
        }),
    decreases n - k,
{
    if k < n {
        lemma_squeeze_prefix::<S>(from, to, d, k, (n - 1) as nat);
    }
}

/// Taking the broadcast of a value back gives a tensor of the value's shape with the same inner
/// products.
pub proof fn lemma_unbroadcast<S: Scalar>(
    v: spec_fn(S) -> real,
    g: TensorV<S>,
    x: TensorV<S>,
    r: TensorV<S>,
)
    requires
        exact::exact(v),
        pairing::sizable(g),
        reals::full(x),
        shape::expands_to(x.shape, g.shape),
        forall|i: int| 0 <= i < g.shape.len() ==> #[trigger] g.shape[i] > 0,
        vjp::unbroadcasted::<S, Tensor<S>>((), g, x.shape).1 == Ok::<TensorV<S>, Fault>(r),
    ensures
        r.shape == x.shape,
        pairing::sizable(r),
        pairing::pairing(v, r, x) == pairing::spread(v, g, x),
{
    let ops = vjp::unbroadcast_ops::<S>(g.shape, x.shape)->Ok_0;
    let d = g.shape.len() - x.shape.len();
    let steps = vjp::chain(ops, Reg::In(0), 0);
    let all = value::run_steps::<S, Tensor<S>>((), steps, seq![g]).1->Ok_0;
    lemma_squeeze_len::<S>(g.shape, x.shape, d, x.shape.len());
    pairing::lemma_performed(steps, seq![g], all);
    lemma_chain(ops, g, all);
    lemma_squeezed(v, g, all, x, ops, x.shape.len());
    assert(half_done(g.shape, x.shape, x.shape.len() as int) =~= x.shape);
    assert(r == after(g, all, ops.len() as int));
    pairing::lemma_spread_same(v, r, x);
}

/// How many operations sum up expanded axes.
pub proof fn lemma_squeeze_len<S>(from: Seq<usize>, to: Seq<usize>, d: int, k: nat)
    ensures
        vjp::squeeze::<S>(from, to, d, k).len() <= 2 * k,
    decreases k,
{
    if k > 0 {
        lemma_squeeze_len::<S>(from, to, d, (k - 1) as nat);
    }
}

} // verus!
