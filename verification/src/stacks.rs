//! Operations that move elements act on each member of a stack as on a single tensor.

use vstd::prelude::*;
use crate::batched;
use crate::carry_places;
use crate::linalg;
use crate::manipulate;
use crate::members;
use crate::members::{atop, is_block};
use crate::model;
use crate::model::{BinOpV, Fault, PadV, TensorV, UnOpV};
use crate::reals;
use crate::reduce;
use crate::scalar::Scalar;
use crate::shape;

verus! {

// ---- axes ----
/// An element behind `i` whole blocks, in rows of `b`.
pub proof fn lemma_behind_blocks(i: int, a: int, b: int, q: int)
    requires
        0 < b,
        0 <= q,
    ensures
        (i * (a * b) + q) / b == i * a + q / b,
        (i * (a * b) + q) % b == q % b,
{
    let (y, r) = (q / b, q % b);
    let z = i * a + y;
    assert(q == y * b + r && 0 <= r < b) by (nonlinear_arith)
        requires
            0 < b,
            y == q / b,
            r == q % b,
    ;
    assert(i * (a * b) + (y * b + r) == z * b + r) by (nonlinear_arith)
        requires
            z == i * a + y,
    ;
    assert((z * b + r) / b == z && (z * b + r) % b == r) by (nonlinear_arith)
        requires
            0 <= r < b,
    ;
}

/// The number of an axis of the members is one less than that of the stack.
pub proof fn lemma_shifted(ax: isize, n: int)
    requires
        shape::axis_ok(batched::shifted(ax) as int, n + 1),
        shape::axis_ok(ax as int, n),
        ax < isize::MAX,
    ensures
        shape::norm_axis(batched::shifted(ax) as int, n + 1) == shape::norm_axis(ax as int, n) + 1,
{
}

/// The axes of the members and those of the stack.
pub proof fn lemma_shifted_names(axes: Seq<isize>, n: int, k: int)
    requires
        batched::shiftable(axes),
        model::axes_ok(axes, n),
        0 <= k < n,
    ensures
        model::names_axis(batched::shifted_all(axes), n + 1, k + 1) == model::names_axis(axes, n, k),
        !model::names_axis(batched::shifted_all(axes), n + 1, 0),
{
    let moved = batched::shifted_all(axes);
    assert forall|j: int| 0 <= j < axes.len() implies shape::norm_axis(
        #[trigger] moved[j] as int,
        n + 1,
    ) == shape::norm_axis(axes[j] as int, n) + 1 && shape::axis_ok(axes[j] as int, n) by {
        assert(axes[j] < isize::MAX);
        assert(shape::axis_ok(axes[j] as int, n));
    }
    if model::names_axis(axes, n, k) {
        let j = choose|j: int|
            0 <= j < axes.len() && shape::norm_axis(#[trigger] axes[j] as int, n) == k;
        assert(shape::norm_axis(moved[j] as int, n + 1) == k + 1);
    }
    if model::names_axis(moved, n + 1, k + 1) {
        let j = choose|j: int|
            0 <= j < moved.len() && shape::norm_axis(#[trigger] moved[j] as int, n + 1) == k + 1;
        assert(shape::norm_axis(axes[j] as int, n) == k);
    }
    if model::names_axis(moved, n + 1, 0) {
        let j = choose|j: int|
            0 <= j < moved.len() && shape::norm_axis(#[trigger] moved[j] as int, n + 1) == 0;
        assert(shape::norm_axis(axes[j] as int, n) == -1);
    }
}

/// The sizes around an axis of the members and of the stack.
pub proof fn lemma_around(n: usize, s: Seq<usize>, ax: int)
    requires
        0 <= ax < s.len(),
    ensures
        atop(n, s)[ax + 1] == s[ax],
        model::inner_size(atop(n, s), ax + 1) == model::inner_size(s, ax),
        shape::product(s) == model::outer_size(s, ax) * s[ax] * model::inner_size(s, ax),
        atop(n, s).remove(ax + 1) == atop(n, s.remove(ax)),
        shape::product(s.remove(ax)) == model::outer_size(s, ax) * model::inner_size(s, ax),
{
    let t = atop(n, s);
    assert(t.subrange(ax + 2, t.len() as int) =~= s.subrange(ax + 1, s.len() as int));
    manipulate::lemma_remove(s, ax);
    assert(t.remove(ax + 1) =~= atop(n, s.remove(ax)));
}

// ---- slices ----
/// A slice of a stack is the stack of slices.
pub proof fn lemma_slice_members<S: Scalar>(
    axis: isize,
    start: isize,
    end: Option<isize>,
    step: isize,
    x: TensorV<S>,
    t: TensorV<S>,
    n: usize,
    i: int,
    y: TensorV<S>,
    u: TensorV<S>,
)
    requires
        is_block(x, t, n, i),
        axis < isize::MAX,
        model::un_tensor(UnOpV::Slice(axis, start, end, step), x) == Ok::<TensorV<S>, Fault>(y),
        model::un_tensor(UnOpV::Slice(batched::shifted(axis), start, end, step), t) == Ok::<
            TensorV<S>,
            Fault,
        >(u),
    ensures
        is_block(y, u, n, i),
{
    let s = x.shape;
    let m = s.len() as int;
    let ax = shape::norm_axis(axis as int, m);
    lemma_shifted(axis, m);
    lemma_around(n, s, ax);
    let (len, st) = (s[ax] as int, step as int);
    let count = model::slice_count(len, start as int, end, st);
    let first = model::slice_first(len, start as int, st);
    manipulate::lemma_slice(len, start as int, end, st);
    let o = y.shape;
    assert(u.shape =~= atop(n, o));
    lemma_around(n, o, ax);
    members::lemma_atop(n, o);
    members::lemma_atop(n, s);
    let (outer, inner) = (model::outer_size(s, ax) as int, model::inner_size(s, ax) as int);
    assert(o.subrange(ax + 1, m) =~= s.subrange(ax + 1, m));
    assert(o.subrange(0, ax) =~= s.subrange(0, ax));
    assert forall|q: int| 0 <= q < y.data.len() implies #[trigger] y.data[q] == u.data[i
        * y.data.len() + q] by {
        carry_places::lemma_parts(o, ax, q);
        manipulate::lemma_cell(i, q, n as int, y.data.len() as int);
        let r = i * (outer * count * inner) + q;
        lemma_behind_blocks(i, outer * count, inner, q);
        lemma_behind_blocks(i, outer, count, q / inner);
        let (a, c, b) = (q / inner / count, q / inner % count, q % inner);
        let far = first + c * st;
        assert(0 <= far < len) by {
            assert(0 <= first + (c * st) < len);
        }
        let z = model::slice_index(q, len, inner, first, count, st);
        manipulate::lemma_cell(a, far, outer, len);
        manipulate::lemma_cell(a * len + far, b, outer * len, inner);
        assert(z == (a * len + far) * inner + b);
        assert(((i * outer + a) * len + first + c * st) * inner + b == i * (outer * len * inner)
            + z) by {
            assert((i * outer + a) * len == i * (outer * len) + a * len) by (nonlinear_arith);
            let (e, g) = (i * (outer * len), a * len + far);
            assert((e + g) * inner == e * inner + g * inner) by (nonlinear_arith);
            let h = outer * len;
            assert((i * h) * inner == i * (h * inner)) by (nonlinear_arith);
        }
        assert(x.data[z] == t.data[i * x.data.len() + z]);
        assert(u.data[r] == t.data[model::slice_index(r, len, inner, first, count, st)]);
    }
}

// ---- moved axes ----
/// A stack with an axis of its members moved is the stack of the members with the axis moved.
pub proof fn lemma_move_members<S: Scalar>(
    from: isize,
    to: isize,
    x: TensorV<S>,
    t: TensorV<S>,
    n: usize,
    i: int,
    y: TensorV<S>,
    u: TensorV<S>,
)
    requires
        is_block(x, t, n, i),
        from < isize::MAX,
        to < isize::MAX,
        model::un_tensor(UnOpV::MoveAxis(from, to), x) == Ok::<TensorV<S>, Fault>(y),
        model::un_tensor(
            UnOpV::MoveAxis(batched::shifted(from), batched::shifted(to)),
            t,
        ) == Ok::<TensorV<S>, Fault>(u),
    ensures
        is_block(y, u, n, i),
{
    let s = x.shape;
    let m = s.len() as int;
    let (a, b) = (shape::norm_axis(from as int, m), shape::norm_axis(to as int, m));
    lemma_shifted(from, m);
    lemma_shifted(to, m);
    manipulate::lemma_moved(s, a, b);
    lemma_moved_stack(n, s, a, b);
    let o = y.shape;
    members::lemma_atop(n, o);
    members::lemma_atop(n, s);
    let low = if a <= b {
        a
    } else {
        b
    };
    let (h, p, q, inner) = (
        shape::product(s.subrange(0, low)) as int,
        model::first_block(s, a, b) as int,
        model::second_block(s, a, b) as int,
        model::behind_blocks(s, a, b) as int,
    );
    let all = shape::product(s) as int;
    assert(all == h * p * q * inner);
    assert forall|k: int| 0 <= k < y.data.len() implies #[trigger] y.data[k] == u.data[i
        * y.data.len() + k] by {
        manipulate::lemma_cell(i, k, n as int, all);
        manipulate::lemma_swapped(k, h, p, q, inner);
        lemma_swapped_behind(i, k, h, p, q, inner);
        let z = model::swapped_index(k, p, q, inner);
        assert(x.data[z] == t.data[i * x.data.len() + z]);
    }
}

/// The blocks of axes that change places in a stack are those of its members.
proof fn lemma_moved_stack(n: usize, s: Seq<usize>, a: int, b: int)
    requires
        0 <= a < s.len(),
        0 <= b < s.len(),
    ensures
        ({
            let w = atop(n, s);
            &&& model::moved(w, a + 1, b + 1) == atop(n, model::moved(s, a, b))
            &&& model::first_block(w, a + 1, b + 1) == model::first_block(s, a, b)
            &&& model::second_block(w, a + 1, b + 1) == model::second_block(s, a, b)
            &&& model::behind_blocks(w, a + 1, b + 1) == model::behind_blocks(s, a, b)
        }),
{
    let w = atop(n, s);
    let m = s.len() as int;
    assert(w.remove(a + 1) =~= atop(n, s.remove(a)));
    assert(model::moved(w, a + 1, b + 1) =~= atop(n, model::moved(s, a, b)));
    if a <= b {
        assert(w.subrange(a + 2, b + 2) =~= s.subrange(a + 1, b + 1));
        assert(w.subrange(b + 2, m + 1) =~= s.subrange(b + 1, m));
    } else {
        assert(w.subrange(b + 1, a + 1) =~= s.subrange(b, a));
        assert(w.subrange(a + 2, m + 1) =~= s.subrange(a + 1, m));
    }
}

/// Blocks that change places behind `i` whole tensors.
proof fn lemma_swapped_behind(i: int, k: int, h: int, p: int, q: int, inner: int)
    requires
        0 <= k < h * p * q * inner,
        0 <= h,
        0 <= p,
        0 <= q,
        0 <= inner,
    ensures
        model::swapped_index(i * (h * p * q * inner) + k, p, q, inner) == i * (h * p * q * inner)
            + model::swapped_index(k, p, q, inner),
{
    manipulate::lemma_row(k, h * p * q, inner);
    let x = k / inner;
    assert(h * p * q == h * q * p) by (nonlinear_arith);
    manipulate::lemma_row(x, h * q, p);
    let y = x / p;
    manipulate::lemma_row(y, h, q);
    lemma_behind_blocks(i, h * p * q, inner, k);
    lemma_behind_blocks(i, h * q, p, x);
    lemma_behind_blocks(i, h, q, y);
    let (b, c, o) = (x % p, y % q, y / q);
    let e = k % inner;
    let f = (o * p + b) * q + c;
    assert(((i * h + o) * p + b) * q + c == i * (h * p * q) + f) by {
        assert((i * h + o) * p == i * (h * p) + o * p) by (nonlinear_arith);
        let (g, j) = (i * (h * p), o * p + b);
        assert((g + j) * q == g * q + j * q) by (nonlinear_arith);
        let l = h * p;
        assert((i * l) * q == i * (l * q)) by (nonlinear_arith);
    }
    let l = h * p * q;
    assert((i * l + f) * inner == i * (l * inner) + f * inner) by (nonlinear_arith);
}

// ---- sums ----
/// A sum along a line of a stack is a sum along a line of its member.
proof fn lemma_line_member<S: Scalar>(
    x: TensorV<S>,
    t: TensorV<S>,
    n: usize,
    i: int,
    ax: int,
    q: int,
    k: nat,
)
    requires
        is_block(x, t, n, i),
        0 <= ax < x.shape.len(),
        0 <= q < shape::product(x.shape.remove(ax)),
        k <= x.shape[ax],
    ensures
        ({
            let (a, inner) = (x.shape[ax] as int, model::inner_size(x.shape, ax) as int);
            model::line_sum(
                t.data,
                a,
                inner,
                i * shape::product(x.shape.remove(ax)) + q,
                k,
            ) == model::line_sum(x.data, a, inner, q, k)
        }),
    decreases k,
{
    if k > 0 {
        let s = x.shape;
        lemma_around(n, s, ax);
        lemma_line_member(x, t, n, i, ax, q, (k - 1) as nat);
        let (a, inner, outer) = (
            s[ax] as int,
            model::inner_size(s, ax) as int,
            model::outer_size(s, ax) as int,
        );
        manipulate::lemma_row(q, outer, inner);
        lemma_behind_blocks(i, outer, inner, q);
        let (o, b, c) = (q / inner, q % inner, k - 1);
        manipulate::lemma_cell(o, c, outer, a);
        manipulate::lemma_cell(o * a + c, b, outer * a, inner);
        let z = (o * a + c) * inner + b;
        assert(((i * outer + o) * a + c) * inner + b == i * (outer * a * inner) + z) by {
            assert((i * outer + o) * a == i * (outer * a) + o * a) by (nonlinear_arith);
            let (e, g) = (i * (outer * a), o * a + c);
            assert((e + g) * inner == e * inner + g * inner) by (nonlinear_arith);
            let h = outer * a;
            assert((i * h) * inner == i * (h * inner)) by (nonlinear_arith);
        }
        assert(x.data[z] == t.data[i * x.data.len() + z]);
    }
}

/// A stack summed along an axis of its members is the stack of the summed members.
proof fn lemma_sum_member<S: Scalar>(x: TensorV<S>, t: TensorV<S>, n: usize, i: int, ax: int)
    requires
        is_block(x, t, n, i),
        0 <= ax < x.shape.len(),
    ensures
        is_block(model::sum_axis(x, ax), model::sum_axis(t, ax + 1), n, i),
{
    let s = x.shape;
    lemma_around(n, s, ax);
    let (y, u) = (model::sum_axis(x, ax), model::sum_axis(t, ax + 1));
    members::lemma_atop(n, y.shape);
    assert forall|q: int| 0 <= q < y.data.len() implies #[trigger] y.data[q] == u.data[i
        * y.data.len() + q] by {
        manipulate::lemma_cell(i, q, n as int, y.data.len() as int);
        lemma_line_member(x, t, n, i, ax, q, s[ax] as nat);
    }
}

/// A stack summed along axes of its members is the stack of the summed members.
proof fn lemma_sums_member<S: Scalar>(
    axes: Seq<isize>,
    m: int,
    x: TensorV<S>,
    t: TensorV<S>,
    n: usize,
    i: int,
    k: nat,
)
    requires
        batched::shiftable(axes),
        model::axes_ok(axes, m),
        is_block(x, t, n, i),
        k <= m,
        k <= x.shape.len(),
    ensures
        is_block(
            model::sum_axes(x, axes, m, k),
            model::sum_axes(t, batched::shifted_all(axes), m + 1, k + 1),
            n,
            i,
        ),
    decreases k,
{
    let moved = batched::shifted_all(axes);
    if k == 0 {
        if m > 0 {
            lemma_shifted_names(axes, m, 0);
        } else {
            assert(!model::names_axis(moved, m + 1, 0)) by {
                if axes.len() > 0 {
                    assert(shape::axis_ok(axes[0] as int, m));
                }
            }
        }
        assert(model::sum_axes(t, moved, m + 1, 0) == t);
        assert(model::sum_axes(t, moved, m + 1, 1) == t);
    } else {
        lemma_shifted_names(axes, m, k - 1);
        let (y, u) = if model::names_axis(axes, m, k - 1) {
            lemma_sum_member(x, t, n, i, k - 1);
            (model::sum_axis(x, k - 1), model::sum_axis(t, k as int))
        } else {
            (x, t)
        };
        lemma_sums_member(axes, m, y, u, n, i, (k - 1) as nat);
    }
}

/// A stack reduced along axes of its members is the stack of the reduced members.
pub proof fn lemma_reduce_members<S: Scalar>(
    axes: Seq<isize>,
    x: TensorV<S>,
    t: TensorV<S>,
    n: usize,
    i: int,
    y: TensorV<S>,
    u: TensorV<S>,
)
    requires
        is_block(x, t, n, i),
        batched::shiftable(axes),
        model::un_tensor(UnOpV::ReduceSum(axes), x) == Ok::<TensorV<S>, Fault>(y),
        model::un_tensor(UnOpV::ReduceSum(batched::shifted_all(axes)), t) == Ok::<
            TensorV<S>,
            Fault,
        >(u),
    ensures
        is_block(y, u, n, i),
{
    let m = x.shape.len() as int;
    lemma_sums_member(axes, m, x, t, n, i, m as nat);
    reals::lemma_sum_axes_full(x, axes, m, m as nat);
    reals::lemma_sum_axes_full(t, batched::shifted_all(axes), m + 1, (m + 1) as nat);
}

// ---- new axes ----
/// The axes that are not new, before an axis of the members and of the stack.
proof fn lemma_unnamed(axes: Seq<isize>, m: int, k: nat)
    requires
        batched::shiftable(axes),
        model::axes_ok(axes, m),
        k <= m,
        0 < m,
    ensures
        model::unnamed_below(batched::shifted_all(axes), m + 1, k + 1) == model::unnamed_below(
            axes,
            m,
            k,
        ) + 1,
    decreases k,
{
    let moved = batched::shifted_all(axes);
    if k == 0 {
        lemma_shifted_names(axes, m, 0);
        assert(model::unnamed_below(moved, m + 1, 0) == 0);
    } else {
        lemma_shifted_names(axes, m, k - 1);
        lemma_unnamed(axes, m, (k - 1) as nat);
    }
}

/// A stack with new axes in its members is the stack of the members with new axes.
pub proof fn lemma_expand_members<S: Scalar>(
    axes: Seq<isize>,
    x: TensorV<S>,
    t: TensorV<S>,
    n: usize,
    i: int,
    y: TensorV<S>,
    u: TensorV<S>,
)
    requires
        is_block(x, t, n, i),
        reals::full(y),
        reals::full(u),
        batched::shiftable(axes),
        model::un_tensor(UnOpV::ExpandDims(axes), x) == Ok::<TensorV<S>, Fault>(y),
        model::un_tensor(UnOpV::ExpandDims(batched::shifted_all(axes)), t) == Ok::<
            TensorV<S>,
            Fault,
        >(u),
    ensures
        is_block(y, u, n, i),
{
    let s = x.shape;
    let m = (s.len() + axes.len()) as int;
    let moved = batched::shifted_all(axes);
    let (o, w) = (y.shape, atop(n, y.shape));
    assert(u.shape =~= w) by {
        assert forall|k: int| 0 <= k < m + 1 implies #[trigger] u.shape[k] == w[k] by {
            if m == 0 {
                assert(axes.len() == 0);
                assert(!model::names_axis(moved, m + 1, 0));
                assert(model::unnamed_below(moved, m + 1, 0) == 0);
            } else if k == 0 {
                lemma_shifted_names(axes, m, 0);
                assert(model::unnamed_below(moved, m + 1, 0) == 0);
            } else {
                lemma_shifted_names(axes, m, k - 1);
                lemma_unnamed(axes, m, (k - 1) as nat);
                assert(w[k] == o[k - 1]);
                if !model::names_axis(axes, m, k - 1) {
                    let z = model::unnamed_below(axes, m, (k - 1) as nat) as int;
                    lemma_unnamed_bound(axes, m, (k - 1) as nat, m as nat);
                    assert(atop(n, s)[z + 1] == s[z]);
                }
            }
        }
    }
}

/// Fewer axes are not new before an axis that is not new than in all.
proof fn lemma_unnamed_bound(axes: Seq<isize>, m: int, k: nat, l: nat)
    requires
        k < l,
        !model::names_axis(axes, m, k as int),
    ensures
        model::unnamed_below(axes, m, k) < model::unnamed_below(axes, m, l),
    decreases l,
{
    if k + 1 < l {
        lemma_unnamed_bound(axes, m, k, (l - 1) as nat);
    }
}

// ---- coordinates ----
/// The coordinates of an element of a stack are the number of its member and those in it.
proof fn lemma_stack_coordinates(k: int, s: Seq<usize>, n: usize, i: int)
    requires
        0 <= k < shape::product(s),
        0 <= i < n,
    ensures
        shape::unravel(i * shape::product(s) + k, atop(n, s)) == atop(
            i as usize,
            shape::unravel(k, s),
        ),
    decreases s.len(),
{
    let a = atop(n, s);
    if s.len() == 0 {
        assert(k == 0);
        assert(i * 1 + 0 == i) by (nonlinear_arith);
        assert(i % (n as int) == i) by (nonlinear_arith)
            requires
                0 <= i < n,
        ;
        assert(a.drop_last() =~= Seq::<usize>::empty());
        assert(shape::unravel(i / (n as int), Seq::<usize>::empty()) =~= Seq::<usize>::empty());
        assert(shape::unravel(i, a) =~= seq![i as usize]);
        assert(atop(i as usize, shape::unravel(k, s)) =~= seq![i as usize]);
    } else {
        let (t, d) = (s.drop_last(), s.last() as int);
        assert(a.drop_last() =~= atop(n, t));
        manipulate::lemma_row(k, shape::product(t) as int, d);
        lemma_behind_blocks(i, shape::product(t) as int, d, k);
        lemma_stack_coordinates(k / d, t, n, i);
        assert(shape::unravel(i * shape::product(s) + k, a) =~= atop(
            i as usize,
            shape::unravel(k, s),
        ));
    }
}

/// The flat index of coordinates in a stack.
proof fn lemma_stack_index(m: Seq<usize>, s: Seq<usize>, i: usize, n: usize)
    requires
        m.len() == s.len(),
    ensures
        shape::ravel(atop(i, m), atop(n, s)) == i * shape::product(s) + shape::ravel(m, s),
    decreases s.len(),
{
    let (c, a) = (atop(i, m), atop(n, s));
    if s.len() == 0 {
        assert(shape::ravel(c.drop_last(), a.drop_last()) == 0);
        assert(c.last() == i);
        assert(0 * (a.last() as int) == 0) by (nonlinear_arith);
        assert(i * 1 + 0 == i) by (nonlinear_arith);
    } else {
        let (m1, s1) = (m.drop_last(), s.drop_last());
        assert(c.drop_last() =~= atop(i, m1));
        assert(a.drop_last() =~= atop(n, s1));
        lemma_stack_index(m1, s1, i, n);
        let (p, d, r) = (shape::product(s1) as int, s.last() as int, shape::ravel(m1, s1));
        assert((i * p + r) * d == i * (p * d) + r * d) by (nonlinear_arith);
    }
}

// ---- padding ----
/// The padding of a stack that acts on its members.
pub open spec fn behind<S>(p: PadV<S>) -> PadV<S> {
    PadV {
        left: p.left,
        right: p.right,
        interior: p.interior,
        axes: batched::shifted_all(p.axes),
        value: p.value,
    }
}

/// A stack padded along axes of its members is the stack of the padded members.
pub proof fn lemma_pad_members<S: Scalar>(
    p: PadV<S>,
    x: TensorV<S>,
    t: TensorV<S>,
    n: usize,
    i: int,
    y: TensorV<S>,
    u: TensorV<S>,
)
    requires
        is_block(x, t, n, i),
        batched::shiftable(p.axes),
        model::axes_ok(p.axes, x.shape.len() as int),
        model::un_tensor(UnOpV::Pad(p), x) == Ok::<TensorV<S>, Fault>(y),
        model::un_tensor(UnOpV::Pad(behind(p)), t) == Ok::<TensorV<S>, Fault>(u),
    ensures
        is_block(y, u, n, i),
{
    let s = x.shape;
    let r = s.len() as int;
    let q = behind(p);
    let w = atop(n, s);
    let o = y.shape;
    assert(!model::names_axis(q.axes, r + 1, 0)) by {
        if r > 0 {
            lemma_shifted_names(p.axes, r, 0);
        } else if p.axes.len() > 0 {
            assert(shape::axis_ok(p.axes[0] as int, r));
        }
    }
    assert forall|k: int| 0 <= k < r implies #[trigger] model::names_axis(q.axes, r + 1, k + 1)
        == model::names_axis(p.axes, r, k) by {
        lemma_shifted_names(p.axes, r, k);
    }
    assert(u.shape =~= atop(n, o)) by {
        assert forall|k: int| 0 <= k < r + 1 implies #[trigger] u.shape[k] == atop(n, o)[k] by {
            if k > 0 {
                assert(model::names_axis(q.axes, r + 1, (k - 1) + 1) == model::names_axis(
                    p.axes,
                    r,
                    k - 1,
                ));
                assert(w[k] == s[k - 1]);
            }
        }
    }
    members::lemma_atop(n, o);
    assert forall|k: int| 0 <= k < y.data.len() implies #[trigger] y.data[k] == u.data[i
        * y.data.len() + k] by {
        manipulate::lemma_cell(i, k, n as int, y.data.len() as int);
        lemma_stack_coordinates(k, o, n, i);
        shape::lemma_unravel_ravel(k, o);
        let m = shape::unravel(k, o);
        let c = atop(i as usize, m);
        lemma_pad_stack(p, m, s, n, i);
        if model::pad_hit(p, m, s) {
            let f = model::pad_coordinates(p, m, s);
            lemma_stack_index(f, s, i as usize, n);
            lemma_pad_reach(p, m, s, o);
            assert(x.data[shape::ravel(f, s)] == t.data[i * x.data.len() + shape::ravel(f, s)]);
        }
    }
}

/// Which element stands at padded coordinates, in a member and in the stack.
proof fn lemma_pad_stack<S>(p: PadV<S>, m: Seq<usize>, s: Seq<usize>, n: usize, i: int)
    requires
        batched::shiftable(p.axes),
        model::axes_ok(p.axes, s.len() as int),
        m.len() == s.len(),
        0 <= i < n,
    ensures
        model::pad_hit(behind(p), atop(i as usize, m), atop(n, s)) == model::pad_hit(p, m, s),
        model::pad_hit(p, m, s) ==> model::pad_coordinates(
            behind(p),
            atop(i as usize, m),
            atop(n, s),
        ) == atop(i as usize, model::pad_coordinates(p, m, s)),
{
    let r = s.len() as int;
    let q = behind(p);
    let (c, w) = (atop(i as usize, m), atop(n, s));
    assert(!model::names_axis(q.axes, r + 1, 0)) by {
        if r > 0 {
            lemma_shifted_names(p.axes, r, 0);
        } else if p.axes.len() > 0 {
            assert(shape::axis_ok(p.axes[0] as int, r));
        }
    }
    assert(model::pad_axis(q, c, w, 0) == Some(i));
    assert forall|k: int| 0 <= k < r implies model::pad_axis(q, c, w, k + 1) == #[trigger]
        model::pad_axis(p, m, s, k) by {
        lemma_shifted_names(p.axes, r, k);
        assert(c[k + 1] == m[k] && w[k + 1] == s[k]);
    }
    if model::pad_hit(p, m, s) {
        assert forall|k: int| 0 <= k < w.len() implies (#[trigger] model::pad_axis(
            q,
            c,
            w,
            k,
        )) is Some by {
            if k > 0 {
                assert(model::pad_axis(p, m, s, k - 1) is Some);
                assert(model::pad_axis(q, c, w, (k - 1) + 1) == model::pad_axis(p, m, s, k - 1));
            }
        }
        assert(model::pad_coordinates(q, c, w) =~= atop(
            i as usize,
            model::pad_coordinates(p, m, s),
        )) by {
            assert forall|k: int| 0 <= k < w.len() implies #[trigger] model::pad_coordinates(
                q,
                c,
                w,
            )[k] == atop(i as usize, model::pad_coordinates(p, m, s))[k] by {
                if k > 0 {
                    assert(model::pad_axis(q, c, w, (k - 1) + 1) == model::pad_axis(
                        p,
                        m,
                        s,
                        k - 1,
                    ));
                }
            }
        }
    } else {
        let k = choose|k: int|
            0 <= k < s.len() && !((#[trigger] model::pad_axis(p, m, s, k)) is Some);
        assert(!(model::pad_axis(q, c, w, k + 1) is Some));
    }
}

/// The element that stands at padded coordinates exists.
proof fn lemma_pad_reach<S>(p: PadV<S>, m: Seq<usize>, s: Seq<usize>, o: Seq<usize>)
    requires
        model::pad_shape(p, s) == Ok::<Seq<usize>, Fault>(o),
        shape::in_shape(m, o),
        model::pad_hit(p, m, s),
    ensures
        0 <= shape::ravel(model::pad_coordinates(p, m, s), s) < shape::product(s),
{
    let f = model::pad_coordinates(p, m, s);
    assert(shape::in_shape(f, s)) by {
        assert forall|k: int| 0 <= k < s.len() implies #[trigger] f[k] < s[k] by {
            assert(model::pad_axis(p, m, s, k) is Some);
            assert(m[k] < o[k]);
            assert(model::pad_len(p, s, k) <= usize::MAX);
            if model::names_axis(p.axes, s.len() as int, k) {
                let (c, d) = (m[k] - p.left, p.interior + 1);
                assert(0 <= c / d) by (nonlinear_arith)
                    requires
                        0 <= c,
                        0 < d,
                ;
            }
        }
    }
    shape::lemma_ravel_unravel(f, s);
}

// ---- contractions ----
/// A sum of products of the contraction of a stack is one of the contraction of a member.
proof fn lemma_dot_sum_member<S: Scalar>(
    x: Seq<S>,
    t: Seq<S>,
    w: Seq<S>,
    h: int,
    k: int,
    n: int,
    p: int,
    i: int,
    q: int,
    m: nat,
)
    requires
        0 <= q < h * p * n,
        0 <= n,
        0 <= p,
        m <= k,
        x.len() == h * k,
        forall|j: int| 0 <= j < x.len() ==> #[trigger] x[j] == t[i * x.len() + j],
    ensures
        model::dot_sum(t, w, k, n, p, i * (h * p * n) + q, m) == model::dot_sum(
            x,
            w,
            k,
            n,
            p,
            q,
            m,
        ),
    decreases m,
{
    if m > 0 {
        lemma_dot_sum_member(x, t, w, h, k, n, p, i, q, (m - 1) as nat);
        manipulate::lemma_row(q, h * p, n);
        manipulate::lemma_row(q / n, h, p);
        lemma_behind_blocks(i, h * p, n, q);
        lemma_behind_blocks(i, h, p, q / n);
        let (e, c) = (q / n / p, m - 1);
        manipulate::lemma_cell(e, c, h, k);
        assert((i * h + e) * k + c == i * (h * k) + (e * k + c)) by (nonlinear_arith);
        assert(x[e * k + c] == t[i * x.len() + (e * k + c)]);
    }
}

/// The contraction of a stack with a constant is the stack of the contractions of its members.
pub proof fn lemma_dot_members<S: Scalar>(
    w: TensorV<S>,
    x: TensorV<S>,
    t: TensorV<S>,
    n: usize,
    i: int,
    y: TensorV<S>,
    u: TensorV<S>,
)
    requires
        is_block(x, t, n, i),
        1 <= w.shape.len(),
        1 <= x.shape.len(),
        model::bin_tensor(BinOpV::Dot, x, w) == Ok::<TensorV<S>, Fault>(y),
        model::bin_tensor(BinOpV::Dot, t, w) == Ok::<TensorV<S>, Fault>(u),
    ensures
        is_block(y, u, n, i),
{
    let (s, o) = (x.shape, y.shape);
    let a = atop(n, s);
    assert(a.last() == s.last());
    assert(a.drop_last() =~= atop(n, s.drop_last()));
    assert(u.shape =~= atop(n, o));
    members::lemma_atop(n, o);
    let h = shape::product(s.drop_last()) as int;
    let (c, p) = (
        model::dot_columns(w.shape) as int,
        model::dot_planes(w.shape) as int,
    );
    assert(shape::product(o) == h * p * c) by {
        if w.shape.len() == 1 {
            assert(h * 1 * 1 == h) by (nonlinear_arith);
        } else {
            let b = w.shape.subrange(0, w.shape.len() - 2);
            shape::lemma_product_concat(s.drop_last() + b, seq![w.shape.last()]);
            shape::lemma_product_concat(s.drop_last(), b);
            shape::lemma_product_single(w.shape.last());
        }
    }
    let k = s.last() as int;
    assert forall|q: int| 0 <= q < y.data.len() implies #[trigger] y.data[q] == u.data[i
        * y.data.len() + q] by {
        manipulate::lemma_cell(i, q, n as int, y.data.len() as int);
        lemma_dot_sum_member(x.data, t.data, w.data, h, k, c, p, i, q, s.last() as nat);
    }
}

// ---- convolutions ----
/// A product of the convolution of a stack whose members are laid side by side is a product of the
/// convolution of a member.
proof fn lemma_conv_term_member<S: Scalar>(
    x: TensorV<S>,
    a: TensorV<S>,
    k: TensorV<S>,
    stride: isize,
    n: usize,
    i: int,
    o: Seq<usize>,
    r: int,
    j: int,
)
    requires
        0 <= i < n,
        reals::full(x),
        x.shape.len() == 4,
        n * x.shape[0] <= usize::MAX,
        a.shape == x.shape.update(0, (n * x.shape[0]) as usize),
        forall|q: int|
            0 <= q < x.data.len() ==> #[trigger] x.data[q] == a.data[i * x.data.len() + q],
        model::conv_shape(x.shape, k.shape, stride) == Ok::<Seq<usize>, Fault>(o),
        0 <= r < shape::product(o),
        0 <= j < shape::product(k.shape.subrange(1, 4)),
    ensures
        ({
            let s = (stride as usize) as int;
            model::conv_term(
                a,
                k,
                s,
                o.update(0, (n * x.shape[0]) as usize),
                i * shape::product(o) + r,
                j,
            ) == model::conv_term(x, k, s, o, r, j)
        }),
{
    let s = (stride as usize) as int;
    let (xs, ks) = (x.shape, k.shape);
    linalg::lemma_product4(o);
    linalg::lemma_product4(ks);
    linalg::lemma_product4(xs);
    linalg::lemma_split4(r, o);
    linalg::lemma_split3(j, ks[1] as int, ks[2] as int, ks[3] as int);
    let (o0, oc, oh, ow) = (o[0] as int, o[1] as int, o[2] as int, o[3] as int);
    let (kw, kh) = (ks[3] as int, ks[2] as int);
    lemma_behind_blocks(i, o0 * oc * oh, ow, r);
    lemma_behind_blocks(i, o0 * oc, oh, r / ow);
    lemma_behind_blocks(i, o0, oc, r / ow / oh);
    let (wi, hi, ci, ni) = (r % ow, r / ow % oh, r / ow / oh % oc, r / ow / oh / oc);
    let (jj, ii, c) = (j % kw, j / kw % kh, j / kw / kh);
    linalg::lemma_reach(xs[2] as int, kh, s, hi, ii);
    linalg::lemma_reach(xs[3] as int, kw, s, wi, jj);
    let (y, z) = (s * hi + ii, s * wi + jj);
    linalg::lemma_at4(xs, ni, c, y, z);
    let q = model::at4(xs, ni, c, y, z);
    let (s0, s1, s2, s3) = (xs[0] as int, xs[1] as int, xs[2] as int, xs[3] as int);
    assert((((i * s0 + ni) * s1 + c) * s2 + y) * s3 + z == i * (s0 * s1 * s2 * s3) + q) by {
        let e = ni * s1 + c;
        assert((i * s0 + ni) * s1 == i * (s0 * s1) + ni * s1) by (nonlinear_arith);
        let (l, f) = (s0 * s1, e * s2 + y);
        assert((i * l + e) * s2 == i * (l * s2) + e * s2) by (nonlinear_arith);
        let g = l * s2;
        assert((i * g + f) * s3 == i * (g * s3) + f * s3) by (nonlinear_arith);
    }
    assert(x.data[q] == a.data[i * x.data.len() + q]);
}

/// A sum of products of the convolution of a stack.
proof fn lemma_conv_sum_member<S: Scalar>(
    x: TensorV<S>,
    a: TensorV<S>,
    k: TensorV<S>,
    stride: isize,
    n: usize,
    i: int,
    o: Seq<usize>,
    r: int,
    m: nat,
)
    requires
        0 <= i < n,
        reals::full(x),
        x.shape.len() == 4,
        n * x.shape[0] <= usize::MAX,
        a.shape == x.shape.update(0, (n * x.shape[0]) as usize),
        forall|q: int|
            0 <= q < x.data.len() ==> #[trigger] x.data[q] == a.data[i * x.data.len() + q],
        model::conv_shape(x.shape, k.shape, stride) == Ok::<Seq<usize>, Fault>(o),
        0 <= r < shape::product(o),
        m <= shape::product(k.shape.subrange(1, 4)),
    ensures
        ({
            let s = (stride as usize) as int;
            model::conv_sum(
                a,
                k,
                s,
                o.update(0, (n * x.shape[0]) as usize),
                i * shape::product(o) + r,
                m,
            ) == model::conv_sum(x, k, s, o, r, m)
        }),
    decreases m,
{
    if m > 0 {
        lemma_conv_sum_member(x, a, k, stride, n, i, o, r, (m - 1) as nat);
        lemma_conv_term_member(x, a, k, stride, n, i, o, r, m - 1);
    }
}

/// The convolution of a stack is the stack of the convolutions of its members.
pub proof fn lemma_conv_members<S: Scalar>(
    stride: isize,
    k: TensorV<S>,
    x: TensorV<S>,
    t: TensorV<S>,
    n: usize,
    i: int,
    y: TensorV<S>,
    u: TensorV<S>,
)
    requires
        is_block(x, t, n, i),
        model::bin_tensor(BinOpV::Conv(stride), x, k) == Ok::<TensorV<S>, Fault>(y),
        batched::conv_batch(t, k, stride) == Ok::<TensorV<S>, Fault>(u),
    ensures
        is_block(y, u, n, i),
{
    let s = x.shape;
    let w = atop(n, s);
    assert(s.len() == 4);
    assert(w[1] == s[0] && w[2] == s[1] && w[3] == s[2] && w[4] == s[3]);
    let m = batched::merged(w)->Ok_0;
    assert(m =~= s.update(0, (n * s[0]) as usize));
    let flat = TensorV { shape: m, data: t.data };
    let o = model::bin_tensor(BinOpV::Conv(stride), flat, k)->Ok_0;
    let out = y.shape;
    assert(o.shape =~= out.update(0, (n * s[0]) as usize));
    assert(u.shape =~= atop(n, out));
    members::lemma_atop(n, out);
    assert forall|q: int| 0 <= q < y.data.len() implies #[trigger] y.data[q] == u.data[i
        * y.data.len() + q] by {
        manipulate::lemma_cell(i, q, n as int, y.data.len() as int);
        lemma_conv_sum_member(
            x,
            flat,
            k,
            stride,
            n,
            i,
            out,
            q,
            shape::product(k.shape.subrange(1, 4)),
        );
    }
}

// ---- pooling ----
/// The coordinates of an element of a stack whose members are laid side by side.
proof fn lemma_side_coordinates(k: int, s: Seq<usize>, n: usize, i: int)
    requires
        s.len() > 0,
        0 <= k < shape::product(s),
        0 <= i < n,
        n * s[0] <= usize::MAX,
    ensures
        ({
            let m = shape::unravel(k, s);
            &&& i * s[0] + m[0] < n * s[0]
            &&& shape::unravel(i * shape::product(s) + k, s.update(0, (n * s[0]) as usize))
                == m.update(0, (i * s[0] + m[0]) as usize)
        }),
    decreases s.len(),
{
    let d = s.last() as int;
    let t = s.drop_last();
    let w = s.update(0, (n * s[0]) as usize);
    manipulate::lemma_row(k, shape::product(t) as int, d);
    shape::lemma_unravel_ravel(k, s);
    let m = shape::unravel(k, s);
    assert(m[0] < s[0]);
    manipulate::lemma_cell(i, m[0] as int, n as int, s[0] as int);
    if s.len() == 1 {
        assert(shape::product(t) == 1);
        assert(shape::product(s) == 1 * d);
        assert(w.drop_last() =~= Seq::<usize>::empty());
        let r = i * d + k;
        assert(k % d == k) by (nonlinear_arith)
            requires
                0 <= k < d,
        ;
        assert(m =~= seq![k as usize]);
        manipulate::lemma_cell(i, k, n as int, d);
        let e = n * d;
        assert(r % e == r) by (nonlinear_arith)
            requires
                0 <= r < e,
        ;
        assert(shape::unravel(r / e, Seq::<usize>::empty()) =~= Seq::<usize>::empty());
        assert(shape::unravel(r, w) =~= seq![r as usize]);
    } else {
        lemma_behind_blocks(i, shape::product(t) as int, d, k);
        lemma_side_coordinates(k / d, t, n, i);
        assert(w.drop_last() =~= t.update(0, (n * s[0]) as usize));
        let f = shape::unravel(k / d, t);
        assert(m == f.push((k % d) as usize));
        assert(shape::unravel(i * shape::product(s) + k, w) =~= m.update(
            0,
            (i * s[0] + m[0]) as usize,
        ));
    }
}

/// The flat index of coordinates in a stack whose members are laid side by side.
proof fn lemma_side_index(m: Seq<usize>, s: Seq<usize>, n: usize, i: int)
    requires
        s.len() > 0,
        shape::in_shape(m, s),
        0 <= i < n,
        n * s[0] <= usize::MAX,
    ensures
        shape::ravel(
            m.update(0, (i * s[0] + m[0]) as usize),
            s.update(0, (n * s[0]) as usize),
        ) == i * shape::product(s) + shape::ravel(m, s),
    decreases s.len(),
{
    assert(m[0] < s[0]);
    manipulate::lemma_cell(i, m[0] as int, n as int, s[0] as int);
    let (c, w) = (m.update(0, (i * s[0] + m[0]) as usize), s.update(0, (n * s[0]) as usize));
    let (m1, s1, d) = (m.drop_last(), s.drop_last(), s.last() as int);
    if s.len() == 1 {
        assert(shape::ravel(c.drop_last(), w.drop_last()) == 0);
        assert(shape::ravel(m1, s1) == 0);
        assert(shape::product(s1) == 1);
        assert(shape::product(s) == 1 * d);
        assert(0 * (w.last() as int) == 0 && 0 * d == 0) by (nonlinear_arith);
    } else {
        assert(shape::in_shape(m1, s1)) by {
            assert forall|k: int| 0 <= k < s1.len() implies #[trigger] m1[k] < s1[k] by {
                assert(m[k] < s[k]);
            }
        }
        assert(c.drop_last() =~= m1.update(0, (i * s[0] + m[0]) as usize));
        assert(w.drop_last() =~= s1.update(0, (n * s[0]) as usize));
        lemma_side_index(m1, s1, n, i);
        let (p, r) = (shape::product(s1) as int, shape::ravel(m1, s1));
        assert((i * p + r) * d == i * (p * d) + r * d) by (nonlinear_arith);
    }
}

/// A sum over a window of a stack whose members are laid side by side is a sum over a window of a
/// member.
proof fn lemma_window_member<S: Scalar>(
    window: Seq<usize>,
    stride: Seq<usize>,
    x: TensorV<S>,
    a: TensorV<S>,
    n: usize,
    i: int,
    o: Seq<usize>,
    r: int,
    m: nat,
)
    requires
        0 <= i < n,
        reals::full(x),
        x.shape.len() > 0,
        window[0] == 1,
        stride[0] == 1,
        n * x.shape[0] <= usize::MAX,
        a.shape == x.shape.update(0, (n * x.shape[0]) as usize),
        forall|q: int|
            0 <= q < x.data.len() ==> #[trigger] x.data[q] == a.data[i * x.data.len() + q],
        model::pool_shape(x.shape, window, stride) == Ok::<Seq<usize>, Fault>(o),
        o[0] == x.shape[0],
        0 <= r < shape::product(o),
        m <= shape::product(window),
    ensures
        model::window_sum(
            a,
            window,
            stride,
            o.update(0, (n * x.shape[0]) as usize),
            i * shape::product(o) + r,
            m,
        ) == model::window_sum(x, window, stride, o, r, m),
    decreases m,
{
    if m > 0 {
        lemma_window_member(window, stride, x, a, n, i, o, r, (m - 1) as nat);
        let s = x.shape;
        let j = m - 1;
        let w = o.update(0, (n * s[0]) as usize);
        let q = i * shape::product(o) + r;
        reduce::lemma_window(s, window, stride, o, r, j);
        lemma_side_coordinates(r, o, n, i);
        shape::lemma_unravel_ravel(j, window);
        shape::lemma_unravel_ravel(r, o);
        let c = model::window_coordinates(window, stride, o, r, j);
        let (e, f) = (shape::unravel(r, o), shape::unravel(j, window));
        assert(f[0] < window[0]);
        assert(stride[0] * e[0] == e[0]);
        assert(c[0] == e[0]);
        let d = model::window_coordinates(window, stride, w, q, j);
        assert(d =~= c.update(0, (i * s[0] + c[0]) as usize)) by {
            let h = shape::unravel(q, w);
            assert(h[0] == i * s[0] + e[0]);
            assert(stride[0] * h[0] == h[0]);
        }
        lemma_side_index(c, s, n, i);
        shape::lemma_ravel_unravel(c, s);
        let z = shape::ravel(c, s);
        assert(x.data[z] == a.data[i * x.data.len() + z]);
    }
}

/// The pooling of a stack, by windows that hold one member each, is the stack of the poolings of
/// its members.
pub proof fn lemma_pool_members<S: Scalar>(
    window: Seq<usize>,
    stride: Seq<usize>,
    average: bool,
    x: TensorV<S>,
    t: TensorV<S>,
    n: usize,
    i: int,
    y: TensorV<S>,
    u: TensorV<S>,
)
    requires
        is_block(x, t, n, i),
        window[0] == 1,
        stride[0] == 1,
        model::un_tensor(UnOpV::Pool(window, stride, average), x) == Ok::<TensorV<S>, Fault>(y),
        batched::pool_batch(t, window, stride, average) == Ok::<TensorV<S>, Fault>(u),
    ensures
        is_block(y, u, n, i),
{
    let s = x.shape;
    let w = atop(n, s);
    assert(w.len() == s.len() + 1);
    assert(s.len() == 4);
    assert(w[1] == s[0] && w[2] == s[1] && w[3] == s[2] && w[4] == s[3]);
    let m = batched::merged(w)->Ok_0;
    assert(m =~= s.update(0, (n * s[0]) as usize));
    let flat = TensorV { shape: m, data: t.data };
    let o = model::un_tensor(UnOpV::Pool(window, stride, average), flat)->Ok_0;
    let out = y.shape;
    assert(window[0] <= s[0] && window[0] <= m[0]);
    let (e0, e1) = (s[0] - 1, m[0] - 1);
    assert(e0 / 1 == e0 && e1 / 1 == e1);
    assert(out[0] == s[0]);
    assert(o.shape =~= out.update(0, (n * s[0]) as usize)) by {
        assert forall|k: int| 0 <= k < 4 implies #[trigger] o.shape[k] == out.update(
            0,
            (n * s[0]) as usize,
        )[k] by {
            if k > 0 {
                assert(m[k] == s[k]);
            }
        }
    }
    assert(u.shape =~= atop(n, out));
    members::lemma_atop(n, out);
    assert forall|q: int| 0 <= q < y.data.len() implies #[trigger] y.data[q] == u.data[i
        * y.data.len() + q] by {
        manipulate::lemma_cell(i, q, n as int, y.data.len() as int);
        lemma_window_member(
            window,
            stride,
            x,
            flat,
            n,
            i,
            out,
            q,
            shape::product(window),
        );
    }
}

} // verus!
