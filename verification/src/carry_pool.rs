//! The program of a pooling carries the weights of its result to its operand.

use vstd::prelude::*;
use crate::carry;
use crate::carry_moves;
use crate::carry_pad;
use crate::carry_places;
use crate::carry_products;
use crate::crown;
use crate::exact;
use crate::manipulate;
use crate::model;
use crate::model::{BinOpV, Fault, PadV, TensorV, UnOpV};
use crate::pairing;
use crate::reals;
use crate::scalar;
use crate::scalar::Scalar;
use crate::shape;
use crate::sums;
use crate::support;
use crate::tensor::Tensor;
use crate::value::{Reg, StepV};
use crate::vjp;
use crate::vjp::RuleV;

verus! {

// ---- scattering along one axis ----
/// A sum over a tensor that was padded by zeros along one axis is a sum over the tensor.
pub proof fn lemma_pad_adjoint<S: Scalar>(
    v: spec_fn(S) -> real,
    p: PadV<S>,
    axis: isize,
    a: TensorV<S>,
    b: TensorV<S>,
    f: spec_fn(int) -> real,
)
    requires
        exact::exact(v),
        v(p.value) == 0real,
        p.axes == seq![axis],
        shape::axis_ok(axis as int, a.shape.len() as int),
        reals::full(a),
        model::un_tensor(UnOpV::Pad(p), a) == Ok::<TensorV<S>, Fault>(b),
    ensures
        ({
            let ax = shape::norm_axis(axis as int, a.shape.len() as int);
            let (d, e, inner) = (
                a.shape[ax] as int,
                b.shape[ax] as int,
                model::inner_size(a.shape, ax) as int,
            );
            &&& reals::full(b)
            &&& sums::sum(|k: int| v(b.data[k]) * f(k), b.data.len()) == sums::sum(
                |r: int|
                    v(a.data[r]) * f(
                        model::slice_index(r, e, inner, p.left as int, d, p.interior + 1),
                    ),
                a.data.len(),
            )
        }),
{
    let s = a.shape;
    let n = s.len() as int;
    let ax = shape::norm_axis(axis as int, n);
    let out = b.shape;
    let (na, nb) = (shape::product(s), shape::product(out));
    assert(b.data.len() == nb);
    let (d, inner, st) = (s[ax] as int, model::inner_size(s, ax) as int, p.interior + 1);
    assert(model::names_axis(p.axes, n, ax)) by {
        assert(shape::norm_axis(p.axes[0] as int, n) == ax);
    }
    assert(model::pad_len(p, s, ax) <= usize::MAX);
    let e = out[ax] as int;
    assert(e == model::padded_len(p, s[ax]));
    assert(out =~= s.update(ax, out[ax])) by {
        assert forall|i: int| 0 <= i < n implies #[trigger] out[i] == s.update(ax, out[ax])[i] by {
            if i != ax {
                assert(!model::names_axis(p.axes, n, i)) by {
                    if model::names_axis(p.axes, n, i) {
                        assert(p.axes[0] == axis);
                    }
                }
            }
        }
    }
    assert(out.subrange(ax + 1, n) =~= s.subrange(ax + 1, n));
    assert(out.subrange(0, ax) =~= s.subrange(0, ax));
    manipulate::lemma_remove(s, ax);
    manipulate::lemma_remove(out, ax);
    let outer = model::outer_size(s, ax) as int;
    let g = |r: int| model::slice_index(r, e, inner, p.left as int, d, st as int);
    let hit = |k: int| carry_places::holds(p, k / inner % e, d);
    let h = |k: int| (k / inner / e * d + carry_places::held(p, k / inner % e)) * inner + k % inner;
    let (fa, ff) = (|r: int| v(a.data[r]), |k: int| f(k));
    assert forall|r: int| 0 <= r < na implies 0 <= #[trigger] g(r) < nb && hit(g(r)) && h(g(r))
        == r by {
        carry_places::lemma_parts(s, ax, r);
        let (o, c, i) = (r / inner / d, r / inner % d, r % inner);
        carry_pad::lemma_spaced(p, c, s[ax]);
        let far = p.left + c * st;
        manipulate::lemma_cell(o, far, outer, e);
        manipulate::lemma_cell(o * e + far, i, outer * e, inner);
        assert(g(r) == (o * e + far) * inner + i) by {
            assert(o * e + p.left + c * st == o * e + far);
        }
        assert(g(r) / inner == o * e + far && g(r) % inner == i);
    }
    assert forall|k: int| 0 <= k < nb && #[trigger] hit(k) implies 0 <= h(k) < na && g(h(k))
        == k by {
        carry_places::lemma_pad_one(p, axis, a, b, k);
        carry_places::lemma_parts(out, ax, k);
        let (o, c, i) = (k / inner / e, k / inner % e, k % inner);
        let q = carry_places::held(p, c);
        carry_places::lemma_exact_quotient(c - p.left, st as int);
        manipulate::lemma_cell(o, q, outer, d);
        manipulate::lemma_cell(o * d + q, i, outer * d, inner);
        assert(o * e + p.left + q * st == o * e + c);
    }
    carry_places::lemma_sum_gather(fa, ff, g, hit, h, na, nb);
    let (f1, f2) = (
        |k: int| v(b.data[k]) * f(k),
        |k: int|
            if hit(k) {
                fa(h(k)) * ff(k)
            } else {
                0real
            },
    );
    assert forall|k: int| 0 <= k < nb implies #[trigger] f1(k) == f2(k) by {
        carry_places::lemma_pad_one(p, axis, a, b, k);
        exact::lemma_units(f(k), f(k));
    }
    sums::lemma_sum_same(f1, f2, nb);
    let (g1, g2) = (
        |r: int| fa(r) * ff(g(r)),
        |r: int|
            v(a.data[r]) * f(model::slice_index(r, e, inner, p.left as int, d, p.interior + 1)),
    );
    sums::lemma_sum_same(g1, g2, na);
}

// ---- scattering along all axes ----
/// The shape `t` with the first `d` axes as in `s`.
pub open spec fn mixed(t: Seq<usize>, s: Seq<usize>, d: int) -> Seq<usize> {
    Seq::new(
        s.len(),
        |i: int|
            if i < d {
                s[i]
            } else {
                t[i]
            },
    )
}

/// The coordinates of the element at offset `j` of the window of `c`, along the first `d` axes.
pub open spec fn windowed(stride: Seq<usize>, j: Seq<usize>, c: Seq<usize>, d: int) -> Seq<usize> {
    Seq::new(
        c.len(),
        |i: int|
            if i < d {
                (stride[i] * c[i] + j[i]) as usize
            } else {
                c[i]
            },
    )
}

/// Whether tensor number `d` is what scattering along the first `d` axes makes of the first one.
pub open spec fn scatters<S: Scalar>(
    t: Seq<usize>,
    s: Seq<usize>,
    stride: Seq<usize>,
    j: Seq<usize>,
    row: Seq<TensorV<S>>,
) -> bool {
    &&& row.len() == s.len() + 1
    &&& forall|d: int|
        0 <= d < s.len() ==> model::un_tensor(
            UnOpV::Pad(vjp::scatter_pad(t, s, stride, j, d)),
            row[d],
        ) == Ok::<TensorV<S>, Fault>(#[trigger] row[d + 1])
}

/// A coordinate of a scattered element.
proof fn lemma_reached(
    t: Seq<usize>,
    s: Seq<usize>,
    window: Seq<usize>,
    stride: Seq<usize>,
    j: Seq<usize>,
    d: int,
    c: int,
)
    requires
        vjp::unpool_ok(t, s, window, stride),
        shape::in_shape(j, window),
        window.len() == s.len(),
        0 <= d < s.len(),
        0 <= c < t[d],
    ensures
        stride[d] > 0,
        t[d] > 0,
        0 <= (t[d] - 1) * stride[d],
        j[d] + (t[d] - 1) * stride[d] + 1 <= s[d],
        0 <= stride[d] * c + j[d] < s[d],
        stride[d] * c == c * stride[d],
{
    vjp::lemma_scatter(t, s, window, stride, j, d);
    let (a, b) = (t[d] - 1, stride[d] as int);
    assert(0 <= b * c <= a * b && b * c == c * b) by (nonlinear_arith)
        requires
            0 <= c <= a,
            0 < b,
    ;
}

/// One scattering changes one axis.
proof fn lemma_scatter_shape<S: Scalar>(
    t: Seq<usize>,
    s: Seq<usize>,
    window: Seq<usize>,
    stride: Seq<usize>,
    j: Seq<usize>,
    d: int,
    a: TensorV<S>,
    b: TensorV<S>,
)
    requires
        vjp::unpool_ok(t, s, window, stride),
        shape::in_shape(j, window),
        window.len() == s.len(),
        t.len() == s.len(),
        stride.len() == s.len(),
        s.len() <= isize::MAX,
        0 <= d < s.len(),
        a.shape == mixed(t, s, d),
        model::un_tensor(UnOpV::Pad(vjp::scatter_pad(t, s, stride, j, d)), a) == Ok::<
            TensorV<S>,
            Fault,
        >(b),
    ensures
        b.shape == mixed(t, s, d + 1),
{
    let p = vjp::scatter_pad::<S>(t, s, stride, j, d);
    vjp::lemma_scatter(t, s, window, stride, j, d);
    let n = s.len() as int;
    let (q, st) = (t[d] - 1, stride[d] as int);
    assert(q * (st - 1) == q * st - q) by (nonlinear_arith);
    assert(model::padded_len(p, t[d]) == s[d]);
    assert forall|i: int| 0 <= i < n implies #[trigger] b.shape[i] == mixed(t, s, d + 1)[i] by {
        assert(p.axes[0] == d as isize);
        if i == d {
            assert(shape::norm_axis(p.axes[0] as int, n) == i);
            assert(model::names_axis(p.axes, n, i));
        } else {
            assert(!model::names_axis(p.axes, n, i));
        }
    }
    assert(b.shape =~= mixed(t, s, d + 1));
}

/// All tensors of a scattering have their shapes.
proof fn lemma_scatter_shapes<S: Scalar>(
    t: Seq<usize>,
    s: Seq<usize>,
    window: Seq<usize>,
    stride: Seq<usize>,
    j: Seq<usize>,
    row: Seq<TensorV<S>>,
    d: int,
)
    requires
        vjp::unpool_ok(t, s, window, stride),
        shape::in_shape(j, window),
        window.len() == s.len(),
        t.len() == s.len(),
        stride.len() == s.len(),
        s.len() <= isize::MAX,
        scatters(t, s, stride, j, row),
        0 <= d <= s.len(),
        row[0].shape == t,
        reals::full(row[0]),
    ensures
        row[d].shape == mixed(t, s, d),
        reals::full(row[d]),
    decreases d,
{
    if d == 0 {
        assert(mixed(t, s, 0) =~= t);
    } else {
        lemma_scatter_shapes(t, s, window, stride, j, row, d - 1);
        assert(row[(d - 1) + 1] == row[d]);
        lemma_scatter_shape(t, s, window, stride, j, d - 1, row[d - 1], row[d]);
    }
}

/// A sum over a scattered tensor is a sum over the tensor.
proof fn lemma_scattered<S: Scalar>(
    v: spec_fn(S) -> real,
    t: Seq<usize>,
    s: Seq<usize>,
    window: Seq<usize>,
    stride: Seq<usize>,
    j: Seq<usize>,
    row: Seq<TensorV<S>>,
    d: int,
    f: spec_fn(int) -> real,
)
    requires
        exact::exact(v),
        vjp::unpool_ok(t, s, window, stride),
        shape::in_shape(j, window),
        window.len() == s.len(),
        t.len() == s.len(),
        stride.len() == s.len(),
        s.len() <= isize::MAX,
        scatters(t, s, stride, j, row),
        0 <= d <= s.len(),
        row[0].shape == t,
        reals::full(row[0]),
    ensures
        sums::sum(|k: int| v(row[d].data[k]) * f(k), row[d].data.len()) == sums::sum(
            |r: int|
                v(row[0].data[r]) * f(
                    shape::ravel(windowed(stride, j, shape::unravel(r, t), d), mixed(t, s, d)),
                ),
            row[0].data.len(),
        ),
    decreases d,
{
    let m = row[0];
    let nm = m.data.len();
    if d == 0 {
        let (f1, f2) = (
            |k: int| v(m.data[k]) * f(k),
            |r: int|
                v(m.data[r]) * f(
                    shape::ravel(windowed(stride, j, shape::unravel(r, t), 0), mixed(t, s, 0)),
                ),
        );
        assert forall|r: int| 0 <= r < nm implies #[trigger] f1(r) == f2(r) by {
            shape::lemma_unravel_ravel(r, t);
            assert(windowed(stride, j, shape::unravel(r, t), 0) =~= shape::unravel(r, t));
            assert(mixed(t, s, 0) =~= t);
        }
        sums::lemma_sum_same(f1, f2, nm);
    } else {
        let c = d - 1;
        let (a, b) = (row[c], row[d]);
        assert(row[c + 1] == b);
        lemma_scatter_shapes(t, s, window, stride, j, row, c);
        lemma_scatter_shapes(t, s, window, stride, j, row, d);
        let p = vjp::scatter_pad::<S>(t, s, stride, j, c);
        exact::lemma_numbers(v);
        lemma_pad_adjoint(v, p, c as isize, a, b, f);
        let (from, to) = (mixed(t, s, c), mixed(t, s, d));
        let inner = model::inner_size(from, c) as int;
        let (len, e, st) = (from[c] as int, to[c] as int, p.interior + 1);
        let g = |r: int| model::slice_index(r, e, inner, p.left as int, len, st as int);
        let next = |r: int| f(g(r));
        lemma_scattered(v, t, s, window, stride, j, row, c, next);
        let (h1, h2) = (
            |r: int|
                v(a.data[r]) * f(
                    model::slice_index(r, e, inner, p.left as int, len, p.interior + 1),
                ),
            |k: int| v(row[c].data[k]) * next(k),
        );
        sums::lemma_sum_same(h1, h2, a.data.len());
        let (f1, f2) = (
            |r: int|
                v(m.data[r]) * next(
                    shape::ravel(windowed(stride, j, shape::unravel(r, t), c), mixed(t, s, c)),
                ),
            |r: int|
                v(m.data[r]) * f(
                    shape::ravel(windowed(stride, j, shape::unravel(r, t), d), mixed(t, s, d)),
                ),
        );
        assert forall|r: int| 0 <= r < nm implies #[trigger] f1(r) == f2(r) by {
            let u = shape::unravel(r, t);
            shape::lemma_unravel_ravel(r, t);
            let z = windowed(stride, j, u, c);
            assert(shape::in_shape(z, from)) by {
                assert forall|i: int| 0 <= i < from.len() implies #[trigger] z[i] < from[i] by {
                    assert(u[i] < t[i]);
                    if i < c {
                        lemma_reached(t, s, window, stride, j, i, u[i] as int);
                    }
                }
            }
            shape::lemma_ravel_unravel(z, from);
            let q = shape::ravel(z, from);
            carry_places::lemma_parts(from, c, q);
            let (o, y, i) = (q / inner / len, q / inner % len, q % inner);
            assert(u[c] < t[c]);
            lemma_reached(t, s, window, stride, j, c, u[c] as int);
            carry_places::lemma_axis(from, c, o, y, i, from[c], y as usize);
            assert(y == z[c] && z[c] == u[c]);
            let far = (stride[c] * u[c] + j[c]) as usize;
            carry_places::lemma_axis(from, c, o, y, i, s[c], far);
            assert(from.update(c, s[c]) =~= to);
            assert(z.update(c, far) =~= windowed(stride, j, u, d));
            assert(st == stride[c]);
            assert(o * e + p.left + y * st == o * e + far);
        }
        sums::lemma_sum_same(f1, f2, nm);
    }
}

// ---- the program ----
/// The steps for more window offsets go on from those for fewer.
proof fn lemma_prefix<S: Scalar>(
    t: Seq<usize>,
    s: Seq<usize>,
    window: Seq<usize>,
    stride: Seq<usize>,
    scale: S,
    k: nat,
    m: nat,
)
    requires
        k <= m,
    ensures
        ({
            let (few, many) = (
                vjp::unpool_steps(t, s, window, stride, scale, k),
                vjp::unpool_steps(t, s, window, stride, scale, m),
            );
            &&& few.len() <= many.len()
            &&& forall|i: int| 0 <= i < few.len() ==> #[trigger] many[i] == few[i]
        }),
    decreases m,
{
    if k < m {
        lemma_prefix(t, s, window, stride, scale, k, (m - 1) as nat);
    }
}

/// The number of steps for `k` window offsets.
proof fn lemma_length<S: Scalar>(
    t: Seq<usize>,
    s: Seq<usize>,
    window: Seq<usize>,
    stride: Seq<usize>,
    scale: S,
    k: nat,
)
    ensures
        0 < vjp::unpool_steps(t, s, window, stride, scale, k).len() <= 1 + k * (s.len() + 2),
    decreases k,
{
    if k > 0 {
        let b = (k - 1) as nat;
        lemma_length(t, s, window, stride, scale, b);
        let c = s.len() + 2;
        assert(k * c == b * c + c) by (nonlinear_arith)
            requires
                k == b + 1,
        ;
    } else {
        assert(0 * (s.len() + 2) == 0) by (nonlinear_arith);
    }
}

/// What the steps for one window offset compute.
proof fn lemma_offset<S: Scalar>(
    t: Seq<usize>,
    s: Seq<usize>,
    window: Seq<usize>,
    stride: Seq<usize>,
    scale: S,
    j: nat,
    steps: Seq<StepV<S>>,
    inputs: Seq<TensorV<S>>,
    all: Seq<TensorV<S>>,
)
    requires
        all.len() == steps.len() <= usize::MAX,
        pairing::performed(steps, inputs, all),
        ({
            let part = vjp::unpool_steps(t, s, window, stride, scale, j + 1);
            &&& part.len() <= steps.len()
            &&& forall|i: int| 0 <= i < part.len() ==> #[trigger] steps[i] == part[i]
        }),
    ensures
        ({
            let n0 = vjp::unpool_steps(t, s, window, stride, scale, j).len() as int;
            let n = s.len() as int;
            let end = vjp::unpool_steps(t, s, window, stride, scale, j + 1).len() as int;
            &&& 0 < n0
            &&& n0 + n < steps.len()
            &&& model::bin_tensor(BinOpV::Mul, inputs[0], all[0]) == Ok::<TensorV<S>, Fault>(
                all[n0],
            )
            &&& scatters(t, s, stride, shape::unravel(j as int, window), all.subrange(n0, n0 + n + 1))
            &&& j == 0 ==> end == n0 + n + 1
            &&& j > 0 ==> end == n0 + n + 2 && n0 + n + 1 < steps.len() && model::bin_tensor(
                BinOpV::Add,
                all[n0 - 1],
                all[n0 + n],
            ) == Ok::<TensorV<S>, Fault>(all[n0 + n + 1])
        }),
{
    let before = vjp::unpool_steps(t, s, window, stride, scale, j);
    let part = vjp::unpool_steps(t, s, window, stride, scale, j + 1);
    let n0 = before.len() as int;
    let n = s.len() as int;
    let more = vjp::scatter_steps::<S>(t, s, window, stride, j as int, before.len());
    lemma_length(t, s, window, stride, scale, j);
    assert(part == before + more);
    assert(more.len() >= n + 1);
    let jv = shape::unravel(j as int, window);
    let row = all.subrange(n0, n0 + n + 1);
    assert(part[n0] == more[0]);
    assert(steps[n0] == StepV::<S>::Bin(BinOpV::Mul, Reg::In(0), Reg::Out(0)));
    pairing::lemma_bin_step(steps, inputs, all, n0, BinOpV::Mul, Reg::In(0), Reg::Out(0));
    assert forall|d: int| 0 <= d < s.len() implies model::un_tensor(
        UnOpV::Pad(vjp::scatter_pad(t, s, stride, jv, d)),
        row[d],
    ) == Ok::<TensorV<S>, Fault>(#[trigger] row[d + 1]) by {
        let op = UnOpV::Pad(vjp::scatter_pad::<S>(t, s, stride, jv, d));
        let a = Reg::Out((n0 + d) as usize);
        assert(more[d + 1] == StepV::Un(op, a));
        assert(part[n0 + d + 1] == more[d + 1]);
        pairing::lemma_un_step(steps, inputs, all, n0 + d + 1, op, a);
    }
    if j > 0 {
        let (a, b) = (Reg::Out((n0 - 1) as usize), Reg::Out((n0 + n) as usize));
        assert(more[n + 1] == StepV::<S>::Bin(BinOpV::Add, a, b));
        assert(part[n0 + n + 1] == more[n + 1]);
        pairing::lemma_bin_step(steps, inputs, all, n0 + n + 1, BinOpV::Add, a, b);
    }
}

/// The element that offset `j` of the window at place `r` stands for.
pub open spec fn source(
    t: Seq<usize>,
    s: Seq<usize>,
    window: Seq<usize>,
    stride: Seq<usize>,
    r: int,
    j: int,
) -> int {
    shape::ravel(model::window_coordinates(window, stride, t, r, j), s)
}

/// What the scattered weights of one window offset make of a tensor.
pub open spec fn offset_sum(
    fw: spec_fn(int) -> real,
    c: real,
    f: spec_fn(int) -> real,
    t: Seq<usize>,
    s: Seq<usize>,
    window: Seq<usize>,
    stride: Seq<usize>,
    j: int,
) -> real {
    sums::sum(
        |r: int| (fw(r) * c) * f(source(t, s, window, stride, r, j)),
        shape::product(t),
    )
}

/// The scattered weights of one window offset.
proof fn lemma_scattered_offset<S: Scalar>(
    v: spec_fn(S) -> real,
    t: Seq<usize>,
    s: Seq<usize>,
    window: Seq<usize>,
    stride: Seq<usize>,
    j: int,
    w: TensorV<S>,
    c: TensorV<S>,
    row: Seq<TensorV<S>>,
    f: spec_fn(int) -> real,
)
    requires
        exact::exact(v),
        vjp::unpool_ok(t, s, window, stride),
        0 <= j < shape::product(window),
        window.len() == s.len(),
        t.len() == s.len(),
        stride.len() == s.len(),
        s.len() <= isize::MAX,
        pairing::sizable(w),
        w.shape == t,
        pairing::is_scalar(c),
        scatters(t, s, stride, shape::unravel(j, window), row),
        model::bin_tensor(BinOpV::Mul, w, c) == Ok::<TensorV<S>, Fault>(row[0]),
    ensures
        row[s.len() as int].shape == s,
        reals::full(row[s.len() as int]),
        sums::sum(
            |k: int| v(row[s.len() as int].data[k]) * f(k),
            row[s.len() as int].data.len(),
        ) == offset_sum(|r: int| v(w.data[r]), v(c.data[0]), f, t, s, window, stride, j),
{
    let n = s.len() as int;
    let jv = shape::unravel(j, window);
    shape::lemma_unravel_ravel(j, window);
    pairing::lemma_mul_number(v, w, c, row[0]);
    lemma_scatter_shapes(t, s, window, stride, jv, row, n);
    assert(mixed(t, s, n) =~= s);
    lemma_scattered(v, t, s, window, stride, jv, row, n, f);
    let fw = |r: int| v(w.data[r]);
    let (f1, f2) = (
        |r: int|
            v(row[0].data[r]) * f(
                shape::ravel(windowed(stride, jv, shape::unravel(r, t), n), mixed(t, s, n)),
            ),
        |r: int| (fw(r) * v(c.data[0])) * f(source(t, s, window, stride, r, j)),
    );
    assert forall|r: int| 0 <= r < shape::product(t) implies #[trigger] f1(r) == f2(r) by {
        shape::lemma_unravel_ravel(r, t);
        assert(windowed(stride, jv, shape::unravel(r, t), n) =~= model::window_coordinates(
            window,
            stride,
            t,
            r,
            j,
        ));
    }
    sums::lemma_sum_same(f1, f2, shape::product(t));
}

/// What the steps for the first `k` window offsets make of a tensor.
proof fn lemma_unpooled<S: Scalar>(
    v: spec_fn(S) -> real,
    t: Seq<usize>,
    s: Seq<usize>,
    window: Seq<usize>,
    stride: Seq<usize>,
    scale: S,
    k: nat,
    steps: Seq<StepV<S>>,
    inputs: Seq<TensorV<S>>,
    all: Seq<TensorV<S>>,
    f: spec_fn(int) -> real,
)
    requires
        exact::exact(v),
        vjp::unpool_ok(t, s, window, stride),
        0 < k <= shape::product(window),
        window.len() == s.len(),
        t.len() == s.len(),
        stride.len() == s.len(),
        s.len() <= isize::MAX,
        pairing::sizable(inputs[0]),
        inputs[0].shape == t,
        all.len() == steps.len() <= usize::MAX,
        pairing::performed(steps, inputs, all),
        all[0] == model::scalar_tensor(scale),
        ({
            let part = vjp::unpool_steps(t, s, window, stride, scale, k);
            &&& part.len() <= steps.len()
            &&& forall|i: int| 0 <= i < part.len() ==> #[trigger] steps[i] == part[i]
        }),
    ensures
        ({
            let end = vjp::unpool_steps(t, s, window, stride, scale, k).len() as int;
            let r = all[end - 1];
            &&& 0 < end <= all.len()
            &&& r.shape == s
            &&& reals::full(r)
            &&& sums::sum(|i: int| v(r.data[i]) * f(i), r.data.len()) == sums::sum(
                |j: int|
                    offset_sum(
                        |q: int| v(inputs[0].data[q]),
                        v(scale),
                        f,
                        t,
                        s,
                        window,
                        stride,
                        j,
                    ),
                k,
            )
        }),
    decreases k,
{
    let j = (k - 1) as nat;
    let n = s.len() as int;
    let n0 = vjp::unpool_steps(t, s, window, stride, scale, j).len() as int;
    lemma_offset(t, s, window, stride, scale, j, steps, inputs, all);
    let row = all.subrange(n0, n0 + n + 1);
    let w = inputs[0];
    let c = all[0];
    assert(row[0] == all[n0] && row[n] == all[n0 + n]);
    lemma_scattered_offset(v, t, s, window, stride, j as int, w, c, row, f);
    let fw = |q: int| v(w.data[q]);
    let each = |i: int| offset_sum(fw, v(scale), f, t, s, window, stride, i);
    let part = row[n];
    if j == 0 {
        assert(sums::sum(each, 1) == each(0)) by {
            assert(sums::sum(each, 0) == 0real);
        }
    } else {
        lemma_prefix(t, s, window, stride, scale, j, k);
        lemma_unpooled(v, t, s, window, stride, scale, j, steps, inputs, all, f);
        let (before, r) = (all[n0 - 1], all[n0 + n + 1]);
        pairing::lemma_add_same(v, before, part, r);
        let (f1, f2, f3) = (
            |i: int| v(before.data[i]) * f(i),
            |i: int| v(part.data[i]) * f(i),
            |i: int| v(r.data[i]) * f(i),
        );
        assert forall|i: int| 0 <= i < r.data.len() implies #[trigger] f3(i) == f1(i) + f2(i) by {
            let (a, b, e) = (v(before.data[i]), v(part.data[i]), f(i));
            assert((a + b) * e == a * e + b * e) by (nonlinear_arith);
        }
        sums::lemma_sum_plus(f1, f2, f3, r.data.len());
    }
}

/// Whether the program of a pooling over windows of these lengths has a place for each window
/// offset and can be counted.
pub open spec fn windows_count(window: Seq<usize>) -> bool {
    &&& forall|d: int| 0 <= d < window.len() ==> #[trigger] window[d] > 0
    &&& 3 + shape::product(window) * (window.len() + 2) <= usize::MAX
}

/// The value of a pooled element.
proof fn lemma_pooled<S: Scalar>(
    v: spec_fn(S) -> real,
    window: Seq<usize>,
    stride: Seq<usize>,
    average: bool,
    x: TensorV<S>,
    y: TensorV<S>,
    r: int,
)
    requires
        exact::exact(v),
        windows_count(window),
        0 < shape::product(window),
        model::un_tensor(UnOpV::Pool(window, stride, average), x) == Ok::<TensorV<S>, Fault>(y),
        0 <= r < y.data.len(),
    ensures
        v(y.data[r]) == v(vjp::pool_scale::<S>(window, average)) * sums::sum(
            |j: int| v(x.data[source(y.shape, x.shape, window, stride, r, j)]),
            shape::product(window),
        ),
{
    let total = shape::product(window);
    reals::lemma_window_sum(v, x, window, stride, y.shape, r, total);
    let sum = model::window_sum(x, window, stride, y.shape, r, total);
    let f1 = |j: int| v(x.data[source(y.shape, x.shape, window, stride, r, j)]);
    let f2 = |j: int|
        v(
            x.data[shape::ravel(
                model::window_coordinates(window, stride, y.shape, r, j),
                x.shape,
            )],
        );
    sums::lemma_sum_same(f1, f2, total);
    exact::lemma_numbers(v);
    let scale = vjp::pool_scale::<S>(window, average);
    if average {
        let d = scalar::num::<S>(total as int);
        let (a, b, c, e) = (v(scale), v(d), v(sum), v(y.data[r]));
        assert(v(S::ratio(total as int, 1)) * (1int as real) == total as int as real);
        exact::lemma_units(b, b);
        assert(b > 0real);
        assert(a * b == 1real && e * b == c);
        assert(e == a * c) by (nonlinear_arith)
            requires
                a * b == 1real,
                e * b == c,
        ;
    } else {
        exact::lemma_units(v(sum), v(sum));
    }
}

/// The program of a pooling carries weights.
#[verifier::rlimit(40)]
pub proof fn lemma_pool_carries<S: Scalar>(
    v: spec_fn(S) -> real,
    window: Seq<usize>,
    stride: Seq<usize>,
    average: bool,
    x: TensorV<S>,
    y: TensorV<S>,
    rule: RuleV<S>,
    inputs: Seq<TensorV<S>>,
    parts: Seq<TensorV<S>>,
)
    requires
        exact::exact(v),
        windows_count(window),
        inputs.len() == 1,
        support::weighable(inputs[0]),
        support::weighable(x),
        model::un_tensor(UnOpV::Pool(window, stride, average), x) == Ok::<TensorV<S>, Fault>(y),
        inputs[0].shape == y.shape,
        vjp::pool_rule::<S>(y.shape, x.shape, window, stride, average) == Ok::<RuleV<S>, Fault>(
            rule,
        ),
        vjp::applied::<S, Tensor<S>>((), crown::without_bias(Ok(rule))->Ok_0, inputs).1 == Ok::<
            Seq<TensorV<S>>,
            Fault,
        >(parts),
    ensures
        support::carries(v, parts, seq![x], inputs[0], y),
{
    let w = inputs[0];
    let (s, t) = (x.shape, y.shape);
    let total = shape::product(window);
    let scale = vjp::pool_scale::<S>(window, average);
    carry_products::lemma_dense_positive(window);
    assert(forall|d: int| 0 <= d < window.len() ==> #[trigger] window[d] != 0);
    let few = vjp::unpool_steps(t, s, window, stride, scale, total);
    assert(rule == vjp::single(few));
    lemma_length(t, s, window, stride, scale, total);
    let all = carry_moves::lemma_unbiased(rule, inputs, parts);
    let steps = few.push(vjp::load_number(scalar::zero::<S>()));
    lemma_prefix(t, s, window, stride, scale, 0, total);
    let first = vjp::unpool_steps(t, s, window, stride, scale, 0);
    assert(first[0] == vjp::load_number(scale));
    assert(steps[0] == vjp::load_number(scale));
    pairing::lemma_load_step(steps, inputs, all, 0, model::scalar_tensor(scale));
    let f = |i: int| v(x.data[i]);
    carry::lemma_step(steps, inputs, all, 0);
    lemma_unpooled(v, t, s, window, stride, scale, total, steps, inputs, all, f);
    let p = parts[0];
    assert(p == all[few.len() - 1]);
    // both sides are one sum
    let fw = |q: int| v(w.data[q]);
    let both = |r: int, j: int| (fw(r) * v(scale)) * f(source(t, s, window, stride, r, j));
    let nt = shape::product(t);
    let rows = |r: int| sums::sum(|j: int| both(r, j), total);
    let columns = |j: int| sums::sum(|r: int| both(r, j), nt);
    sums::lemma_sum_swap(both, nt, total);
    let offsets = |j: int| offset_sum(fw, v(scale), f, t, s, window, stride, j);
    assert forall|j: int| 0 <= j < total implies #[trigger] columns(j) == offsets(j) by {
        let (h1, h2) = (
            |r: int| both(r, j),
            |r: int| (fw(r) * v(scale)) * f(source(t, s, window, stride, r, j)),
        );
        sums::lemma_sum_same(h1, h2, nt);
    }
    sums::lemma_sum_same(columns, offsets, total);
    let whole = |r: int| v(w.data[r]) * v(y.data[r]);
    assert forall|r: int| 0 <= r < nt implies #[trigger] whole(r) == rows(r) by {
        lemma_pooled(v, window, stride, average, x, y, r);
        let (h1, h2, h3) = (
            |j: int| v(x.data[source(t, s, window, stride, r, j)]),
            |j: int| both(r, j),
            |j: int| f(source(t, s, window, stride, r, j)),
        );
        sums::lemma_sum_same(h1, h3, total);
        sums::lemma_sum_scale(fw(r) * v(scale), h3, h2, total);
        exact::lemma_regroup(fw(r), v(scale), sums::sum(h3, total));
    }
    sums::lemma_sum_same(whole, rows, nt);
    let (g1, g2) = (|i: int| v(p.data[i]) * f(i), |i: int| v(p.data[i]) * v(x.data[i]));
    sums::lemma_sum_same(g1, g2, p.data.len());
    pairing::lemma_same_shape(s);
    pairing::lemma_spread_same(v, p, x);
    carry_moves::lemma_one(v, parts, x, w, y);
}

} // verus!
