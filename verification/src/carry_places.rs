//! The programs of operations that pick or scatter elements carry the weights of their results to
//! their operands.

use vstd::prelude::*;
use crate::carry_moves;
use crate::containment;
use crate::crown;
use crate::exact;
use crate::manipulate;
use crate::model;
use crate::model::{Fault, PadV, TensorV, UnOpV};
use crate::pairing;
use crate::reals;
use crate::scalar::Scalar;
use crate::shape;
use crate::sums;
use crate::support;
use crate::tensor::Tensor;
use crate::value::{Reg, StepV};
use crate::vjp;

verus! {

/// A sum over picked elements, as a sum over all elements: place `r` picks element `g(r)`; where
/// `hit(k)`, element `k` is the one that place `h(k)` picks.
pub proof fn lemma_sum_gather(
    f: spec_fn(int) -> real,
    x: spec_fn(int) -> real,
    g: spec_fn(int) -> int,
    hit: spec_fn(int) -> bool,
    h: spec_fn(int) -> int,
    m: nat,
    n: nat,
)
    requires
        forall|r: int|
            0 <= r < m ==> 0 <= #[trigger] g(r) < n && hit(g(r)) && h(g(r)) == r,
        forall|k: int| 0 <= k < n && #[trigger] hit(k) ==> 0 <= h(k) < m && g(h(k)) == k,
    ensures
        sums::sum(
            |k: int|
                if hit(k) {
                    f(h(k)) * x(k)
                } else {
                    0real
                },
            n,
        ) == sums::sum(|r: int| f(r) * x(g(r)), m),
{
    let d = |r: int, k: int|
        if g(r) == k {
            f(r) * x(k)
        } else {
            0real
        };
    sums::lemma_sum_swap(d, m, n);
    let (a, b) = (|r: int| f(r) * x(g(r)), |r: int| sums::sum(|k: int| d(r, k), n));
    assert forall|r: int| 0 <= r < m implies #[trigger] a(r) == b(r) by {
        let e = |k: int| d(r, k);
        assert(0 <= g(r) < n);
        sums::lemma_sum_one(e, n, g(r));
    }
    sums::lemma_sum_same(a, b, m);
    let (p, q) = (
        |k: int|
            if hit(k) {
                f(h(k)) * x(k)
            } else {
                0real
            },
        |k: int| sums::sum(|r: int| d(r, k), m),
    );
    assert forall|k: int| 0 <= k < n implies #[trigger] p(k) == q(k) by {
        let e = |r: int| d(r, k);
        if hit(k) {
            assert forall|r: int| 0 <= r < m && r != h(k) implies #[trigger] e(r) == 0real by {
                assert(h(g(r)) == r);
            }
            sums::lemma_sum_one(e, m, h(k));
        } else {
            assert forall|r: int| 0 <= r < m implies #[trigger] e(r) == 0real by {
                assert(hit(g(r)));
            }
            sums::lemma_sum_zero(e, m);
        }
    }
    sums::lemma_sum_same(p, q, n);
}

// ---- moving an axis ----
/// Blocks that change places twice are back.
pub proof fn lemma_swapped_back(r: int, o: int, p: int, q: int, inner: int)
    requires
        0 <= r < o * p * q * inner,
        0 <= o,
        0 <= p,
        0 <= q,
        0 <= inner,
    ensures
        0 <= model::swapped_index(r, p, q, inner) < o * p * q * inner,
        model::swapped_index(model::swapped_index(r, p, q, inner), q, p, inner) == r,
{
    let w = o * p * q;
    manipulate::lemma_row(r, w, inner);
    let x = r / inner;
    assert(o * p * q == (o * q) * p) by (nonlinear_arith);
    manipulate::lemma_row(x, o * q, p);
    let y = x / p;
    manipulate::lemma_row(y, o, q);
    let (i, b, c, oo) = (r % inner, x % p, y % q, y / q);
    manipulate::lemma_cell(oo, b, o, p);
    manipulate::lemma_cell(oo * p + b, c, o * p, q);
    manipulate::lemma_cell((oo * p + b) * q + c, i, w, inner);
    manipulate::lemma_cell(oo, c, o, q);
}

/// The blocks of a shape with a moved axis.
pub proof fn lemma_moved_blocks(s: Seq<usize>, a: int, b: int)
    requires
        0 <= a < s.len(),
        0 <= b < s.len(),
        a != b,
    ensures
        ({
            let t = model::moved(s, a, b);
            &&& model::moved(t, b, a) == s
            &&& model::first_block(t, b, a) == model::second_block(s, a, b)
            &&& model::second_block(t, b, a) == model::first_block(s, a, b)
            &&& model::behind_blocks(t, b, a) == model::behind_blocks(s, a, b)
        }),
{
    let t = model::moved(s, a, b);
    assert(model::moved(t, b, a) =~= s);
    if a < b {
        assert(t.subrange(a, b) =~= s.subrange(a + 1, b + 1));
        assert(t.subrange(b + 1, t.len() as int) =~= s.subrange(b + 1, s.len() as int));
    } else {
        assert(t.subrange(b + 1, a + 1) =~= s.subrange(b, a));
        assert(t.subrange(a + 1, t.len() as int) =~= s.subrange(a + 1, s.len() as int));
    }
}

/// An axis that stays where it is.
pub proof fn lemma_unmoved(r: int, p: int, inner: int)
    requires
        0 <= r,
        0 < p,
        0 < inner,
    ensures
        model::swapped_index(r, p, 1, inner) == r,
{
    let x = r / inner;
    let y = x / p;
    assert(y % 1 == 0 && y / 1 == y) by (nonlinear_arith);
    assert(r == x * inner + r % inner && x == y * p + x % p) by (nonlinear_arith)
        requires
            x == r / inner,
            y == x / p,
            0 < inner,
            0 < p,
    ;
    assert((y * p + x % p) * 1 + 0 == y * p + x % p) by (nonlinear_arith);
}

/// The program of a move of an axis carries weights.
#[verifier::spinoff_prover]
#[verifier::rlimit(50)]
pub proof fn lemma_move_carries<S: Scalar>(
    v: spec_fn(S) -> real,
    from: isize,
    to: isize,
    x: TensorV<S>,
    y: TensorV<S>,
    inputs: Seq<TensorV<S>>,
    parts: Seq<TensorV<S>>,
)
    requires
        exact::exact(v),
        inputs.len() == 1,
        support::weighable(inputs[0]),
        support::weighable(x),
        model::un_tensor(UnOpV::MoveAxis(from, to), x) == Ok::<TensorV<S>, Fault>(y),
        inputs[0].shape == y.shape,
        vjp::applied::<S, Tensor<S>>(
            (),
            crown::without_bias(
                Ok(vjp::single(seq![StepV::Un(UnOpV::MoveAxis(to, from), Reg::In(0))])),
            )->Ok_0,
            inputs,
        ).1 == Ok::<Seq<TensorV<S>>, Fault>(parts),
    ensures
        support::carries(v, parts, seq![x], inputs[0], y),
{
    let w = inputs[0];
    carry_moves::lemma_single_op(UnOpV::MoveAxis(to, from), inputs, parts);
    let s = x.shape;
    let n = s.len() as int;
    let (a, b) = (shape::norm_axis(from as int, n), shape::norm_axis(to as int, n));
    let p = parts[0];
    manipulate::lemma_moved(s, a, b);
    let low = if a <= b {
        a
    } else {
        b
    };
    let (o, bp, bq, inner) = (
        shape::product(s.subrange(0, low)) as int,
        model::first_block(s, a, b) as int,
        model::second_block(s, a, b) as int,
        model::behind_blocks(s, a, b) as int,
    );
    let all = shape::product(s);
    let g = |r: int| model::swapped_index(r, bp, bq, inner);
    let h = |k: int| model::swapped_index(k, bq, bp, inner);
    assert(o * bq * bp * inner == o * bp * bq * inner) by (nonlinear_arith);
    if a == b {
        assert(model::moved(s, a, b) =~= s);
        assert(s.subrange(a + 1, b + 1) =~= Seq::<usize>::empty());
        assert forall|k: int| 0 <= k < all implies p.data[k] == #[trigger] w.data[k] && y.data[k]
            == x.data[k] by {
            manipulate::lemma_swapped(k, o, bp, bq, inner);
            lemma_unmoved(k, bp, inner);
        }
        pairing::lemma_same_shape(s);
        pairing::lemma_spread_same(v, p, x);
        let (f1, f2) = (
            |k: int| v(p.data[k]) * v(x.data[k]),
            |k: int| v(w.data[k]) * v(y.data[k]),
        );
        assert forall|k: int| 0 <= k < all implies #[trigger] f1(k) == f2(k) by {
            assert(p.data[k] == w.data[k]);
        }
        sums::lemma_sum_same(f1, f2, all);
    } else {
        lemma_moved_blocks(s, a, b);
        assert forall|r: int| 0 <= r < all implies 0 <= #[trigger] g(r) < all && h(g(r)) == r by {
            lemma_swapped_back(r, o, bp, bq, inner);
        }
        assert forall|k: int| 0 <= k < all implies 0 <= #[trigger] h(k) < all && g(h(k)) == k by {
            lemma_swapped_back(k, o, bq, bp, inner);
        }
        let hit = |k: int| true;
        let (fw, fx) = (|r: int| v(w.data[r]), |k: int| v(x.data[k]));
        assert forall|k: int| 0 <= k < all && #[trigger] hit(k) implies 0 <= h(k) < all && g(h(k))
            == k by {}
        lemma_sum_gather(fw, fx, g, hit, h, all, all);
        pairing::lemma_same_shape(s);
        pairing::lemma_spread_same(v, p, x);
        let (f1, f2) = (
            |k: int| v(p.data[k]) * v(x.data[k]),
            |k: int|
                if hit(k) {
                    fw(h(k)) * fx(k)
                } else {
                    0real
                },
        );
        assert forall|k: int| 0 <= k < all implies #[trigger] f1(k) == f2(k) by {
            assert(p.data[k] == w.data[h(k)]);
        }
        sums::lemma_sum_same(f1, f2, all);
        let (g1, g2) = (|r: int| fw(r) * fx(g(r)), |r: int| v(w.data[r]) * v(y.data[r]));
        assert forall|r: int| 0 <= r < all implies #[trigger] g1(r) == g2(r) by {
            assert(y.data[r] == x.data[g(r)]);
        }
        sums::lemma_sum_same(g1, g2, all);
    }
    carry_moves::lemma_one(v, parts, x, w, y);
}

// ---- coordinates along one axis ----
/// The coordinate along one axis, and what changing it does to the flat index.
pub proof fn lemma_axis(s: Seq<usize>, ax: int, o: int, j: int, i: int, d2: usize, j2: usize)
    requires
        0 <= ax < s.len(),
        0 <= o < model::outer_size(s, ax),
        0 <= j < s[ax],
        0 <= i < model::inner_size(s, ax),
        j2 < d2,
    ensures
        ({
            let inner = model::inner_size(s, ax) as int;
            let k = (o * s[ax] + j) * inner + i;
            &&& 0 <= k < shape::product(s)
            &&& shape::in_shape(shape::unravel(k, s), s)
            &&& shape::unravel(k, s)[ax] == j
            &&& shape::ravel(shape::unravel(k, s).update(ax, j2), s.update(ax, d2)) == (o * d2
                + j2) * inner + i
        }),
    decreases s.len(),
{
    let inner = model::inner_size(s, ax) as int;
    let outer = model::outer_size(s, ax) as int;
    let d = s[ax] as int;
    let k = (o * d + j) * inner + i;
    manipulate::lemma_remove(s, ax);
    manipulate::lemma_cell(o, j, outer, d);
    manipulate::lemma_cell(o * d + j, i, outer * d, inner);
    shape::lemma_unravel_ravel(k, s);
    let t = s.drop_last();
    let m = shape::unravel(k, s);
    if ax == s.len() - 1 {
        assert(s.subrange(ax + 1, s.len() as int) =~= Seq::<usize>::empty());
        assert(inner == 1 && i == 0);
        assert((o * d + j) * inner == o * d + j) by (nonlinear_arith)
            requires
                inner == 1,
        ;
        assert(t =~= s.subrange(0, ax));
        assert(k / d == o && k % d == j);
        shape::lemma_unravel_ravel(o, t);
        assert(m.update(ax, j2).drop_last() =~= shape::unravel(o, t));
        assert(s.update(ax, d2).drop_last() =~= t);
        assert((o * d2 + j2) * inner == o * d2 + j2) by (nonlinear_arith)
            requires
                inner == 1,
        ;
    } else {
        let e = s.last() as int;
        let inside = model::inner_size(t, ax) as int;
        assert(s.subrange(ax + 1, s.len() as int).drop_last() =~= t.subrange(
            ax + 1,
            t.len() as int,
        ));
        assert(inner == inside * e);
        assert(s.subrange(0, ax) =~= t.subrange(0, ax));
        manipulate::lemma_row(i, inside, e);
        let (i1, c) = (i / e, i % e);
        let k1 = (o * d + j) * inside + i1;
        assert(k == k1 * e + c) by (nonlinear_arith)
            requires
                k == (o * d + j) * (inside * e) + (i1 * e + c),
                k1 == (o * d + j) * inside + i1,
        ;
        lemma_axis(t, ax, o, j, i1, d2, j2);
        manipulate::lemma_cell(k1, c, shape::product(t) as int, e);
        assert(k / e == k1 && k % e == c);
        let m1 = shape::unravel(k1, t);
        assert(m == m1.push(c as usize));
        assert(m.update(ax, j2).drop_last() =~= m1.update(ax, j2));
        assert(s.update(ax, d2).drop_last() =~= t.update(ax, d2));
        let r1 = (o * d2 + j2) * inside + i1;
        assert(r1 * e + c == (o * d2 + j2) * (inside * e) + (i1 * e + c)) by (nonlinear_arith)
            requires
                r1 == (o * d2 + j2) * inside + i1,
        ;
    }
}

/// The parts of a flat index along one axis.
pub proof fn lemma_parts(s: Seq<usize>, ax: int, k: int)
    requires
        0 <= ax < s.len(),
        0 <= k < shape::product(s),
    ensures
        ({
            let (d, inner) = (s[ax] as int, model::inner_size(s, ax) as int);
            let (o, j, i) = (k / inner / d, k / inner % d, k % inner);
            &&& inner > 0
            &&& d > 0
            &&& 0 <= o < model::outer_size(s, ax)
            &&& 0 <= j < d
            &&& 0 <= i < inner
            &&& k == (o * d + j) * inner + i
        }),
{
    let (d, inner, outer) = (
        s[ax] as int,
        model::inner_size(s, ax) as int,
        model::outer_size(s, ax) as int,
    );
    manipulate::lemma_remove(s, ax);
    manipulate::lemma_row(k, outer * d, inner);
    manipulate::lemma_row(k / inner, outer, d);
}

/// Whether coordinate `c` of a padded axis holds a coordinate of the axis of length `d`.
pub open spec fn holds<S>(p: PadV<S>, c: int, d: int) -> bool {
    c >= p.left && (c - p.left) % (p.interior + 1) == 0 && (c - p.left) / (p.interior + 1) < d
}

/// The coordinate of the axis that coordinate `c` of the padded axis holds.
pub open spec fn held<S>(p: PadV<S>, c: int) -> int {
    (c - p.left) / (p.interior + 1)
}

/// A padding along one axis.
pub proof fn lemma_pad_one<S: Scalar>(
    p: PadV<S>,
    axis: isize,
    t: TensorV<S>,
    u: TensorV<S>,
    k: int,
)
    requires
        p.axes == seq![axis],
        shape::axis_ok(axis as int, t.shape.len() as int),
        reals::full(t),
        model::un_tensor(UnOpV::Pad(p), t) == Ok::<TensorV<S>, Fault>(u),
        0 <= k < shape::product(u.shape),
    ensures
        ({
            let ax = shape::norm_axis(axis as int, t.shape.len() as int);
            let (d, e, inner) = (
                t.shape[ax] as int,
                u.shape[ax] as int,
                model::inner_size(t.shape, ax) as int,
            );
            let (o, c, i) = (k / inner / e, k / inner % e, k % inner);
            &&& u.shape == t.shape.update(ax, model::padded_len(p, t.shape[ax]) as usize)
            &&& model::padded_len(p, t.shape[ax]) <= usize::MAX
            &&& u.data[k] == (if holds(p, c, d) {
                t.data[(o * d + held(p, c)) * inner + i]
            } else {
                p.value
            })
            &&& holds(p, c, d) ==> 0 <= held(p, c) < d && 0 <= (o * d + held(p, c)) * inner + i
                < shape::product(t.shape)
        }),
{
    let s = t.shape;
    let n = s.len() as int;
    let ax = shape::norm_axis(axis as int, n);
    let out = u.shape;
    assert forall|i: int| 0 <= i < n implies model::names_axis(p.axes, n, i) == (i == ax) by {
        assert(p.axes[0] == axis);
        if i == ax {
            assert(shape::norm_axis(p.axes[0] as int, n) == i);
        }
    }
    assert(model::pad_len(p, s, ax) <= usize::MAX);
    assert(out =~= s.update(ax, model::padded_len(p, s[ax]) as usize)) by {
        assert forall|i: int| 0 <= i < n implies #[trigger] out[i] == s.update(
            ax,
            model::padded_len(p, s[ax]) as usize,
        )[i] by {
            assert(model::names_axis(p.axes, n, i) == (i == ax));
        }
    }
    assert(out.subrange(ax + 1, n) =~= s.subrange(ax + 1, n));
    assert(out.subrange(0, ax) =~= s.subrange(0, ax));
    lemma_parts(out, ax, k);
    let (d, e, inner) = (s[ax] as int, out[ax] as int, model::inner_size(s, ax) as int);
    let (o, c, i) = (k / inner / e, k / inner % e, k % inner);
    let m = shape::unravel(k, out);
    lemma_axis(out, ax, o, c, i, out[ax], c as usize);
    assert(m[ax] == c);
    let g = p.interior + 1;
    if holds(p, c, d) {
        let q = held(p, c);
        assert(0 <= q) by (nonlinear_arith)
            requires
                q == (c - p.left) / g,
                c >= p.left,
                g > 0,
        ;
        assert(model::pad_hit(p, m, s)) by {
            assert forall|j: int| 0 <= j < n implies (#[trigger] model::pad_axis(
                p,
                m,
                s,
                j,
            )) is Some by {
                assert(model::names_axis(p.axes, n, j) == (j == ax));
            }
        }
        lemma_axis(out, ax, o, c, i, s[ax], q as usize);
        let pc = model::pad_coordinates(p, m, s);
        assert(pc =~= m.update(ax, q as usize)) by {
            assert forall|j: int| 0 <= j < n implies #[trigger] pc[j] == m.update(
                ax,
                q as usize,
            )[j] by {
                assert(model::names_axis(p.axes, n, j) == (j == ax));
                assert(m[j] < out[j]);
            }
        }
        assert(out.update(ax, s[ax]) =~= s);
        manipulate::lemma_remove(s, ax);
        let outer = model::outer_size(s, ax) as int;
        manipulate::lemma_cell(o, q, outer, d);
        manipulate::lemma_cell(o * d + q, i, outer * d, inner);
    } else {
        assert(!model::pad_hit(p, m, s)) by {
            assert(model::names_axis(p.axes, n, ax) == (ax == ax));
            assert(model::pad_axis(p, m, s, ax) is None);
        }
    }
}

// ---- slices ----
/// The lengths of an axis and of the slice that is padded back to it.
proof fn lemma_taken(len: int, start: int, end: Option<isize>, step: int, count: int)
    requires
        0 <= start,
        0 < step,
        count == model::slice_count(len, start, end, step),
        0 < count,
        0 <= len,
        start + ((count - 1) * step + 1) <= len,
    ensures
        model::slice_first(len, start, step) == start,
        start + count + (count - 1) * (step - 1) + (len - start - ((count - 1) * step + 1)) == len,
{
    assert(0 <= (count - 1) * step) by (nonlinear_arith)
        requires
            0 < count,
            0 < step,
    ;
    assert((count - 1) * (step - 1) == (count - 1) * step - (count - 1)) by (nonlinear_arith);
}

/// A multiple of a step, taken apart again.
pub proof fn lemma_multiple(j: int, step: int)
    requires
        0 < step,
    ensures
        (j * step) % step == 0,
        (j * step) / step == j,
{
    assert((j * step) % step == 0 && (j * step) / step == j) by (nonlinear_arith)
        requires
            0 < step,
    ;
}

/// A number without remainder.
pub proof fn lemma_exact_quotient(c: int, step: int)
    requires
        0 < step,
        c % step == 0,
    ensures
        (c / step) * step == c,
{
    assert((c / step) * step == c) by (nonlinear_arith)
        requires
            0 < step,
            c % step == 0,
    ;
}

/// The program of a slice carries weights.
#[verifier::rlimit(60)]
pub proof fn lemma_slice_carries<S: Scalar>(
    v: spec_fn(S) -> real,
    axis: isize,
    start: isize,
    end: Option<isize>,
    step: isize,
    x: TensorV<S>,
    y: TensorV<S>,
    pad: PadV<S>,
    inputs: Seq<TensorV<S>>,
    parts: Seq<TensorV<S>>,
)
    requires
        exact::exact(v),
        inputs.len() == 1,
        support::weighable(inputs[0]),
        support::weighable(x),
        model::un_tensor(UnOpV::Slice(axis, start, end, step), x) == Ok::<TensorV<S>, Fault>(y),
        inputs[0].shape == y.shape,
        vjp::unslice_pad::<S>(axis, start, step, y.shape, x.shape) == Ok::<PadV<S>, Fault>(pad),
        vjp::applied::<S, Tensor<S>>(
            (),
            crown::without_bias(
                Ok(vjp::single(seq![StepV::Un(UnOpV::Pad(pad), Reg::In(0))])),
            )->Ok_0,
            inputs,
        ).1 == Ok::<Seq<TensorV<S>>, Fault>(parts),
    ensures
        support::carries(v, parts, seq![x], inputs[0], y),
{
    let w = inputs[0];
    carry_moves::lemma_single_op(UnOpV::Pad(pad), inputs, parts);
    let (s, t) = (x.shape, y.shape);
    let n = s.len() as int;
    let ax = shape::norm_axis(axis as int, n);
    let p = parts[0];
    let (d, inner, st) = (s[ax] as int, model::inner_size(s, ax) as int, step as int);
    let count = model::slice_count(d, start as int, end, st);
    manipulate::lemma_slice(d, start as int, end, st);
    assert(t[ax] == count);
    assert(count > 0) by {
        assert(t[ax] > 0);
    }
    lemma_taken(d, start as int, end, st, count);
    assert(pad.left == start && pad.interior + 1 == st);
    assert(t.subrange(ax + 1, n) =~= s.subrange(ax + 1, n));
    assert(t.subrange(0, ax) =~= s.subrange(0, ax));
    manipulate::lemma_remove(s, ax);
    manipulate::lemma_update(s, ax, t[ax]);
    let outer = model::outer_size(s, ax) as int;
    let (nx, nw) = (shape::product(s), shape::product(t));
    // the padded weight has the shape of the operand
    assert(model::padded_len(pad, t[ax]) == d);
    assert(model::pad_shape(pad, t) is Ok);
    crate::carry_products::lemma_dense_positive(s);
    assert(p.shape == s) by {
        let out = model::pad_shape(pad, t)->Ok_0;
        assert(out =~= s) by {
            assert forall|i: int| 0 <= i < n implies #[trigger] out[i] == s[i] by {
                assert(pad.axes[0] == axis);
                if i == ax {
                    assert(shape::norm_axis(pad.axes[0] as int, n) == i);
                    assert(model::names_axis(pad.axes, n, i));
                } else {
                    assert(!model::names_axis(pad.axes, n, i));
                }
            }
        }
    }
    let g = |r: int| model::slice_index(r, d, inner, start as int, count, st);
    let hit = |k: int| holds(pad, k / inner % d, count);
    let h = |k: int| (k / inner / d * count + held(pad, k / inner % d)) * inner + k % inner;
    assert forall|r: int| 0 <= r < nw implies 0 <= #[trigger] g(r) < nx && hit(g(r)) && h(g(r))
        == r by {
        containment::lemma_slice_index(s, ax, start as int, end, st, r);
        let (o, j, i) = (r / inner / count, r / inner % count, r % inner);
        let k = g(r);
        assert(k / inner % d == start + j * st);
        lemma_multiple(j, st);
        lemma_parts(t, ax, r);
    }
    assert forall|k: int| 0 <= k < nx && #[trigger] hit(k) implies 0 <= h(k) < nw && g(h(k))
        == k by {
        lemma_pad_one(pad, axis, w, p, k);
        lemma_parts(s, ax, k);
        let (o, c, i) = (k / inner / d, k / inner % d, k % inner);
        let q = held(pad, c);
        lemma_exact_quotient(c - start, st);
        manipulate::lemma_cell(o, q, outer, count);
        manipulate::lemma_cell(o * count + q, i, outer * count, inner);
    }
    let (fw, fx) = (|r: int| v(w.data[r]), |k: int| v(x.data[k]));
    lemma_sum_gather(fw, fx, g, hit, h, nw, nx);
    pairing::lemma_same_shape(s);
    pairing::lemma_spread_same(v, p, x);
    exact::lemma_numbers(v);
    let (f1, f2) = (
        |k: int| v(p.data[k]) * v(x.data[k]),
        |k: int|
            if hit(k) {
                fw(h(k)) * fx(k)
            } else {
                0real
            },
    );
    assert forall|k: int| 0 <= k < nx implies #[trigger] f1(k) == f2(k) by {
        lemma_pad_one(pad, axis, w, p, k);
        exact::lemma_units(v(x.data[k]), v(x.data[k]));
    }
    sums::lemma_sum_same(f1, f2, nx);
    let (g1, g2) = (|r: int| fw(r) * fx(g(r)), |r: int| v(w.data[r]) * v(y.data[r]));
    assert forall|r: int| 0 <= r < nw implies #[trigger] g1(r) == g2(r) by {
        assert(y.data[r] == x.data[g(r)]);
    }
    sums::lemma_sum_same(g1, g2, nw);
    carry_moves::lemma_one(v, parts, x, w, y);
}

} // verus!
