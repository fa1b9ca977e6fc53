//! Interval bounds hold what they bound.

use vstd::prelude::*;
use crate::env;
use crate::eval;
use crate::exact;
use crate::interval;
use crate::interval::{IBPTensor, IBPV};
use crate::manipulate;
use crate::model;
use crate::model::{BinOpV, Fault, PadV, TensorV, UnOpV};
use crate::nn;
use crate::nn::{AtomV, EqnV, GraphV, PrimV};
use crate::reals;
use crate::reduce;
use crate::scalar;
use crate::scalar::Scalar;
use crate::shape;
use crate::sums;
use crate::tensor::Tensor;

verus! {

/// Whether one tensor lies below another of the same shape, element by element.
pub open spec fn below<S>(v: spec_fn(S) -> real, a: TensorV<S>, b: TensorV<S>) -> bool {
    &&& a.shape == b.shape
    &&& reals::full(a)
    &&& reals::full(b)
    &&& forall|k: int| 0 <= k < a.data.len() ==> v(#[trigger] a.data[k]) <= v(b.data[k])
}

/// Whether a tensor lies in an interval. An interval that counts as a point is one.
pub open spec fn inside<S>(v: spec_fn(S) -> real, x: TensorV<S>, b: IBPV<S>) -> bool {
    &&& below(v, b.lb, x)
    &&& below(v, x, b.ub)
    &&& b.is_point ==> below(v, b.ub, b.lb)
}

/// Whether an operation on one tensor rises on the tensors above `a`: a root needs numbers that
/// are not negative, a logarithm positive ones, and a slope may not be negative.
pub open spec fn rises<S: Scalar>(v: spec_fn(S) -> real, op: UnOpV<S>, a: TensorV<S>) -> bool {
    match op {
        UnOpV::Neg | UnOpV::Reciprocal | UnOpV::Square | UnOpV::Gelu => false,
        UnOpV::Sqrt => forall|k: int|
            0 <= k < a.data.len() ==> 0real <= v(#[trigger] a.data[k]),
        UnOpV::Log => forall|k: int| 0 <= k < a.data.len() ==> 0real < v(#[trigger] a.data[k]),
        UnOpV::LeakyRelu(slope) | UnOpV::Elu(slope) => 0real <= v(slope),
        _ => true,
    }
}

// ---- operations that rise ----
/// An elementwise operation that rises.
proof fn lemma_point_rises<S: Scalar>(
    v: spec_fn(S) -> real,
    op: UnOpV<S>,
    a: TensorV<S>,
    b: TensorV<S>,
    k: int,
)
    requires
        exact::exact(v),
        model::is_pointwise(op),
        below(v, a, b),
        rises(v, op, a),
        0 <= k < a.data.len(),
    ensures
        v(model::at_point(op, a.data[k])) <= v(model::at_point(op, b.data[k])),
{
    let (x, y) = (a.data[k], b.data[k]);
    exact::lemma_numbers(v);
    match op {
        UnOpV::Sqrt => exact::lemma_root(v, x, y),
        UnOpV::Exp => exact::lemma_exponential(v, x, y),
        UnOpV::LeakyRelu(slope) => exact::lemma_leaky(v, slope, x, y),
        UnOpV::Elu(slope) => exact::lemma_elu(v, slope, x, y),
        UnOpV::NormalCdf => exact::lemma_cdf(v, x, y),
        _ => {},
    }
}

/// Sums along an axis rise.
proof fn lemma_sum_axis_rises<S: Scalar>(
    v: spec_fn(S) -> real,
    a: TensorV<S>,
    b: TensorV<S>,
    ax: int,
)
    requires
        exact::exact(v),
        below(v, a, b),
        0 <= ax < a.shape.len(),
    ensures
        below(v, model::sum_axis(a, ax), model::sum_axis(b, ax)),
{
    let (p, q) = (model::sum_axis(a, ax), model::sum_axis(b, ax));
    manipulate::lemma_remove(a.shape, ax);
    let (outer, d, inner) = (
        model::outer_size(a.shape, ax) as int,
        a.shape[ax] as int,
        model::inner_size(a.shape, ax) as int,
    );
    assert forall|k: int| 0 <= k < p.data.len() implies v(#[trigger] p.data[k]) <= v(
        q.data[k],
    ) by {
        reals::lemma_line_sum(v, a.data, d, inner, k, d as nat);
        reals::lemma_line_sum(v, b.data, d, inner, k, d as nat);
        let f = |i: int| v(a.data[reals::on_line(d, inner, k, i)]);
        let g = |i: int| v(b.data[reals::on_line(d, inner, k, i)]);
        assert forall|i: int| 0 <= i < d implies #[trigger] f(i) <= g(i) by {
            reals::lemma_on_line(outer, d, inner, k, i);
        }
        sums::lemma_sum_le(f, g, d as nat);
    }
}

/// Sums along axes rise.
proof fn lemma_sum_axes_rise<S: Scalar>(
    v: spec_fn(S) -> real,
    a: TensorV<S>,
    b: TensorV<S>,
    axes: Seq<isize>,
    n: int,
    k: nat,
)
    requires
        exact::exact(v),
        below(v, a, b),
        k <= a.shape.len(),
    ensures
        below(v, model::sum_axes(a, axes, n, k), model::sum_axes(b, axes, n, k)),
    decreases k,
{
    if k > 0 {
        if model::names_axis(axes, n, k - 1) {
            lemma_sum_axis_rises(v, a, b, k - 1);
            lemma_sum_axes_rise(
                v,
                model::sum_axis(a, k - 1),
                model::sum_axis(b, k - 1),
                axes,
                n,
                (k - 1) as nat,
            );
        } else {
            lemma_sum_axes_rise(v, a, b, axes, n, (k - 1) as nat);
        }
    }
}

/// The number of elements of an expanded shape.
pub proof fn lemma_expanded_product(s: Seq<usize>, axes: Seq<isize>, n: int, k: nat)
    requires
        k <= n,
        n == s.len() + axes.len(),
        model::unnamed_below(axes, n, k) <= s.len(),
    ensures
        shape::product(model::expanded(s, axes).subrange(0, k as int)) == shape::product(
            s.subrange(0, model::unnamed_below(axes, n, k) as int),
        ),
    decreases k,
{
    let e = model::expanded(s, axes);
    if k > 0 {
        lemma_expanded_product(s, axes, n, (k - 1) as nat);
        let u = model::unnamed_below(axes, n, (k - 1) as nat);
        assert(e.subrange(0, k as int).drop_last() =~= e.subrange(0, k - 1));
        if !model::names_axis(axes, n, k - 1) {
            assert(s.subrange(0, (u + 1) as int).drop_last() =~= s.subrange(0, u as int));
        } else {
            let p = shape::product(e.subrange(0, k - 1));
            assert(p * 1 == p) by (nonlinear_arith);
        }
    }
}

/// The index that a slice reads is in range.
pub proof fn lemma_slice_index(
    s: Seq<usize>,
    ax: int,
    start: int,
    end: Option<isize>,
    step: int,
    r: int,
)
    requires
        0 <= ax < s.len(),
        step != 0,
        0 <= r < shape::product(
            s.update(ax, model::slice_count(s[ax] as int, start, end, step) as usize),
        ),
    ensures
        ({
            let (d, inner) = (s[ax] as int, model::inner_size(s, ax) as int);
            let (first, count) = (
                model::slice_first(d, start, step),
                model::slice_count(d, start, end, step),
            );
            let i = model::slice_index(r, d, inner, first, count, step);
            &&& 0 <= i < shape::product(s)
            &&& inner > 0
            &&& count > 0
            &&& 0 <= r / inner / count < model::outer_size(s, ax)
            &&& 0 <= r / inner % count < count
            &&& 0 <= r % inner < inner
            &&& i % inner == r % inner
            &&& i / inner % d == first + (r / inner % count) * step
            &&& i / inner / d == r / inner / count
        }),
{
    let (d, inner, outer) = (
        s[ax] as int,
        model::inner_size(s, ax) as int,
        model::outer_size(s, ax) as int,
    );
    let (first, count) = (
        model::slice_first(d, start, step),
        model::slice_count(d, start, end, step),
    );
    manipulate::lemma_slice(d, start, end, step);
    manipulate::lemma_update(s, ax, count as usize);
    manipulate::lemma_remove(s, ax);
    manipulate::lemma_row(r, outer * count, inner);
    manipulate::lemma_row(r / inner, outer, count);
    let j = r / inner % count;
    assert(0 <= first + j * step < d);
    manipulate::lemma_cell(r / inner / count, first + j * step, outer, d);
    manipulate::lemma_cell(
        (r / inner / count) * d + (first + j * step),
        r % inner,
        outer * d,
        inner,
    );
}

/// The element that stands at a place of a padded tensor exists.
pub proof fn lemma_pad_index<S>(p: PadV<S>, s: Seq<usize>, out: Seq<usize>, k: int)
    requires
        model::pad_shape(p, s) == Ok::<Seq<usize>, Fault>(out),
        0 <= k < shape::product(out),
        model::pad_hit(p, shape::unravel(k, out), s),
    ensures
        shape::in_shape(model::pad_coordinates(p, shape::unravel(k, out), s), s),
        0 <= shape::ravel(model::pad_coordinates(p, shape::unravel(k, out), s), s)
            < shape::product(s),
{
    shape::lemma_unravel_ravel(k, out);
    let m = shape::unravel(k, out);
    let c = model::pad_coordinates(p, m, s);
    assert forall|i: int| 0 <= i < s.len() implies #[trigger] c[i] < s[i] by {
        assert(model::pad_axis(p, m, s, i) is Some);
        assert(m[i] < out[i]);
        let is_padded = model::names_axis(p.axes, s.len() as int, i);
        if is_padded {
            let (x, g) = (m[i] - p.left, p.interior + 1);
            assert(0 <= x / g) by (nonlinear_arith)
                requires
                    0 <= x,
                    0 < g,
            ;
        } else {
            assert(model::pad_len(p, s, i) == s[i]);
        }
    }
    shape::lemma_ravel_unravel(c, s);
}

/// An operation that rises keeps the order of tensors.
#[verifier::rlimit(40)]
pub proof fn lemma_un_rises<S: Scalar>(
    v: spec_fn(S) -> real,
    op: UnOpV<S>,
    a: TensorV<S>,
    b: TensorV<S>,
)
    requires
        exact::exact(v),
        below(v, a, b),
        rises(v, op, a),
        model::un_tensor(op, a) is Ok,
    ensures
        model::un_tensor(op, b) is Ok,
        below(v, model::un_tensor(op, a)->Ok_0, model::un_tensor(op, b)->Ok_0),
{
    let s = a.shape;
    let n = s.len() as int;
    let out = model::un_shape(op, s)->Ok_0;
    let (p, q) = (model::un_tensor(op, a)->Ok_0, model::un_tensor(op, b)->Ok_0);
    match op {
        UnOpV::ReduceSum(axes) => {
            lemma_sum_axes_rise(v, a, b, axes, n, n as nat);
            reals::lemma_sum_axes_full(a, axes, n, n as nat);
            reals::lemma_sum_axes_full(b, axes, n, n as nat);
        },
        UnOpV::ExpandDims(axes) => {
            let m = (s.len() + axes.len()) as int;
            lemma_expanded_product(s, axes, m, m as nat);
            assert(out.subrange(0, m) =~= out);
            assert(s.subrange(0, n) =~= s);
        },
        UnOpV::MoveAxis(i, j) => {
            let (i, j) = (shape::norm_axis(i as int, n), shape::norm_axis(j as int, n));
            manipulate::lemma_moved(s, i, j);
            assert forall|k: int| 0 <= k < p.data.len() implies v(#[trigger] p.data[k]) <= v(
                q.data[k],
            ) by {
                lemma_moved_index(s, i, j, k);
            }
        },
        UnOpV::Reshape(_) => {},
        UnOpV::Slice(axis, start, end, step) => {
            let ax = shape::norm_axis(axis as int, n);
            assert forall|k: int| 0 <= k < p.data.len() implies v(#[trigger] p.data[k]) <= v(
                q.data[k],
            ) by {
                lemma_slice_index(s, ax, start as int, end, step as int, k);
            }
        },
        UnOpV::Pad(pad) => {
            assert forall|k: int| 0 <= k < p.data.len() implies v(#[trigger] p.data[k]) <= v(
                q.data[k],
            ) by {
                if model::pad_hit(pad, shape::unravel(k, out), s) {
                    lemma_pad_index(pad, s, out, k);
                }
            }
        },
        UnOpV::Pool(window, stride, average) => {
            lemma_pool_rises(v, a, b, window, stride, average, out);
        },
        _ => {
            assert forall|k: int| 0 <= k < p.data.len() implies v(#[trigger] p.data[k]) <= v(
                q.data[k],
            ) by {
                lemma_point_rises(v, op, a, b, k);
            }
        },
    }
}

/// The index that a move of an axis reads is in range.
pub proof fn lemma_moved_index(s: Seq<usize>, i: int, j: int, k: int)
    requires
        0 <= i < s.len(),
        0 <= j < s.len(),
        0 <= k < shape::product(s),
    ensures
        0 <= model::swapped_index(
            k,
            model::first_block(s, i, j) as int,
            model::second_block(s, i, j) as int,
            model::behind_blocks(s, i, j) as int,
        ) < shape::product(s),
{
    manipulate::lemma_moved(s, i, j);
    let low = if i <= j {
        i
    } else {
        j
    };
    let (o, p, q, inner) = (
        shape::product(s.subrange(0, low)) as int,
        model::first_block(s, i, j) as int,
        model::second_block(s, i, j) as int,
        model::behind_blocks(s, i, j) as int,
    );
    manipulate::lemma_swapped(k, o, p, q, inner);
}

/// Pooling rises.
proof fn lemma_pool_rises<S: Scalar>(
    v: spec_fn(S) -> real,
    a: TensorV<S>,
    b: TensorV<S>,
    window: Seq<usize>,
    stride: Seq<usize>,
    average: bool,
    out: Seq<usize>,
)
    requires
        exact::exact(v),
        below(v, a, b),
        model::pool_shape(a.shape, window, stride) == Ok::<Seq<usize>, Fault>(out),
    ensures
        forall|k: int|
            0 <= k < shape::product(out) ==> v(
                #[trigger] model::pool_data(a, window, stride, average, out)[k],
            ) <= v(model::pool_data(b, window, stride, average, out)[k]),
{
    let s = a.shape;
    let total = shape::product(window);
    let (p, q) = (
        model::pool_data(a, window, stride, average, out),
        model::pool_data(b, window, stride, average, out),
    );
    assert forall|k: int| 0 <= k < shape::product(out) implies v(#[trigger] p[k]) <= v(q[k]) by {
        reals::lemma_window_sum(v, a, window, stride, out, k, total);
        reals::lemma_window_sum(v, b, window, stride, out, k, total);
        let f = |j: int|
            v(
                a.data[shape::ravel(
                    model::window_coordinates(window, stride, out, k, j),
                    a.shape,
                )],
            );
        let g = |j: int|
            v(
                b.data[shape::ravel(
                    model::window_coordinates(window, stride, out, k, j),
                    b.shape,
                )],
            );
        assert forall|j: int| 0 <= j < total implies #[trigger] f(j) <= g(j) by {
            reduce::lemma_window(s, window, stride, out, k, j);
            shape::lemma_ravel_unravel(
                model::window_coordinates(window, stride, out, k, j),
                s,
            );
        }
        sums::lemma_sum_le(f, g, total);
        let (x, y) = (
            model::window_sum(a, window, stride, out, k, total),
            model::window_sum(b, window, stride, out, k, total),
        );
        if average {
            if total > 0 {
                let d = scalar::num::<S>(total as int);
                assert(v(S::ratio(total as int, 1)) * (1int as real) == total as int as real);
                exact::lemma_over(v, x, y, d);
            } else {
                assert(x == y);
            }
        }
    }
}

// ---- operations on one interval ----
/// Whether the Gaussian error linear unit has its minimum where its bounds expect it, up to `e`:
/// it falls up to there and rises from there on. The bounds write the minimum down in 17 digits:
/// of the unit itself this holds for a small `e`, of one that is rounded to those digits for zero.
pub open spec fn unit_dips<S: Scalar>(v: spec_fn(S) -> real, e: real) -> bool {
    let m = v(interval::gelu_arg_min::<S>());
    &&& forall|a: S, b: S|
        m <= v(a) <= v(b) ==> v(#[trigger] scalar::gelu_of(a)) <= v(#[trigger] scalar::gelu_of(b))
            + e
    &&& forall|a: S, b: S|
        v(a) <= v(b) < m ==> v(#[trigger] scalar::gelu_of(b)) <= v(#[trigger] scalar::gelu_of(a))
            + e
    &&& forall|a: S| v(interval::gelu_min::<S>()) - e <= v(#[trigger] scalar::gelu_of(a))
}

/// The Gaussian error linear units of an interval lie in its bounds, up to what the minimum is
/// off.
pub proof fn lemma_gelu_inside<S: Scalar>(v: spec_fn(S) -> real, e: real, l: S, x: S, u: S)
    requires
        exact::exact(v),
        unit_dips(v, e),
        v(l) <= v(x) <= v(u),
    ensures
        v(interval::gelu_low(l, u)) - e <= v(scalar::gelu_of(x)) <= v(interval::gelu_high(l, u))
            + e,
{
}

/// Whether an interval bounds an operation on one tensor: a reciprocal needs an interval without
/// zero, a Gaussian unit the minimum that its bounds write down.
pub open spec fn un_bounded<S: Scalar>(v: spec_fn(S) -> real, op: UnOpV<S>, b: IBPV<S>) -> bool {
    match op {
        UnOpV::Neg | UnOpV::Square => true,
        UnOpV::Reciprocal => forall|k: int|
            0 <= k < b.lb.data.len() ==> 0real < v(#[trigger] b.lb.data[k]) || v(b.ub.data[k])
                < 0real,
        UnOpV::Gelu => unit_dips(v, 0real),
        _ => rises(v, op, b.lb),
    }
}

/// The squares of an interval.
proof fn lemma_square_inside<S: Scalar>(v: spec_fn(S) -> real, l: S, x: S, u: S)
    requires
        exact::exact(v),
        v(l) <= v(x) <= v(u),
    ensures
        v(interval::square_low(l, u)) <= v(x.times(x)) <= v(interval::square_high(l, u)),
{
    exact::lemma_numbers(v);
    let (a, y, b) = (v(l), v(x), v(u));
    assert(0real <= a ==> a * a <= y * y && y * y <= b * b) by (nonlinear_arith)
        requires
            a <= y <= b,
    ;
    assert(b < 0real ==> b * b <= y * y && y * y <= a * a) by (nonlinear_arith)
        requires
            a <= y <= b,
    ;
    assert(0real <= y * y) by (nonlinear_arith);
    assert(y * y <= a * a || y * y <= b * b) by (nonlinear_arith)
        requires
            a <= y <= b,
    ;
}

/// The reciprocals of an interval without zero.
proof fn lemma_reciprocal_inside<S: Scalar>(v: spec_fn(S) -> real, l: S, x: S, u: S)
    requires
        exact::exact(v),
        v(l) <= v(x) <= v(u),
        0real < v(l) || v(u) < 0real,
    ensures
        v(interval::reciprocal_low(l, u)) <= v(x.inverse()) <= v(interval::reciprocal_high(l, u)),
{
    exact::lemma_numbers(v);
    let (a, y, b) = (v(l), v(x), v(u));
    let (p, q, r) = (
        v(scalar::one::<S>().over(u)),
        v(x.inverse()),
        v(scalar::one::<S>().over(l)),
    );
    assert(p * b == 1real && q * y == 1real && r * a == 1real);
    lemma_reciprocal_order(y, b, q, p);
    lemma_reciprocal_order(a, y, r, q);
}

/// Reciprocals of numbers of one sign fall.
pub proof fn lemma_reciprocal_order(a: real, b: real, p: real, q: real)
    requires
        a <= b,
        0real < a || b < 0real,
        p * a == 1real,
        q * b == 1real,
    ensures
        q <= p,
{
    if 0real < a {
        assert(q <= p) by (nonlinear_arith)
            requires
                0real < a <= b,
                p * a == 1real,
                q * b == 1real,
        ;
    } else {
        let (c, d, s, t) = (-b, -a, -q, -p);
        assert(s * c == q * b && t * d == p * a) by (nonlinear_arith)
            requires
                c == -b,
                d == -a,
                s == -q,
                t == -p,
        ;
        assert(t <= s) by (nonlinear_arith)
            requires
                0real < c <= d,
                s * c == 1real,
                t * d == 1real,
        ;
    }
}

/// The bounds of an operation on one interval hold the results on the tensors in it.
pub proof fn lemma_un_inside<S: Scalar>(
    v: spec_fn(S) -> real,
    op: UnOpV<S>,
    x: TensorV<S>,
    b: IBPV<S>,
)
    requires
        exact::exact(v),
        inside(v, x, b),
        un_bounded(v, op, b),
        model::un_tensor(op, x) is Ok,
        interval::un_interval(op, b) is Ok,
    ensures
        inside(v, model::un_tensor(op, x)->Ok_0, interval::un_interval(op, b)->Ok_0),
{
    let (y, c) = (model::un_tensor(op, x)->Ok_0, interval::un_interval(op, b)->Ok_0);
    match op {
        UnOpV::Neg => {
            assert(below(v, c.lb, y));
            assert(below(v, y, c.ub));
        },
        UnOpV::Square => {
            assert forall|k: int| 0 <= k < y.data.len() implies v(#[trigger] c.lb.data[k]) <= v(
                y.data[k],
            ) && v(y.data[k]) <= v(c.ub.data[k]) by {
                assert(v(b.lb.data[k]) <= v(x.data[k]));
                lemma_square_inside(v, b.lb.data[k], x.data[k], b.ub.data[k]);
            }
            assert(below(v, c.lb, y));
            assert(below(v, y, c.ub)) by {
                assert forall|k: int| 0 <= k < y.data.len() implies v(#[trigger] y.data[k]) <= v(
                    c.ub.data[k],
                ) by {
                    assert(v(c.lb.data[k]) <= v(y.data[k]));
                }
            }
        },
        UnOpV::Reciprocal => {
            assert forall|k: int| 0 <= k < y.data.len() implies v(#[trigger] c.lb.data[k]) <= v(
                y.data[k],
            ) && v(y.data[k]) <= v(c.ub.data[k]) by {
                assert(v(b.lb.data[k]) <= v(x.data[k]));
                lemma_reciprocal_inside(v, b.lb.data[k], x.data[k], b.ub.data[k]);
            }
            assert(below(v, c.lb, y));
            assert(below(v, y, c.ub)) by {
                assert forall|k: int| 0 <= k < y.data.len() implies v(#[trigger] y.data[k]) <= v(
                    c.ub.data[k],
                ) by {
                    assert(v(c.lb.data[k]) <= v(y.data[k]));
                }
            }
        },
        UnOpV::Gelu => {
            assert forall|k: int| 0 <= k < y.data.len() implies v(#[trigger] c.lb.data[k]) <= v(
                y.data[k],
            ) && v(y.data[k]) <= v(c.ub.data[k]) by {
                assert(v(b.lb.data[k]) <= v(x.data[k]));
                lemma_gelu_inside(v, 0real, b.lb.data[k], x.data[k], b.ub.data[k]);
            }
            assert(below(v, c.lb, y));
            assert(below(v, y, c.ub)) by {
                assert forall|k: int| 0 <= k < y.data.len() implies v(#[trigger] y.data[k]) <= v(
                    c.ub.data[k],
                ) by {
                    assert(v(c.lb.data[k]) <= v(y.data[k]));
                }
            }
        },
        _ => {
            assert(rises(v, op, x)) by {
                assert forall|k: int| 0 <= k < x.data.len() implies v(b.lb.data[k]) <= v(
                    #[trigger] x.data[k],
                ) by {}
            }
            lemma_un_rises(v, op, b.lb, x);
            lemma_un_rises(v, op, x, b.ub);
        },
    }
    assert(c.is_point ==> below(v, c.ub, c.lb));
}

// ---- operations on two intervals ----
/// The bounds of an elementwise operation can always be had, and have the shape of the interval.
pub proof fn lemma_pointwise_bounds<S: Scalar>(op: UnOpV<S>, b: IBPV<S>)
    requires
        model::is_pointwise(op),
        b.lb.shape == b.ub.shape,
        reals::full(b.lb),
        reals::full(b.ub),
    ensures
        interval::un_interval(op, b) matches Ok(c) && c.lb.shape == b.lb.shape && c.ub.shape
            == b.lb.shape && reals::full(c.lb) && reals::full(c.ub),
{
}

/// A reciprocal has no bounds where the interval of its operand holds zero: what stands for
/// the two infinities is given.
pub proof fn lemma_reciprocal_unbounded<S: Scalar>(v: spec_fn(S) -> real, b: IBPV<S>, k: int)
    requires
        exact::exact(v),
        b.lb.shape == b.ub.shape,
        reals::full(b.lb),
        reals::full(b.ub),
        0 <= k < b.lb.data.len(),
        v(b.lb.data[k]) <= 0real <= v(b.ub.data[k]),
    ensures
        interval::un_interval(UnOpV::<S>::Reciprocal, b) matches Ok(c) && c.lb.data[k]
            == S::bottom() && c.ub.data[k] == S::top(),
{
    exact::lemma_numbers(v);
}

/// Whether intervals bound an operation on two tensors. A contraction or a convolution of two
/// intervals of which neither is a point is bounded by its results at the ends alone, which says
/// nothing of the tensors between.
pub open spec fn bin_bounded<S>(op: BinOpV, a: IBPV<S>, b: IBPV<S>) -> bool {
    match op {
        BinOpV::Dot | BinOpV::Conv(_) => a.is_point || b.is_point,
        _ => true,
    }
}

/// Sums rise.
proof fn lemma_add_rises<S: Scalar>(
    v: spec_fn(S) -> real,
    a: TensorV<S>,
    b: TensorV<S>,
    p: TensorV<S>,
    q: TensorV<S>,
)
    requires
        exact::exact(v),
        below(v, a, p),
        below(v, b, q),
        model::bin_tensor(BinOpV::Add, a, b) is Ok,
    ensures
        below(
            v,
            model::bin_tensor(BinOpV::Add, a, b)->Ok_0,
            model::bin_tensor(BinOpV::Add, p, q)->Ok_0,
        ),
{
    let out = model::bin_shape(BinOpV::Add, a.shape, b.shape)->Ok_0;
    let (x, y) = (
        model::bin_tensor(BinOpV::Add, a, b)->Ok_0,
        model::bin_tensor(BinOpV::Add, p, q)->Ok_0,
    );
    assert forall|r: int| 0 <= r < x.data.len() implies v(#[trigger] x.data[r]) <= v(
        y.data[r],
    ) by {
        reals::lemma_factors(BinOpV::Add, a.shape, b.shape, out, r, 0);
        let (i, j) = (
            shape::source_index(r, out, a.shape),
            shape::source_index(r, out, b.shape),
        );
        assert(v(a.data[i]) <= v(p.data[i]));
        assert(v(b.data[j]) <= v(q.data[j]));
    }
}

/// Products of elements lie between the products of the ends.
proof fn lemma_mul_inside<S: Scalar>(
    v: spec_fn(S) -> real,
    x: TensorV<S>,
    y: TensorV<S>,
    a: IBPV<S>,
    b: IBPV<S>,
)
    requires
        exact::exact(v),
        inside(v, x, a),
        inside(v, y, b),
        model::bin_tensor(BinOpV::Mul, x, y) is Ok,
        interval::corner_hull(BinOpV::Mul, a, b) is Ok,
    ensures
        inside(
            v,
            model::bin_tensor(BinOpV::Mul, x, y)->Ok_0,
            interval::corner_hull(BinOpV::Mul, a, b)->Ok_0,
        ),
{
    let out = model::bin_shape(BinOpV::Mul, x.shape, y.shape)->Ok_0;
    let z = model::bin_tensor(BinOpV::Mul, x, y)->Ok_0;
    let c = interval::corner_hull(BinOpV::Mul, a, b)->Ok_0;
    assert forall|r: int| 0 <= r < z.data.len() implies v(#[trigger] c.lb.data[r]) <= v(z.data[r])
        && v(z.data[r]) <= v(c.ub.data[r]) by {
        reals::lemma_factors(BinOpV::Mul, x.shape, y.shape, out, r, 0);
        let (i, j) = (
            shape::source_index(r, out, x.shape),
            shape::source_index(r, out, y.shape),
        );
        assert(v(a.lb.data[i]) <= v(x.data[i]));
        assert(v(b.lb.data[j]) <= v(y.data[j]));
        exact::lemma_corners(
            v(a.lb.data[i]),
            v(x.data[i]),
            v(a.ub.data[i]),
            v(b.lb.data[j]),
            v(y.data[j]),
            v(b.ub.data[j]),
        );
        let (ll, lu, ul, uu) = (
            a.lb.data[i].times(b.lb.data[j]),
            a.lb.data[i].times(b.ub.data[j]),
            a.ub.data[i].times(b.lb.data[j]),
            a.ub.data[i].times(b.ub.data[j]),
        );
        assert(c.lb.data[r] == interval::least(ll, lu, ul, uu));
        assert(c.ub.data[r] == interval::greatest(ll, lu, ul, uu));
    }
    assert(below(v, c.lb, z));
    assert(below(v, z, c.ub)) by {
        assert forall|r: int| 0 <= r < z.data.len() implies v(#[trigger] z.data[r]) <= v(
            c.ub.data[r],
        ) by {
            assert(v(c.lb.data[r]) <= v(z.data[r]));
        }
    }
    assert(c.is_point ==> below(v, c.ub, c.lb));
}

/// How far a sum of products moves when its factors move by at most `d`.
proof fn lemma_centred(
    p: spec_fn(int) -> real,
    x: spec_fn(int) -> real,
    m: spec_fn(int) -> real,
    d: spec_fn(int) -> real,
    n: nat,
)
    requires
        forall|i: int| 0 <= i < n ==> -d(i) <= #[trigger] x(i) - m(i) <= d(i),
    ensures
        ({
            let moved = sums::sum(|i: int| p(i) * x(i), n);
            let centre = sums::sum(|i: int| p(i) * m(i), n);
            let reach = sums::sum(|i: int| magnitude(p(i)) * d(i), n);
            centre - reach <= moved <= centre + reach
        }),
    decreases n,
{
    if n > 0 {
        lemma_centred(p, x, m, d, (n - 1) as nat);
        let (c, y, z, e) = (p(n - 1), x(n - 1), m(n - 1), d(n - 1));
        assert(-e <= y - z <= e);
        assert(c * z - magnitude(c) * e <= c * y <= c * z + magnitude(c) * e) by {
            exact::lemma_distribute(c, y, z);
            exact::lemma_distribute(c, e, 0real);
            if c >= 0real {
                exact::lemma_scale_le(c, y - z, e);
                exact::lemma_scale_le(c, -e, y - z);
            } else {
                exact::lemma_scale_ge(c, y - z, e);
                exact::lemma_scale_ge(c, -e, y - z);
            }
            assert(c * (-e) == -(c * e) && (-c) * e == -(c * e)) by (nonlinear_arith);
        }
    }
}

/// The magnitude of a real number.
pub open spec fn magnitude(x: real) -> real {
    if x < 0real {
        -x
    } else {
        x
    }
}

/// The centre of an interval is as far from its elements as the radius says.
proof fn lemma_radius<S: Scalar>(v: spec_fn(S) -> real, x: TensorV<S>, b: IBPV<S>, k: int)
    requires
        exact::exact(v),
        inside(v, x, b),
        0 <= k < x.data.len(),
    ensures
        ({
            let (m, n, d) = (
                interval::middle(b.ub, b.lb),
                interval::middle(b.lb, b.ub),
                interval::radius(b.ub, b.lb),
            );
            &&& -v(d.data[k]) <= v(x.data[k]) - v(m.data[k]) <= v(d.data[k])
            &&& v(m.data[k]) == v(n.data[k])
        }),
{
    exact::lemma_numbers(v);
    assert(v(b.lb.data[k]) <= v(x.data[k]));
    assert(v(x.data[k]) <= v(b.ub.data[k]));
    let (l, u, h) = (v(b.lb.data[k]), v(b.ub.data[k]), v(scalar::half::<S>()));
    exact::lemma_distribute(h, u, l);
    assert(h * u * 2real == u && h * l * 2real == l) by (nonlinear_arith)
        requires
            h * 2real == 1real,
    ;
}

/// The elements of a point.
proof fn lemma_point<S: Scalar>(v: spec_fn(S) -> real, x: TensorV<S>, b: IBPV<S>, k: int)
    requires
        inside(v, x, b),
        b.is_point,
        0 <= k < x.data.len(),
    ensures
        v(x.data[k]) == v(b.lb.data[k]),
{
    assert(v(b.lb.data[k]) <= v(x.data[k]));
    assert(v(x.data[k]) <= v(b.ub.data[k]));
    assert(v(b.ub.data[k]) <= v(b.lb.data[k]));
}

/// A product whose left operand is a point lies around the result at the centre.
proof fn lemma_left_point<S: Scalar>(
    v: spec_fn(S) -> real,
    op: BinOpV,
    x: TensorV<S>,
    y: TensorV<S>,
    a: IBPV<S>,
    b: IBPV<S>,
    out: Seq<usize>,
    r: int,
)
    requires
        exact::exact(v),
        op is Dot || op is Conv,
        inside(v, x, a),
        inside(v, y, b),
        a.is_point,
        model::bin_shape(op, x.shape, y.shape) == Ok::<Seq<usize>, Fault>(out),
        0 <= r < shape::product(out),
    ensures
        ({
            let m = model::bin_data(op, a.lb, interval::middle(b.ub, b.lb), out)[r];
            let d = model::bin_data(op, interval::magnitudes(a.lb), interval::radius(b.ub, b.lb), out)[r];
            let z = model::bin_data(op, x, y, out)[r];
            v(m) - v(d) <= v(z) <= v(m) + v(d)
        }),
{
    let n = reals::term_count(op, x.shape, y.shape);
    let left = |i: int| reals::left_index(op, x.shape, y.shape, out, r, i);
    let right = |i: int| reals::right_index(op, x.shape, y.shape, out, r, i);
    reals::lemma_bilinear(v, op, x, y, out, r);
    let (c, w, s) = (a.lb, interval::middle(b.ub, b.lb), interval::radius(b.ub, b.lb));
    let t = interval::magnitudes(c);
    reals::lemma_bilinear(v, op, c, w, out, r);
    reals::lemma_bilinear(v, op, t, s, out, r);
    let p = |i: int| v(x.data[left(i)]);
    let q = |i: int| v(y.data[right(i)]);
    let m = |i: int| v(w.data[right(i)]);
    let d = |i: int| v(s.data[right(i)]);
    assert forall|i: int| 0 <= i < n implies -d(i) <= #[trigger] q(i) - m(i) <= d(i) by {
        reals::lemma_factors(op, x.shape, y.shape, out, r, i);
        lemma_radius(v, y, b, right(i));
        lemma_point(v, x, a, left(i));
    }
    lemma_centred(p, q, m, d, n);
    let (f, g, h) = (
        |i: int| p(i) * q(i),
        |i: int| p(i) * m(i),
        |i: int| magnitude(p(i)) * d(i),
    );
    let (f2, g2, h2) = (
        |i: int|
            v(x.data[reals::left_index(op, x.shape, y.shape, out, r, i)]) * v(
                y.data[reals::right_index(op, x.shape, y.shape, out, r, i)],
            ),
        |i: int|
            v(c.data[reals::left_index(op, x.shape, y.shape, out, r, i)]) * v(
                w.data[reals::right_index(op, x.shape, y.shape, out, r, i)],
            ),
        |i: int|
            v(t.data[reals::left_index(op, x.shape, y.shape, out, r, i)]) * v(
                s.data[reals::right_index(op, x.shape, y.shape, out, r, i)],
            ),
    );
    assert forall|i: int| 0 <= i < n implies #[trigger] f(i) == f2(i) && g(i) == g2(i) && h(i)
        == h2(i) by {
        reals::lemma_factors(op, x.shape, y.shape, out, r, i);
        lemma_radius(v, y, b, right(i));
        lemma_point(v, x, a, left(i));
    }
    sums::lemma_sum_same(f, f2, n);
    assert forall|i: int| 0 <= i < n implies #[trigger] g(i) == g2(i) by {
        assert(f(i) == f2(i));
    }
    sums::lemma_sum_same(g, g2, n);
    assert forall|i: int| 0 <= i < n implies #[trigger] h(i) == h2(i) by {
        assert(f(i) == f2(i));
    }
    sums::lemma_sum_same(h, h2, n);
}

/// A product whose right operand is a point lies around the result at the centre.
proof fn lemma_right_point<S: Scalar>(
    v: spec_fn(S) -> real,
    op: BinOpV,
    x: TensorV<S>,
    y: TensorV<S>,
    a: IBPV<S>,
    b: IBPV<S>,
    out: Seq<usize>,
    r: int,
)
    requires
        exact::exact(v),
        op is Dot || op is Conv,
        inside(v, x, a),
        inside(v, y, b),
        b.is_point,
        model::bin_shape(op, x.shape, y.shape) == Ok::<Seq<usize>, Fault>(out),
        0 <= r < shape::product(out),
    ensures
        ({
            let m = model::bin_data(op, interval::middle(a.lb, a.ub), b.lb, out)[r];
            let d = model::bin_data(op, interval::radius(a.ub, a.lb), interval::magnitudes(b.lb), out)[r];
            let z = model::bin_data(op, x, y, out)[r];
            v(m) - v(d) <= v(z) <= v(m) + v(d)
        }),
{
    let n = reals::term_count(op, x.shape, y.shape);
    let left = |i: int| reals::left_index(op, x.shape, y.shape, out, r, i);
    let right = |i: int| reals::right_index(op, x.shape, y.shape, out, r, i);
    reals::lemma_bilinear(v, op, x, y, out, r);
    let (c, w, s) = (b.lb, interval::middle(a.lb, a.ub), interval::radius(a.ub, a.lb));
    let t = interval::magnitudes(c);
    reals::lemma_bilinear(v, op, w, c, out, r);
    reals::lemma_bilinear(v, op, s, t, out, r);
    let p = |i: int| v(y.data[right(i)]);
    let q = |i: int| v(x.data[left(i)]);
    let m = |i: int| v(w.data[left(i)]);
    let d = |i: int| v(s.data[left(i)]);
    assert forall|i: int| 0 <= i < n implies -d(i) <= #[trigger] q(i) - m(i) <= d(i) by {
        reals::lemma_factors(op, x.shape, y.shape, out, r, i);
        lemma_radius(v, x, a, left(i));
        lemma_point(v, y, b, right(i));
    }
    lemma_centred(p, q, m, d, n);
    let (f, g, h) = (
        |i: int| p(i) * q(i),
        |i: int| p(i) * m(i),
        |i: int| magnitude(p(i)) * d(i),
    );
    let (f2, g2, h2) = (
        |i: int|
            v(x.data[reals::left_index(op, x.shape, y.shape, out, r, i)]) * v(
                y.data[reals::right_index(op, x.shape, y.shape, out, r, i)],
            ),
        |i: int|
            v(w.data[reals::left_index(op, x.shape, y.shape, out, r, i)]) * v(
                c.data[reals::right_index(op, x.shape, y.shape, out, r, i)],
            ),
        |i: int|
            v(s.data[reals::left_index(op, x.shape, y.shape, out, r, i)]) * v(
                t.data[reals::right_index(op, x.shape, y.shape, out, r, i)],
            ),
    );
    assert forall|i: int| 0 <= i < n implies #[trigger] f(i) == f2(i) && g(i) == g2(i) && h(i)
        == h2(i) by {
        reals::lemma_factors(op, x.shape, y.shape, out, r, i);
        lemma_radius(v, x, a, left(i));
        lemma_point(v, y, b, right(i));
        exact::lemma_distribute(p(i), q(i), 0real);
        exact::lemma_distribute(p(i), m(i), 0real);
        exact::lemma_distribute(magnitude(p(i)), d(i), 0real);
    }
    sums::lemma_sum_same(f, f2, n);
    assert forall|i: int| 0 <= i < n implies #[trigger] g(i) == g2(i) by {
        assert(f(i) == f2(i));
    }
    sums::lemma_sum_same(g, g2, n);
    assert forall|i: int| 0 <= i < n implies #[trigger] h(i) == h2(i) by {
        assert(f(i) == f2(i));
    }
    sums::lemma_sum_same(h, h2, n);
}

/// A contraction or a convolution of a point with an interval lies around the result at the
/// centre.
proof fn lemma_linear_inside<S: Scalar>(
    v: spec_fn(S) -> real,
    op: BinOpV,
    x: TensorV<S>,
    y: TensorV<S>,
    a: IBPV<S>,
    b: IBPV<S>,
)
    requires
        exact::exact(v),
        op is Dot || op is Conv,
        inside(v, x, a),
        inside(v, y, b),
        a.is_point || b.is_point,
        model::bin_tensor(op, x, y) is Ok,
    ensures
        interval::linear_interval(op, a, b) is Ok,
        inside(
            v,
            model::bin_tensor(op, x, y)->Ok_0,
            interval::linear_interval(op, a, b)->Ok_0,
        ),
{
    let out = model::bin_shape(op, x.shape, y.shape)->Ok_0;
    let z = model::bin_tensor(op, x, y)->Ok_0;
    let c = interval::linear_interval(op, a, b)->Ok_0;
    reals::lemma_bilinear_len(op, x, y, out);
    if a.is_point {
        reals::lemma_bilinear_len(op, a.lb, interval::middle(b.ub, b.lb), out);
    } else {
        reals::lemma_bilinear_len(op, interval::middle(a.lb, a.ub), b.lb, out);
    }
    assert forall|r: int| 0 <= r < c.lb.data.len() implies v(#[trigger] c.lb.data[r]) <= v(
        z.data[r],
    ) && v(z.data[r]) <= v(c.ub.data[r]) by {
        if a.is_point {
            lemma_left_point(v, op, x, y, a, b, out, r);
        } else {
            lemma_right_point(v, op, x, y, a, b, out, r);
        }
    }
    assert(below(v, c.lb, z));
    assert(below(v, z, c.ub)) by {
        assert forall|r: int| 0 <= r < z.data.len() implies v(#[trigger] z.data[r]) <= v(
            c.ub.data[r],
        ) by {
            assert(v(c.lb.data[r]) <= v(z.data[r]));
        }
    }
    assert(c.is_point ==> below(v, c.ub, c.lb));
}

/// The bounds of an operation on two intervals hold the results on the tensors in them.
pub proof fn lemma_bin_inside<S: Scalar>(
    v: spec_fn(S) -> real,
    op: BinOpV,
    x: TensorV<S>,
    y: TensorV<S>,
    a: IBPV<S>,
    b: IBPV<S>,
)
    requires
        exact::exact(v),
        inside(v, x, a),
        inside(v, y, b),
        bin_bounded(op, a, b),
        model::bin_tensor(op, x, y) is Ok,
        interval::bin_interval(op, a, b) is Ok,
    ensures
        inside(v, model::bin_tensor(op, x, y)->Ok_0, interval::bin_interval(op, a, b)->Ok_0),
{
    match op {
        BinOpV::Add => {
            lemma_add_rises(v, a.lb, b.lb, x, y);
            lemma_add_rises(v, x, y, a.ub, b.ub);
            if a.is_point && b.is_point {
                lemma_add_rises(v, a.ub, b.ub, a.lb, b.lb);
            }
        },
        BinOpV::Mul => lemma_mul_inside(v, x, y, a, b),
        BinOpV::Dot | BinOpV::Conv(_) => lemma_linear_inside(v, op, x, y, a, b),
        _ => {},
    }
}

// ---- selection ----
/// Whether intervals bound a selection: no element of the condition may be zero strictly between
/// ends that are not.
pub open spec fn select_bounded<S>(v: spec_fn(S) -> real, p: IBPV<S>) -> bool {
    forall|k: int|
        0 <= k < p.lb.data.len() ==> !(v(#[trigger] p.lb.data[k]) < 0real && 0real < v(
            p.ub.data[k],
        ))
}

/// Whether intervals decide or hold both sides of a condition: where it may be zero and may not,
/// one end is zero and the other is not.
proof fn lemma_condition<S: Scalar>(v: spec_fn(S) -> real, q: TensorV<S>, p: IBPV<S>, k: int)
    requires
        exact::exact(v),
        inside(v, q, p),
        select_bounded(v, p),
        0 <= k < q.data.len(),
    ensures
        v(q.data[k]) == 0real ==> v(p.lb.data[k]) == 0real || v(p.ub.data[k]) == 0real,
        v(q.data[k]) != 0real ==> v(p.lb.data[k]) != 0real || v(p.ub.data[k]) != 0real,
        p.is_point ==> v(p.lb.data[k]) == v(q.data[k]) && v(p.ub.data[k]) == v(q.data[k]),
{
    assert(v(p.lb.data[k]) <= v(q.data[k]));
    assert(v(q.data[k]) <= v(p.ub.data[k]));
    if p.is_point {
        assert(v(p.ub.data[k]) <= v(p.lb.data[k]));
    }
}

/// The bounds of a selection hold the selections from the tensors in the intervals.
#[verifier::rlimit(40)]
pub proof fn lemma_select_inside<S: Scalar>(
    v: spec_fn(S) -> real,
    q: TensorV<S>,
    x: TensorV<S>,
    y: TensorV<S>,
    p: IBPV<S>,
    a: IBPV<S>,
    b: IBPV<S>,
)
    requires
        exact::exact(v),
        inside(v, q, p),
        inside(v, x, a),
        inside(v, y, b),
        select_bounded(v, p),
        model::select_tensor(q, x, y) is Ok,
        interval::select_interval(p, a, b) is Ok,
    ensures
        inside(
            v,
            model::select_tensor(q, x, y)->Ok_0,
            interval::select_interval(p, a, b)->Ok_0,
        ),
{
    let out = model::select_shape(q.shape, x.shape, y.shape)->Ok_0;
    let z = model::select_tensor(q, x, y)->Ok_0;
    let c = interval::select_interval(p, a, b)->Ok_0;
    exact::lemma_numbers(v);
    shape::lemma_broadcast_expands(q.shape, x.shape);
    let mid = shape::broadcast(q.shape, x.shape)->0;
    shape::lemma_broadcast_expands(mid, y.shape);
    shape::lemma_expands_trans(q.shape, mid, out);
    shape::lemma_expands_trans(x.shape, mid, out);
    assert forall|r: int| 0 <= r < shape::product(out) implies v(#[trigger] c.lb.data[r]) <= v(
        z.data[r],
    ) && v(z.data[r]) <= v(c.ub.data[r]) by {
        shape::lemma_source_index(r, out, q.shape);
        shape::lemma_source_index(r, out, x.shape);
        shape::lemma_source_index(r, out, y.shape);
        let (k, i, j) = (
            shape::source_index(r, out, q.shape),
            shape::source_index(r, out, x.shape),
            shape::source_index(r, out, y.shape),
        );
        lemma_condition(v, q, p, k);
        assert(v(a.lb.data[i]) <= v(x.data[i]));
        assert(v(x.data[i]) <= v(a.ub.data[i]));
        assert(v(b.lb.data[j]) <= v(y.data[j]));
        assert(v(y.data[j]) <= v(b.ub.data[j]));
    }
    assert(below(v, c.lb, z));
    assert(below(v, z, c.ub)) by {
        assert forall|r: int| 0 <= r < z.data.len() implies v(#[trigger] z.data[r]) <= v(
            c.ub.data[r],
        ) by {
            assert(v(c.lb.data[r]) <= v(z.data[r]));
        }
    }
    assert(c.is_point ==> below(v, c.ub, c.lb));
}

// ---- graphs ----
/// Whether the constants among the operands of an operation fill their shapes.
pub open spec fn solid<S>(p: PrimV<S>) -> bool {
    forall|i: int|
        0 <= i < nn::operands_of(p).len() ==> ((#[trigger] nn::operands_of(p)[i]).value matches Some(
            k,
        ) ==> reals::full(k))
}

/// Whether the variables of one environment lie in the intervals of another.
pub open spec fn all_inside<S>(
    v: spec_fn(S) -> real,
    e: Map<Seq<char>, TensorV<S>>,
    b: Map<Seq<char>, IBPV<S>>,
) -> bool {
    &&& e.dom() == b.dom()
    &&& forall|x: Seq<char>| e.dom().contains(x) ==> inside(v, #[trigger] e[x], b[x])
}

/// Whether the intervals of an environment bound an operation.
pub open spec fn prim_bounded<S: Scalar>(
    v: spec_fn(S) -> real,
    b: Map<Seq<char>, IBPV<S>>,
    p: PrimV<S>,
) -> bool {
    match p {
        PrimV::Un(op, a) => env::resolved::<S, IBPTensor<S>>(b, a) matches Ok(x) ==> un_bounded(
            v,
            op,
            x,
        ),
        PrimV::Bin(op, a, c) => match (
            env::resolved::<S, IBPTensor<S>>(b, a),
            env::resolved::<S, IBPTensor<S>>(b, c),
        ) {
            (Ok(x), Ok(y)) => bin_bounded(op, x, y),
            _ => true,
        },
        PrimV::Select(q, _, _) => env::resolved::<S, IBPTensor<S>>(b, q) matches Ok(x)
            ==> select_bounded(v, x),
    }
}

/// Whether intervals bound all operations from equation `i` on.
pub open spec fn all_bounded<S: Scalar>(
    v: spec_fn(S) -> real,
    eqns: Seq<EqnV<S>>,
    b: Map<Seq<char>, IBPV<S>>,
    i: nat,
) -> bool
    decreases eqns.len() - i,
{
    i >= eqns.len() || {
        &&& prim_bounded(v, b, eqns[i as int].prim)
        &&& eval::prim_value::<S, IBPTensor<S>>((), b, eqns[i as int].prim).1 matches Ok(x)
            ==> all_bounded(v, eqns, b.insert(eqns[i as int].out.name, x), i + 1)
    }
}

/// What an operand stands for lies in its interval.
pub proof fn lemma_resolved_inside<S: Scalar>(
    v: spec_fn(S) -> real,
    e: Map<Seq<char>, TensorV<S>>,
    b: Map<Seq<char>, IBPV<S>>,
    a: AtomV<S>,
)
    requires
        exact::exact(v),
        all_inside(v, e, b),
        a.value matches Some(k) ==> reals::full(k),
        env::resolved::<S, Tensor<S>>(e, a) is Ok,
    ensures
        env::resolved::<S, IBPTensor<S>>(b, a) is Ok,
        inside(
            v,
            env::resolved::<S, Tensor<S>>(e, a)->Ok_0,
            env::resolved::<S, IBPTensor<S>>(b, a)->Ok_0,
        ),
{
}

/// The result of an operation lies in the interval of its result.
pub proof fn lemma_prim_inside<S: Scalar>(
    v: spec_fn(S) -> real,
    e: Map<Seq<char>, TensorV<S>>,
    b: Map<Seq<char>, IBPV<S>>,
    p: PrimV<S>,
)
    requires
        exact::exact(v),
        all_inside(v, e, b),
        solid(p),
        prim_bounded(v, b, p),
        eval::prim_value::<S, Tensor<S>>((), e, p).1 is Ok,
        eval::prim_value::<S, IBPTensor<S>>((), b, p).1 is Ok,
    ensures
        inside(
            v,
            eval::prim_value::<S, Tensor<S>>((), e, p).1->Ok_0,
            eval::prim_value::<S, IBPTensor<S>>((), b, p).1->Ok_0,
        ),
{
    match p {
        PrimV::Un(op, a) => {
            assert(nn::operands_of(p)[0] == a);
            lemma_resolved_inside(v, e, b, a);
            lemma_un_inside(
                v,
                op,
                env::resolved::<S, Tensor<S>>(e, a)->Ok_0,
                env::resolved::<S, IBPTensor<S>>(b, a)->Ok_0,
            );
        },
        PrimV::Bin(op, a, c) => {
            assert(nn::operands_of(p)[0] == a);
            assert(nn::operands_of(p)[1] == c);
            lemma_resolved_inside(v, e, b, a);
            lemma_resolved_inside(v, e, b, c);
            lemma_bin_inside(
                v,
                op,
                env::resolved::<S, Tensor<S>>(e, a)->Ok_0,
                env::resolved::<S, Tensor<S>>(e, c)->Ok_0,
                env::resolved::<S, IBPTensor<S>>(b, a)->Ok_0,
                env::resolved::<S, IBPTensor<S>>(b, c)->Ok_0,
            );
        },
        PrimV::Select(q, a, c) => {
            assert(nn::operands_of(p)[0] == q);
            assert(nn::operands_of(p)[1] == a);
            assert(nn::operands_of(p)[2] == c);
            lemma_resolved_inside(v, e, b, q);
            lemma_resolved_inside(v, e, b, a);
            lemma_resolved_inside(v, e, b, c);
            lemma_select_inside(
                v,
                env::resolved::<S, Tensor<S>>(e, q)->Ok_0,
                env::resolved::<S, Tensor<S>>(e, a)->Ok_0,
                env::resolved::<S, Tensor<S>>(e, c)->Ok_0,
                env::resolved::<S, IBPTensor<S>>(b, q)->Ok_0,
                env::resolved::<S, IBPTensor<S>>(b, a)->Ok_0,
                env::resolved::<S, IBPTensor<S>>(b, c)->Ok_0,
            );
        },
    }
}

/// Every variable that a graph computes lies in the interval that is propagated for it.
pub proof fn lemma_forward_inside<S: Scalar>(
    v: spec_fn(S) -> real,
    eqns: Seq<EqnV<S>>,
    e: Map<Seq<char>, TensorV<S>>,
    b: Map<Seq<char>, IBPV<S>>,
    i: nat,
)
    requires
        exact::exact(v),
        all_inside(v, e, b),
        forall|j: int| 0 <= j < eqns.len() ==> solid((#[trigger] eqns[j]).prim),
        all_bounded(v, eqns, b, i),
        eval::forward::<S, Tensor<S>>((), eqns, e, i).1 is Ok,
        eval::forward::<S, IBPTensor<S>>((), eqns, b, i).1 is Ok,
    ensures
        all_inside(
            v,
            eval::forward::<S, Tensor<S>>((), eqns, e, i).1->Ok_0,
            eval::forward::<S, IBPTensor<S>>((), eqns, b, i).1->Ok_0,
        ),
    decreases eqns.len() - i,
{
    if i < eqns.len() {
        let (p, out) = (eqns[i as int].prim, eqns[i as int].out.name);
        lemma_prim_inside(v, e, b, p);
        let (x, y) = (
            eval::prim_value::<S, Tensor<S>>((), e, p).1->Ok_0,
            eval::prim_value::<S, IBPTensor<S>>((), b, p).1->Ok_0,
        );
        let (e2, b2) = (e.insert(out, x), b.insert(out, y));
        assert(e2.dom() =~= b2.dom());
        lemma_forward_inside(v, eqns, e2, b2, i + 1);
    }
}

/// Inputs that lie in boxes are bound to variables that do.
pub proof fn lemma_bound_inside<S: Scalar>(
    v: spec_fn(S) -> real,
    vars: Seq<AtomV<S>>,
    xs: Seq<TensorV<S>>,
    boxes: Seq<IBPV<S>>,
    k: nat,
)
    requires
        k <= xs.len(),
        xs.len() == boxes.len(),
        forall|i: int| 0 <= i < xs.len() ==> inside(v, #[trigger] xs[i], boxes[i]),
    ensures
        all_inside(v, eval::bound(vars, xs, k), eval::bound(vars, boxes, k)),
    decreases k,
{
    if k > 0 {
        lemma_bound_inside(v, vars, xs, boxes, (k - 1) as nat);
        let (e, b) = (
            eval::bound(vars, xs, (k - 1) as nat),
            eval::bound(vars, boxes, (k - 1) as nat),
        );
        assert(inside(v, xs[k - 1], boxes[k - 1]));
        assert(eval::bound(vars, xs, k).dom() =~= eval::bound(vars, boxes, k).dom());
    } else {
        assert(eval::bound(vars, xs, k).dom() =~= eval::bound(vars, boxes, k).dom());
    }
}

/// The gathered variables of two environments.
proof fn lemma_gathered_inside<S: Scalar>(
    v: spec_fn(S) -> real,
    vars: Seq<AtomV<S>>,
    e: Map<Seq<char>, TensorV<S>>,
    b: Map<Seq<char>, IBPV<S>>,
    k: nat,
)
    requires
        all_inside(v, e, b),
        eval::gathered(vars, e, k) is Ok,
    ensures
        eval::gathered(vars, b, k) is Ok,
        eval::gathered(vars, e, k)->Ok_0.len() == k,
        eval::gathered(vars, b, k)->Ok_0.len() == k,
        forall|i: int|
            0 <= i < k ==> inside(
                v,
                #[trigger] eval::gathered(vars, e, k)->Ok_0[i],
                eval::gathered(vars, b, k)->Ok_0[i],
            ),
    decreases k,
{
    if k > 0 {
        lemma_gathered_inside(v, vars, e, b, (k - 1) as nat);
        let (p, q) = (
            eval::gathered(vars, e, (k - 1) as nat)->Ok_0,
            eval::gathered(vars, b, (k - 1) as nat)->Ok_0,
        );
        assert forall|i: int| 0 <= i < k implies inside(
            v,
            #[trigger] eval::gathered(vars, e, k)->Ok_0[i],
            eval::gathered(vars, b, k)->Ok_0[i],
        ) by {
            if i < k - 1 {
                assert(inside(v, p[i], q[i]));
            }
        }
    }
}

/// Interval bound propagation is sound in exact arithmetic: where each input lies in its box,
/// each output lies in the interval that is propagated to it.
pub proof fn lemma_ibp_sound<S: Scalar>(
    v: spec_fn(S) -> real,
    g: GraphV<S>,
    xs: Seq<TensorV<S>>,
    boxes: Seq<IBPV<S>>,
)
    requires
        exact::exact(v),
        forall|j: int| 0 <= j < g.equations.len() ==> solid((#[trigger] g.equations[j]).prim),
        xs.len() == boxes.len(),
        forall|i: int| 0 <= i < xs.len() ==> inside(v, #[trigger] xs[i], boxes[i]),
        all_bounded(
            v,
            g.equations,
            eval::bound(g.invars, boxes, eval::shorter(g.invars.len(), boxes.len())),
            0,
        ),
        eval::evaluated::<S, Tensor<S>>((), g, xs).1 is Ok,
        eval::evaluated::<S, IBPTensor<S>>((), g, boxes).1 is Ok,
    ensures
        ({
            let ys = eval::evaluated::<S, Tensor<S>>((), g, xs).1->Ok_0;
            let bounds = eval::evaluated::<S, IBPTensor<S>>((), g, boxes).1->Ok_0;
            &&& ys.len() == bounds.len()
            &&& forall|i: int| 0 <= i < ys.len() ==> inside(v, #[trigger] ys[i], bounds[i])
        }),
{
    let n = eval::shorter(g.invars.len(), xs.len());
    lemma_bound_inside(v, g.invars, xs, boxes, n);
    let (e, b) = (eval::bound(g.invars, xs, n), eval::bound(g.invars, boxes, n));
    lemma_forward_inside(v, g.equations, e, b, 0);
    lemma_gathered_inside(
        v,
        g.outvars,
        eval::forward::<S, Tensor<S>>((), g.equations, e, 0).1->Ok_0,
        eval::forward::<S, IBPTensor<S>>((), g.equations, b, 0).1->Ok_0,
        g.outvars.len(),
    );
}

} // verus!
