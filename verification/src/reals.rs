//! What the sums in the tensor operations are, read as real numbers.

use vstd::prelude::*;
use crate::exact;
use crate::linalg;
use crate::manipulate;
use crate::model;
use crate::model::{BinOpV, Fault, TensorV};
use crate::scalar::Scalar;
use crate::shape;
use crate::sums;

verus! {

/// Whether the elements of a tensor fill its shape.
pub open spec fn full<S>(t: TensorV<S>) -> bool {
    t.data.len() == shape::product(t.shape)
}

/// The index of element `i` on the line through element `q` of a reduced tensor.
pub open spec fn on_line(a: int, inner: int, q: int, i: int) -> int {
    ((q / inner) * a + i) * inner + q % inner
}

/// A sum along a line.
pub proof fn lemma_line_sum<S: Scalar>(
    v: spec_fn(S) -> real,
    data: Seq<S>,
    a: int,
    inner: int,
    q: int,
    n: nat,
)
    requires
        exact::exact(v),
    ensures
        v(model::line_sum(data, a, inner, q, n)) == sums::sum(
            |i: int| v(data[on_line(a, inner, q, i)]),
            n,
        ),
    decreases n,
{
    exact::lemma_numbers(v);
    if n > 0 {
        lemma_line_sum(v, data, a, inner, q, (n - 1) as nat);
    }
}

/// The indices on a line are in range.
pub proof fn lemma_on_line(outer: int, a: int, inner: int, q: int, i: int)
    requires
        0 <= q < outer * inner,
        0 <= inner,
        0 <= i < a,
    ensures
        0 <= on_line(a, inner, q, i) < outer * a * inner,
        inner > 0,
        0 <= q / inner < outer,
        on_line(a, inner, q, i) % inner == q % inner,
        on_line(a, inner, q, i) / inner % a == i,
        on_line(a, inner, q, i) / inner / a == q / inner,
{
    manipulate::lemma_row(q, outer, inner);
    manipulate::lemma_cell(q / inner, i, outer, a);
    manipulate::lemma_cell((q / inner) * a + i, q % inner, outer * a, inner);
}

/// A sum over a window.
pub proof fn lemma_window_sum<S: Scalar>(
    v: spec_fn(S) -> real,
    t: TensorV<S>,
    window: Seq<usize>,
    stride: Seq<usize>,
    out: Seq<usize>,
    k: int,
    n: nat,
)
    requires
        exact::exact(v),
    ensures
        v(model::window_sum(t, window, stride, out, k, n)) == sums::sum(
            |j: int|
                v(
                    t.data[shape::ravel(
                        model::window_coordinates(window, stride, out, k, j),
                        t.shape,
                    )],
                ),
            n,
        ),
    decreases n,
{
    exact::lemma_numbers(v);
    if n > 0 {
        lemma_window_sum(v, t, window, stride, out, k, (n - 1) as nat);
    }
}

/// A sum of products in a contraction.
pub proof fn lemma_dot_sum<S: Scalar>(
    v: spec_fn(S) -> real,
    a: Seq<S>,
    b: Seq<S>,
    k: int,
    n: int,
    p: int,
    r: int,
    m: nat,
)
    requires
        exact::exact(v),
    ensures
        v(model::dot_sum(a, b, k, n, p, r, m)) == sums::sum(
            |i: int| v(a[(r / n / p) * k + i]) * v(b[((r / n % p) * k + i) * n + r % n]),
            m,
        ),
    decreases m,
{
    exact::lemma_numbers(v);
    if m > 0 {
        lemma_dot_sum(v, a, b, k, n, p, r, (m - 1) as nat);
    }
}

/// A sum of products in a convolution.
pub proof fn lemma_conv_sum<S: Scalar>(
    v: spec_fn(S) -> real,
    a: TensorV<S>,
    k: TensorV<S>,
    s: int,
    out: Seq<usize>,
    r: int,
    m: nat,
)
    requires
        exact::exact(v),
    ensures
        v(model::conv_sum(a, k, s, out, r, m)) == sums::sum(
            |u: int| v(model::conv_term(a, k, s, out, r, u)),
            m,
        ),
    decreases m,
{
    exact::lemma_numbers(v);
    if m > 0 {
        lemma_conv_sum(v, a, k, s, out, r, (m - 1) as nat);
    }
}

/// The shape of a reduced tensor, which its elements fill.
pub proof fn lemma_sum_axes_full<S: Scalar>(t: TensorV<S>, axes: Seq<isize>, n: int, k: nat)
    requires
        full(t),
    ensures
        full(model::sum_axes(t, axes, n, k)),
        model::sum_axes(t, axes, n, k).shape == model::drop_axes(t.shape, axes, n, k),
    decreases k,
{
    if k > 0 {
        if model::names_axis(axes, n, k - 1) {
            lemma_sum_axes_full(model::sum_axis(t, k - 1), axes, n, (k - 1) as nat);
        } else {
            lemma_sum_axes_full(t, axes, n, (k - 1) as nat);
        }
    }
}

// ---- products of two tensors ----
/// The number of products that each element of the result of an operation sums up.
pub open spec fn term_count(op: BinOpV, a: Seq<usize>, b: Seq<usize>) -> nat {
    match op {
        BinOpV::Dot => if a.len() == 0 || b.len() == 0 {
            1
        } else {
            a.last() as nat
        },
        BinOpV::Conv(_) => shape::product(b.subrange(1, 4)),
        _ => 1,
    }
}

/// The left factor of product `i` at element `r` of the result, of shape `out`.
pub open spec fn left_index(
    op: BinOpV,
    a: Seq<usize>,
    b: Seq<usize>,
    out: Seq<usize>,
    r: int,
    i: int,
) -> int {
    match op {
        BinOpV::Dot => if a.len() == 0 {
            0
        } else if b.len() == 0 {
            r
        } else {
            (r / (model::dot_columns(b) as int) / (model::dot_planes(b) as int)) * (a.last() as int)
                + i
        },
        BinOpV::Conv(stride) => {
            let (ow, oh, oc) = (out[3] as int, out[2] as int, out[1] as int);
            let (kw, kh) = (b[3] as int, b[2] as int);
            let s = (stride as usize) as int;
            model::at4(
                a,
                r / ow / oh / oc,
                i / kw / kh,
                s * (r / ow % oh) + i / kw % kh,
                s * (r % ow) + i % kw,
            )
        },
        _ => shape::source_index(r, out, a),
    }
}

/// The right factor of product `i` at element `r` of the result, of shape `out`.
pub open spec fn right_index(
    op: BinOpV,
    a: Seq<usize>,
    b: Seq<usize>,
    out: Seq<usize>,
    r: int,
    i: int,
) -> int {
    match op {
        BinOpV::Dot => if a.len() == 0 {
            r
        } else if b.len() == 0 {
            0
        } else {
            let (n, p) = (model::dot_columns(b) as int, model::dot_planes(b) as int);
            ((r / n % p) * (a.last() as int) + i) * n + r % n
        },
        BinOpV::Conv(stride) => {
            let (ow, oh, oc) = (out[3] as int, out[2] as int, out[1] as int);
            let (kw, kh) = (b[3] as int, b[2] as int);
            model::at4(b, r / ow / oh % oc, i / kw / kh, i / kw % kh, i % kw)
        },
        _ => shape::source_index(r, out, b),
    }
}

/// Whether an operation multiplies elements of two tensors.
pub open spec fn is_bilinear(op: BinOpV) -> bool {
    op is Mul || op is Dot || op is Conv
}

/// The factors exist.
#[verifier::rlimit(40)]
pub proof fn lemma_factors(
    op: BinOpV,
    a: Seq<usize>,
    b: Seq<usize>,
    out: Seq<usize>,
    r: int,
    i: int,
)
    requires
        is_bilinear(op) || op is Add,
        model::bin_shape(op, a, b) == Ok::<Seq<usize>, Fault>(out),
        0 <= r < shape::product(out),
        0 <= i < term_count(op, a, b),
    ensures
        0 <= left_index(op, a, b, out, r, i) < shape::product(a),
        0 <= right_index(op, a, b, out, r, i) < shape::product(b),
{
    match op {
        BinOpV::Dot => if a.len() > 0 && b.len() > 0 {
            linalg::lemma_dot_sizes(a, b, out);
            linalg::lemma_dot_index(
                shape::product(a.drop_last()) as int,
                model::dot_planes(b) as int,
                a.last() as int,
                model::dot_columns(b) as int,
                r,
                i,
            );
        } else {
            assert(shape::product(Seq::<usize>::empty()) == 1);
            if a.len() == 0 {
                assert(a =~= Seq::<usize>::empty());
            } else {
                assert(b =~= Seq::<usize>::empty());
            }
        },
        BinOpV::Conv(stride) => {
            linalg::lemma_product4(b);
            linalg::lemma_product4(out);
            linalg::lemma_split3(i, b[1] as int, b[2] as int, b[3] as int);
            let s = (stride as usize) as int;
            let (h, w) = ((a[2] - b[2]) / s + 1, (a[3] - b[3]) / s + 1);
            lemma_quotient(a[2] - b[2], s);
            lemma_quotient(a[3] - b[3], s);
            assert(out[2] == h && out[3] == w);
            linalg::lemma_split4(r, out);
            let (ow, oh, oc) = (out[3] as int, out[2] as int, out[1] as int);
            let (kw, kh) = (b[3] as int, b[2] as int);
            linalg::lemma_reach(a[2] as int, b[2] as int, s, r / ow % oh, i / kw % kh);
            linalg::lemma_reach(a[3] as int, b[3] as int, s, r % ow, i % kw);
            linalg::lemma_at4(
                a,
                r / ow / oh / oc,
                i / kw / kh,
                s * (r / ow % oh) + i / kw % kh,
                s * (r % ow) + i % kw,
            );
            linalg::lemma_at4(b, r / ow / oh % oc, i / kw / kh, i / kw % kh, i % kw);
        },
        _ => {
            shape::lemma_broadcast_expands(a, b);
            shape::lemma_source_index(r, out, a);
            shape::lemma_source_index(r, out, b);
        },
    }
}

/// A quotient does not exceed the dividend.
proof fn lemma_quotient(d: int, s: int)
    by (nonlinear_arith)
    requires
        0 <= d,
        0 < s,
    ensures
        0 <= d / s <= d,
{
}

/// The elements of a product of two tensors fill its shape.
pub proof fn lemma_bilinear_len<S: Scalar>(op: BinOpV, a: TensorV<S>, b: TensorV<S>, out: Seq<usize>)
    requires
        is_bilinear(op) || op is Add,
        model::bin_shape(op, a.shape, b.shape) == Ok::<Seq<usize>, Fault>(out),
        full(a),
        full(b),
    ensures
        model::bin_data(op, a, b, out).len() == shape::product(out),
{
}

/// The elements of a product of two tensors are sums of products.
pub proof fn lemma_bilinear<S: Scalar>(
    v: spec_fn(S) -> real,
    op: BinOpV,
    a: TensorV<S>,
    b: TensorV<S>,
    out: Seq<usize>,
    r: int,
)
    requires
        exact::exact(v),
        is_bilinear(op),
        model::bin_shape(op, a.shape, b.shape) == Ok::<Seq<usize>, Fault>(out),
        full(a),
        full(b),
        0 <= r < shape::product(out),
    ensures
        model::bin_data(op, a, b, out).len() == shape::product(out),
        v(model::bin_data(op, a, b, out)[r]) == sums::sum(
            |i: int|
                v(a.data[left_index(op, a.shape, b.shape, out, r, i)]) * v(
                    b.data[right_index(op, a.shape, b.shape, out, r, i)],
                ),
            term_count(op, a.shape, b.shape),
        ),
{
    let f = |i: int|
        v(a.data[left_index(op, a.shape, b.shape, out, r, i)]) * v(
            b.data[right_index(op, a.shape, b.shape, out, r, i)],
        );
    let n = term_count(op, a.shape, b.shape);
    match op {
        BinOpV::Dot => if a.shape.len() > 0 && b.shape.len() > 0 {
            let (k, c, p) = (
                a.shape.last() as int,
                model::dot_columns(b.shape) as int,
                model::dot_planes(b.shape) as int,
            );
            lemma_dot_sum(v, a.data, b.data, k, c, p, r, n);
            sums::lemma_sum_same(
                |i: int|
                    v(a.data[(r / c / p) * k + i]) * v(b.data[((r / c % p) * k + i) * c + r % c]),
                f,
                n,
            );
        } else {
            assert(sums::sum(f, 0) == 0real);
            assert(sums::sum(f, 1) == f(0));
            let (x, y) = (v(a.data[0]), v(b.data[r]));
            assert(f(0) == v(model::bin_data(op, a, b, out)[r])) by {
                if a.shape.len() > 0 {
                    exact::lemma_distribute(v(b.data[0]), v(a.data[r]), 0real);
                }
            }
        },
        BinOpV::Conv(stride) => {
            let s = (stride as usize) as int;
            lemma_conv_sum(v, a, b, s, out, r, n);
            sums::lemma_sum_same(
                |u: int| v(model::conv_term(a, b, s, out, r, u)),
                f,
                n,
            );
        },
        _ => {
            assert(sums::sum(f, 0) == 0real);
            assert(sums::sum(f, 1) == f(0));
        },
    }
}

} // verus!
