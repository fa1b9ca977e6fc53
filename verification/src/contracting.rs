//! What contractions pass on: their cotangents against changes of their operands, in exact
//! arithmetic.

use vstd::prelude::*;
use crate::chaining::{suits, turned, turns};
use crate::env;
use crate::exact;
use crate::matrices;
use crate::model;
use crate::model::{BinOpV, Fault, TensorV, UnOpV};
use crate::nn::{AtomV, EqnV, PrimV};
use crate::pairing;
use crate::passing;
use crate::passing::{changes, has_value, shift, shifted};
use crate::reals;
use crate::scalar::Scalar;
use crate::shape;
use crate::sums;
use crate::support;
use crate::tensor::Tensor;
use crate::unspread;
use crate::value::{Reg, StepV};
use crate::vjp;

verus! {

// ---- sums ----
/// One row of a triple sum.
pub(crate) proof fn lemma_row(
    t: spec_fn(int) -> real,
    x: spec_fn(int) -> real,
    y: spec_fn(int, int) -> real,
    n: nat,
    m: nat,
)
    ensures
        sums::sum(|j: int| t(j) * sums::sum(|k: int| x(k) * y(k, j), n), m) == sums::sum(
            |k: int| sums::sum(|j: int| t(j) * y(k, j), m) * x(k),
            n,
        ),
{
    let q = |j: int, k: int| t(j) * (x(k) * y(k, j));
    let a = |j: int| t(j) * sums::sum(|k: int| x(k) * y(k, j), n);
    let b = |j: int| sums::sum(|k: int| q(j, k), n);
    assert forall|j: int| 0 <= j < m implies #[trigger] a(j) == b(j) by {
        let f = |k: int| x(k) * y(k, j);
        let h = |k: int| q(j, k);
        sums::lemma_sum_scale(t(j), f, h, n);
    }
    sums::lemma_sum_same(a, b, m);
    sums::lemma_sum_swap(q, m, n);
    let c = |k: int| sums::sum(|j: int| q(j, k), m);
    let e = |k: int| sums::sum(|j: int| t(j) * y(k, j), m) * x(k);
    assert forall|k: int| 0 <= k < n implies #[trigger] c(k) == e(k) by {
        let f = |j: int| t(j) * y(k, j);
        let h = |j: int| q(j, k);
        assert forall|j: int| 0 <= j < m implies #[trigger] h(j) == x(k) * f(j) by {
            exact::lemma_regroup(t(j), x(k), y(k, j));
        }
        sums::lemma_sum_scale(x(k), f, h, m);
        exact::lemma_units(x(k), sums::sum(f, m));
    }
    sums::lemma_sum_same(c, e, n);
}

/// A triple sum, grouped by either factor.
proof fn lemma_triple(
    t: spec_fn(int, int) -> real,
    x: spec_fn(int, int) -> real,
    y: spec_fn(int, int) -> real,
    l: nat,
    n: nat,
    m: nat,
)
    ensures
        sums::sum(
            |i: int| sums::sum(|j: int| t(i, j) * sums::sum(|k: int| x(i, k) * y(k, j), n), m),
            l,
        ) == sums::sum(
            |i: int| sums::sum(|k: int| sums::sum(|j: int| t(i, j) * y(k, j), m) * x(i, k), n),
            l,
        ),
        sums::sum(
            |i: int| sums::sum(|j: int| t(i, j) * sums::sum(|k: int| x(i, k) * y(k, j), n), m),
            l,
        ) == sums::sum(
            |k: int| sums::sum(|j: int| sums::sum(|i: int| x(i, k) * t(i, j), l) * y(k, j), m),
            n,
        ),
{
    let a = |i: int| sums::sum(|j: int| t(i, j) * sums::sum(|k: int| x(i, k) * y(k, j), n), m);
    let b = |i: int| sums::sum(|k: int| sums::sum(|j: int| t(i, j) * y(k, j), m) * x(i, k), n);
    assert forall|i: int| 0 <= i < l implies #[trigger] a(i) == b(i) by {
        let ti = |j: int| t(i, j);
        let xi = |k: int| x(i, k);
        lemma_row(ti, xi, y, n, m);
        let (p, p2) = (
            |j: int| t(i, j) * sums::sum(|k: int| x(i, k) * y(k, j), n),
            |j: int| ti(j) * sums::sum(|k: int| xi(k) * y(k, j), n),
        );
        assert forall|j: int| 0 <= j < m implies #[trigger] p(j) == p2(j) by {
            sums::lemma_sum_same(|k: int| x(i, k) * y(k, j), |k: int| xi(k) * y(k, j), n);
        }
        sums::lemma_sum_same(p, p2, m);
        let (q, q2) = (
            |k: int| sums::sum(|j: int| t(i, j) * y(k, j), m) * x(i, k),
            |k: int| sums::sum(|j: int| ti(j) * y(k, j), m) * xi(k),
        );
        assert forall|k: int| 0 <= k < n implies #[trigger] q(k) == q2(k) by {
            sums::lemma_sum_same(|j: int| t(i, j) * y(k, j), |j: int| ti(j) * y(k, j), m);
        }
        sums::lemma_sum_same(q, q2, n);
    }
    sums::lemma_sum_same(a, b, l);
    let w = |i: int, k: int| sums::sum(|j: int| t(i, j) * y(k, j), m) * x(i, k);
    let b2 = |i: int| sums::sum(|k: int| w(i, k), n);
    assert forall|i: int| 0 <= i < l implies #[trigger] b(i) == b2(i) by {
        let q = |k: int| sums::sum(|j: int| t(i, j) * y(k, j), m) * x(i, k);
        let q2 = |k: int| w(i, k);
        sums::lemma_sum_same(q, q2, n);
    }
    sums::lemma_sum_same(b, b2, l);
    sums::lemma_sum_swap(w, l, n);
    let c = |k: int| sums::sum(|i: int| w(i, k), l);
    let e = |k: int| sums::sum(|j: int| sums::sum(|i: int| x(i, k) * t(i, j), l) * y(k, j), m);
    assert forall|k: int| 0 <= k < n implies #[trigger] c(k) == e(k) by {
        let xk = |i: int| x(i, k);
        let yk = |j: int| y(k, j);
        lemma_column(t, xk, yk, l, m);
        let (p, p2) = (
            |i: int| w(i, k),
            |i: int| sums::sum(|j: int| t(i, j) * yk(j), m) * xk(i),
        );
        assert forall|i: int| 0 <= i < l implies #[trigger] p(i) == p2(i) by {
            sums::lemma_sum_same(|j: int| t(i, j) * y(k, j), |j: int| t(i, j) * yk(j), m);
        }
        sums::lemma_sum_same(p, p2, l);
        let (q, q2) = (
            |j: int| sums::sum(|i: int| x(i, k) * t(i, j), l) * y(k, j),
            |j: int| sums::sum(|i: int| xk(i) * t(i, j), l) * yk(j),
        );
        assert forall|j: int| 0 <= j < m implies #[trigger] q(j) == q2(j) by {
            sums::lemma_sum_same(|i: int| x(i, k) * t(i, j), |i: int| xk(i) * t(i, j), l);
        }
        sums::lemma_sum_same(q, q2, m);
    }
    sums::lemma_sum_same(c, e, n);
}

/// A double sum with a factor for each index.
proof fn lemma_column(
    t: spec_fn(int, int) -> real,
    x: spec_fn(int) -> real,
    y: spec_fn(int) -> real,
    l: nat,
    m: nat,
)
    ensures
        sums::sum(|i: int| sums::sum(|j: int| t(i, j) * y(j), m) * x(i), l) == sums::sum(
            |j: int| sums::sum(|i: int| x(i) * t(i, j), l) * y(j),
            m,
        ),
{
    let q = |i: int, j: int| x(i) * (t(i, j) * y(j));
    let a = |i: int| sums::sum(|j: int| t(i, j) * y(j), m) * x(i);
    let b = |i: int| sums::sum(|j: int| q(i, j), m);
    assert forall|i: int| 0 <= i < l implies #[trigger] a(i) == b(i) by {
        let f = |j: int| t(i, j) * y(j);
        let h = |j: int| q(i, j);
        sums::lemma_sum_scale(x(i), f, h, m);
        exact::lemma_units(x(i), sums::sum(f, m));
    }
    sums::lemma_sum_same(a, b, l);
    sums::lemma_sum_swap(q, l, m);
    let c = |j: int| sums::sum(|i: int| q(i, j), l);
    let e = |j: int| sums::sum(|i: int| x(i) * t(i, j), l) * y(j);
    assert forall|j: int| 0 <= j < m implies #[trigger] c(j) == e(j) by {
        let f = |i: int| x(i) * t(i, j);
        let h = |i: int| q(i, j);
        assert forall|i: int| 0 <= i < l implies #[trigger] h(i) == y(j) * f(i) by {
            exact::lemma_regroup(x(i), t(i, j), y(j));
        }
        sums::lemma_sum_scale(y(j), f, h, l);
        exact::lemma_units(y(j), sums::sum(f, l));
    }
    sums::lemma_sum_same(c, e, m);
}

// ---- contractions ----
/// The number at a row and a column of a tensor with rows of length `w`.
pub open spec fn cell<S>(v: spec_fn(S) -> real, t: TensorV<S>, w: nat, i: int, j: int) -> real {
    v(t.data[i * w + j])
}

/// The change at a row and a column of an operand with rows of length `w`.
pub open spec fn shift_cell<S>(
    v: spec_fn(S) -> real,
    d: Map<Seq<char>, TensorV<S>>,
    a: AtomV<S>,
    w: nat,
    i: int,
    j: int,
) -> real {
    shift(v, d, a, i * w + j)
}

/// Whether a change of a contraction of `x` and `y` follows from the changes of the operands, at
/// row `i` and column `j`.
pub open spec fn follows<S>(
    v: spec_fn(S) -> real,
    d: Map<Seq<char>, TensorV<S>>,
    a: AtomV<S>,
    b: AtomV<S>,
    x: TensorV<S>,
    y: TensorV<S>,
    o: TensorV<S>,
    n: nat,
    m: nat,
    i: int,
    j: int,
) -> bool {
    cell(v, o, m, i, j) == sums::sum(
        |k: int| shift_cell(v, d, a, n, i, k) * cell(v, y, m, k, j),
        n,
    ) + sums::sum(|k: int| cell(v, x, n, i, k) * shift_cell(v, d, b, m, k, j), n)
}

/// Whether the cotangent of a left operand is that of the result times the right operand, turned,
/// at row `i` and column `k`.
pub open spec fn left_cell<S>(
    v: spec_fn(S) -> real,
    t: TensorV<S>,
    y: TensorV<S>,
    tx: TensorV<S>,
    n: nat,
    m: nat,
    i: int,
    k: int,
) -> bool {
    cell(v, tx, n, i, k) == sums::sum(|j: int| cell(v, t, m, i, j) * cell(v, y, m, k, j), m)
}

/// Whether the cotangent of a right operand is the left operand, turned, times that of the result,
/// at row `k` and column `j`.
pub open spec fn right_cell<S>(
    v: spec_fn(S) -> real,
    t: TensorV<S>,
    x: TensorV<S>,
    ty: TensorV<S>,
    l: nat,
    n: nat,
    m: nat,
    k: int,
    j: int,
) -> bool {
    cell(v, ty, m, k, j) == sums::sum(|i: int| cell(v, x, n, i, k) * cell(v, t, m, i, j), l)
}

/// The inner product with a change, in rows.
proof fn lemma_shifted_rows<S>(
    v: spec_fn(S) -> real,
    d: Map<Seq<char>, TensorV<S>>,
    a: AtomV<S>,
    w: TensorV<S>,
    p: nat,
    q: nat,
)
    requires
        w.shape == a.shape,
        reals::full(w),
        w.data.len() == p * q,
    ensures
        shifted(v, d, a, w) == sums::sum(
            |i: int| sums::sum(|j: int| cell(v, w, q, i, j) * shift_cell(v, d, a, q, i, j), q),
            p,
        ),
{
    let f = |r: int| v(w.data[r]) * shift(v, d, a, shape::source_index(r, w.shape, a.shape));
    let g = |r: int| v(w.data[r]) * shift(v, d, a, r);
    assert forall|r: int| 0 <= r < w.data.len() implies #[trigger] f(r) == g(r) by {
        pairing::lemma_same_index(r, w.shape);
    }
    sums::lemma_sum_same(f, g, p * q);
    sums::lemma_sum_blocks(g, p, q);
    let b = |i: int| sums::sum(|j: int| g(i * q + j), q);
    let c = |i: int| sums::sum(|j: int| cell(v, w, q, i, j) * shift_cell(v, d, a, q, i, j), q);
    assert forall|i: int| 0 <= i < p implies #[trigger] b(i) == c(i) by {
        sums::lemma_sum_same(
            |j: int| g(i * q + j),
            |j: int| cell(v, w, q, i, j) * shift_cell(v, d, a, q, i, j),
            q,
        );
    }
    sums::lemma_sum_same(b, c, p);
}

/// The inner product with a change of the result, in rows, split by operand.
proof fn lemma_result_rows<S>(
    v: spec_fn(S) -> real,
    d: Map<Seq<char>, TensorV<S>>,
    a: AtomV<S>,
    b: AtomV<S>,
    x: TensorV<S>,
    y: TensorV<S>,
    t: TensorV<S>,
    o: TensorV<S>,
    l: nat,
    n: nat,
    m: nat,
)
    requires
        t.data.len() == l * m,
        forall|i: int, j: int|
            0 <= i < l && 0 <= j < m ==> #[trigger] follows(v, d, a, b, x, y, o, n, m, i, j),
    ensures
        pairing::pairing(v, t, o) == sums::sum(
            |i: int|
                sums::sum(
                    |j: int|
                        cell(v, t, m, i, j) * sums::sum(
                            |k: int| shift_cell(v, d, a, n, i, k) * cell(v, y, m, k, j),
                            n,
                        ),
                    m,
                ),
            l,
        ) + sums::sum(
            |i: int|
                sums::sum(
                    |j: int|
                        cell(v, t, m, i, j) * sums::sum(
                            |k: int| cell(v, x, n, i, k) * shift_cell(v, d, b, m, k, j),
                            n,
                        ),
                    m,
                ),
            l,
        ),
{
    let g = |r: int| v(t.data[r]) * v(o.data[r]);
    sums::lemma_sum_blocks(g, l, m);
    let whole = |i: int| sums::sum(|j: int| g(i * m + j), m);
    let one = |i: int|
        sums::sum(
            |j: int|
                cell(v, t, m, i, j) * sums::sum(
                    |k: int| shift_cell(v, d, a, n, i, k) * cell(v, y, m, k, j),
                    n,
                ),
            m,
        );
    let two = |i: int|
        sums::sum(
            |j: int|
                cell(v, t, m, i, j) * sums::sum(
                    |k: int| cell(v, x, n, i, k) * shift_cell(v, d, b, m, k, j),
                    n,
                ),
            m,
        );
    assert forall|i: int| 0 <= i < l implies #[trigger] whole(i) == one(i) + two(i) by {
        let p = |j: int|
            cell(v, t, m, i, j) * sums::sum(
                |k: int| shift_cell(v, d, a, n, i, k) * cell(v, y, m, k, j),
                n,
            );
        let q = |j: int|
            cell(v, t, m, i, j) * sums::sum(
                |k: int| cell(v, x, n, i, k) * shift_cell(v, d, b, m, k, j),
                n,
            );
        let h = |j: int| g(i * m + j);
        assert forall|j: int| 0 <= j < m implies #[trigger] h(j) == p(j) + q(j) by {
            assert(follows(v, d, a, b, x, y, o, n, m, i, j));
            exact::lemma_distribute(
                cell(v, t, m, i, j),
                sums::sum(|k: int| shift_cell(v, d, a, n, i, k) * cell(v, y, m, k, j), n),
                sums::sum(|k: int| cell(v, x, n, i, k) * shift_cell(v, d, b, m, k, j), n),
            );
        }
        sums::lemma_sum_plus(p, q, h, m);
    }
    sums::lemma_sum_plus(one, two, whole, l);
}

/// The product rule of a contraction.
proof fn lemma_contraction_rule<S>(
    v: spec_fn(S) -> real,
    d: Map<Seq<char>, TensorV<S>>,
    a: AtomV<S>,
    b: AtomV<S>,
    x: TensorV<S>,
    y: TensorV<S>,
    t: TensorV<S>,
    o: TensorV<S>,
    tx: TensorV<S>,
    ty: TensorV<S>,
    l: nat,
    n: nat,
    m: nat,
)
    requires
        t.data.len() == l * m,
        tx.shape == a.shape,
        reals::full(tx),
        tx.data.len() == l * n,
        ty.shape == b.shape,
        reals::full(ty),
        ty.data.len() == n * m,
        forall|i: int, j: int|
            0 <= i < l && 0 <= j < m ==> #[trigger] follows(v, d, a, b, x, y, o, n, m, i, j),
        forall|i: int, k: int|
            0 <= i < l && 0 <= k < n ==> #[trigger] left_cell(v, t, y, tx, n, m, i, k),
        forall|k: int, j: int|
            0 <= k < n && 0 <= j < m ==> #[trigger] right_cell(v, t, x, ty, l, n, m, k, j),
    ensures
        pairing::pairing(v, t, o) == shifted(v, d, a, tx) + shifted(v, d, b, ty),
{
    lemma_result_rows(v, d, a, b, x, y, t, o, l, n, m);
    lemma_left(v, d, a, y, t, tx, l, n, m);
    lemma_right(v, d, b, x, t, ty, l, n, m);
}

/// The part of the left operand.
proof fn lemma_left<S>(
    v: spec_fn(S) -> real,
    d: Map<Seq<char>, TensorV<S>>,
    a: AtomV<S>,
    y: TensorV<S>,
    t: TensorV<S>,
    tx: TensorV<S>,
    l: nat,
    n: nat,
    m: nat,
)
    requires
        tx.shape == a.shape,
        reals::full(tx),
        tx.data.len() == l * n,
        forall|i: int, k: int|
            0 <= i < l && 0 <= k < n ==> #[trigger] left_cell(v, t, y, tx, n, m, i, k),
    ensures
        shifted(v, d, a, tx) == sums::sum(
            |i: int|
                sums::sum(
                    |j: int|
                        cell(v, t, m, i, j) * sums::sum(
                            |k: int| shift_cell(v, d, a, n, i, k) * cell(v, y, m, k, j),
                            n,
                        ),
                    m,
                ),
            l,
        ),
{
    lemma_shifted_rows(v, d, a, tx, l, n);
    let whole = |i: int|
        sums::sum(|k: int| cell(v, tx, n, i, k) * shift_cell(v, d, a, n, i, k), n);
    let want = |i: int|
        sums::sum(
            |j: int|
                cell(v, t, m, i, j) * sums::sum(
                    |k: int| shift_cell(v, d, a, n, i, k) * cell(v, y, m, k, j),
                    n,
                ),
            m,
        );
    assert forall|i: int| 0 <= i < l implies #[trigger] whole(i) == want(i) by {
        let ti = |j: int| cell(v, t, m, i, j);
        let xi = |k: int| shift_cell(v, d, a, n, i, k);
        let cy = |k: int, j: int| cell(v, y, m, k, j);
        lemma_row(ti, xi, cy, n, m);
        let p = |j: int| ti(j) * sums::sum(|k: int| xi(k) * cy(k, j), n);
        let p2 = |j: int|
            cell(v, t, m, i, j) * sums::sum(
                |k: int| shift_cell(v, d, a, n, i, k) * cell(v, y, m, k, j),
                n,
            );
        assert forall|j: int| 0 <= j < m implies #[trigger] p(j) == p2(j) by {
            sums::lemma_sum_same(
                |k: int| xi(k) * cy(k, j),
                |k: int| shift_cell(v, d, a, n, i, k) * cell(v, y, m, k, j),
                n,
            );
        }
        sums::lemma_sum_same(p, p2, m);
        let q = |k: int| sums::sum(|j: int| ti(j) * cy(k, j), m) * xi(k);
        let q2 = |k: int| cell(v, tx, n, i, k) * shift_cell(v, d, a, n, i, k);
        assert forall|k: int| 0 <= k < n implies #[trigger] q(k) == q2(k) by {
            assert(left_cell(v, t, y, tx, n, m, i, k));
            sums::lemma_sum_same(
                |j: int| ti(j) * cy(k, j),
                |j: int| cell(v, t, m, i, j) * cell(v, y, m, k, j),
                m,
            );
        }
        sums::lemma_sum_same(q, q2, n);
    }
    sums::lemma_sum_same(whole, want, l);
}

/// The part of the right operand.
proof fn lemma_right<S>(
    v: spec_fn(S) -> real,
    d: Map<Seq<char>, TensorV<S>>,
    b: AtomV<S>,
    x: TensorV<S>,
    t: TensorV<S>,
    ty: TensorV<S>,
    l: nat,
    n: nat,
    m: nat,
)
    requires
        ty.shape == b.shape,
        reals::full(ty),
        ty.data.len() == n * m,
        forall|k: int, j: int|
            0 <= k < n && 0 <= j < m ==> #[trigger] right_cell(v, t, x, ty, l, n, m, k, j),
    ensures
        shifted(v, d, b, ty) == sums::sum(
            |i: int|
                sums::sum(
                    |j: int|
                        cell(v, t, m, i, j) * sums::sum(
                            |k: int| cell(v, x, n, i, k) * shift_cell(v, d, b, m, k, j),
                            n,
                        ),
                    m,
                ),
            l,
        ),
{
    lemma_shifted_rows(v, d, b, ty, n, m);
    let ct = |i: int, j: int| cell(v, t, m, i, j);
    let cx = |i: int, k: int| cell(v, x, n, i, k);
    let db = |k: int, j: int| shift_cell(v, d, b, m, k, j);
    lemma_triple(ct, cx, db, l, n, m);
    let p = |i: int|
        sums::sum(|j: int| ct(i, j) * sums::sum(|k: int| cx(i, k) * db(k, j), n), m);
    let p2 = |i: int|
        sums::sum(
            |j: int|
                cell(v, t, m, i, j) * sums::sum(
                    |k: int| cell(v, x, n, i, k) * shift_cell(v, d, b, m, k, j),
                    n,
                ),
            m,
        );
    assert forall|i: int| 0 <= i < l implies #[trigger] p(i) == p2(i) by {
        let f = |j: int| ct(i, j) * sums::sum(|k: int| cx(i, k) * db(k, j), n);
        let f2 = |j: int|
            cell(v, t, m, i, j) * sums::sum(
                |k: int| cell(v, x, n, i, k) * shift_cell(v, d, b, m, k, j),
                n,
            );
        assert forall|j: int| 0 <= j < m implies #[trigger] f(j) == f2(j) by {
            sums::lemma_sum_same(
                |k: int| cx(i, k) * db(k, j),
                |k: int| cell(v, x, n, i, k) * shift_cell(v, d, b, m, k, j),
                n,
            );
        }
        sums::lemma_sum_same(f, f2, m);
    }
    sums::lemma_sum_same(p, p2, l);
    let q = |k: int|
        sums::sum(|j: int| sums::sum(|i: int| cx(i, k) * ct(i, j), l) * db(k, j), m);
    let q2 = |k: int|
        sums::sum(|j: int| cell(v, ty, m, k, j) * shift_cell(v, d, b, m, k, j), m);
    assert forall|k: int| 0 <= k < n implies #[trigger] q(k) == q2(k) by {
        let f = |j: int| sums::sum(|i: int| cx(i, k) * ct(i, j), l) * db(k, j);
        let f2 = |j: int| cell(v, ty, m, k, j) * shift_cell(v, d, b, m, k, j);
        assert forall|j: int| 0 <= j < m implies #[trigger] f(j) == f2(j) by {
            assert(right_cell(v, t, x, ty, l, n, m, k, j));
            sums::lemma_sum_same(
                |i: int| cx(i, k) * ct(i, j),
                |i: int| cell(v, x, n, i, k) * cell(v, t, m, i, j),
                l,
            );
        }
        sums::lemma_sum_same(f, f2, m);
    }
    sums::lemma_sum_same(q, q2, n);
}

// ---- matrices ----
/// A matrix with its axes exchanged.
proof fn lemma_flip<S: Scalar>(a: TensorV<S>, c: TensorV<S>)
    requires
        reals::full(a),
        a.shape.len() == 2,
        model::un_tensor(UnOpV::MoveAxis((-1) as isize, (-2) as isize), a) == Ok::<
            TensorV<S>,
            Fault,
        >(c),
    ensures
        c.shape == seq![a.shape[1], a.shape[0]],
        pairing::sizable(c),
        forall|i: int, j: int|
            0 <= i < a.shape[0] && 0 <= j < a.shape[1] ==> #[trigger] c.data[j * a.shape[0] + i]
                == a.data[i * a.shape[1] + j],
{
    let s = a.shape;
    assert(s.subrange(0, 1) =~= seq![s[0]]);
    assert(s.subrange(1, 2) =~= seq![s[1]]);
    shape::lemma_product_single(s[0]);
    shape::lemma_product_single(s[1]);
    assert(model::moved(s, 1, 0) =~= model::moved(s, 0, 1));
    assert(model::first_block(s, 1, 0) == model::first_block(s, 0, 1));
    assert(model::second_block(s, 1, 0) == model::second_block(s, 0, 1));
    assert(model::behind_blocks(s, 1, 0) == model::behind_blocks(s, 0, 1));
    assert(model::moved_data(a, 1, 0) =~= model::moved_data(a, 0, 1));
    assert(model::un_tensor(UnOpV::MoveAxis(0, 1), a) == Ok::<TensorV<S>, Fault>(c));
    matrices::lemma_transpose(a, c);
}

/// The program that gives the cotangents of the operands of a contraction.
#[verifier::spinoff_prover]
#[verifier::rlimit(60)]
proof fn lemma_dot_applies<S: Scalar>(
    a: AtomV<S>,
    b: AtomV<S>,
    out: AtomV<S>,
    primals: Map<Seq<char>, TensorV<S>>,
    cot: Map<Seq<char>, TensorV<S>>,
    x: TensorV<S>,
    y: TensorV<S>,
    t: TensorV<S>,
    ts: Seq<TensorV<S>>,
)
    requires
        env::resolved::<S, Tensor<S>>(primals, a) == Ok::<TensorV<S>, Fault>(x),
        env::resolved::<S, Tensor<S>>(primals, b) == Ok::<TensorV<S>, Fault>(y),
        env::resolved::<S, Tensor<S>>(cot, out) == Ok::<TensorV<S>, Fault>(t),
        vjp::vjp_values::<S, Tensor<S>>((), PrimV::Bin(BinOpV::Dot, a, b), out, primals, cot).1
            == Ok::<Seq<TensorV<S>>, Fault>(ts),
    ensures
        vjp::applied::<S, Tensor<S>>(
            (),
            vjp::dot_rule(x.shape, y.shape),
            seq![t] + seq![x, y],
        ).1 == Ok::<Seq<TensorV<S>>, Fault>(ts),
{
    passing::lemma_resolved_two(primals, a, b, x, y);
    let ins = seq![t] + seq![x, y];
    let shapes = vjp::shapes_of::<S, Tensor<S>>(ins);
    assert(shapes[1] == x.shape && shapes[2] == y.shape);
}

/// The cotangent of what a matrix is met by.
#[verifier::spinoff_prover]
#[verifier::rlimit(60)]
proof fn lemma_left_steps<S: Scalar>(
    x: TensorV<S>,
    y: TensorV<S>,
    t: TensorV<S>,
    ts: Seq<TensorV<S>>,
) -> (yt: TensorV<S>)
    requires
        y.shape.len() == 2,
        vjp::applied::<S, Tensor<S>>(
            (),
            vjp::dot_rule(x.shape, y.shape),
            seq![t] + seq![x, y],
        ).1 == Ok::<Seq<TensorV<S>>, Fault>(ts),
    ensures
        ts.len() == 2,
        model::un_tensor(UnOpV::MoveAxis((-1) as isize, (-2) as isize), y) == Ok::<
            TensorV<S>,
            Fault,
        >(yt),
        model::bin_tensor(BinOpV::Dot, t, yt) == Ok::<TensorV<S>, Fault>(ts[0]),
{
    let ins = seq![t] + seq![x, y];
    let rule = vjp::dot_rule::<S>(x.shape, y.shape);
    let all = pairing::lemma_applied(rule, ins, ts);
    assert(rule.steps[0] == StepV::<S>::Un(
        UnOpV::MoveAxis((-1) as isize, (-2) as isize),
        Reg::In(2),
    ));
    assert(rule.steps[1] == StepV::<S>::Bin(BinOpV::Dot, Reg::In(0), Reg::Out(0)));
    pairing::lemma_un_step(
        rule.steps,
        ins,
        all,
        0,
        UnOpV::MoveAxis((-1) as isize, (-2) as isize),
        Reg::In(2),
    );
    pairing::lemma_bin_step(rule.steps, ins, all, 1, BinOpV::Dot, Reg::In(0), Reg::Out(0));
    assert(ts[0] == all[1]);
    all[0]
}

/// The cotangent of the right one of two matrices.
#[verifier::spinoff_prover]
#[verifier::rlimit(60)]
proof fn lemma_right_steps<S: Scalar>(
    x: TensorV<S>,
    y: TensorV<S>,
    t: TensorV<S>,
    ts: Seq<TensorV<S>>,
) -> (xt: TensorV<S>)
    requires
        x.shape.len() == 2,
        y.shape.len() == 2,
        vjp::applied::<S, Tensor<S>>(
            (),
            vjp::dot_rule(x.shape, y.shape),
            seq![t] + seq![x, y],
        ).1 == Ok::<Seq<TensorV<S>>, Fault>(ts),
    ensures
        ts.len() == 2,
        model::un_tensor(UnOpV::MoveAxis((-1) as isize, (-2) as isize), x) == Ok::<
            TensorV<S>,
            Fault,
        >(xt),
        model::bin_tensor(BinOpV::Dot, xt, t) == Ok::<TensorV<S>, Fault>(ts[1]),
{
    let ins = seq![t] + seq![x, y];
    let rule = vjp::dot_rule::<S>(x.shape, y.shape);
    let all = pairing::lemma_applied(rule, ins, ts);
    assert(rule.steps[2] == StepV::<S>::Un(
        UnOpV::MoveAxis((-1) as isize, (-2) as isize),
        Reg::In(1),
    ));
    assert(rule.steps[3] == StepV::<S>::Bin(BinOpV::Dot, Reg::Out(2), Reg::In(0)));
    pairing::lemma_un_step(
        rule.steps,
        ins,
        all,
        2,
        UnOpV::MoveAxis((-1) as isize, (-2) as isize),
        Reg::In(1),
    );
    pairing::lemma_bin_step(rule.steps, ins, all, 3, BinOpV::Dot, Reg::Out(2), Reg::In(0));
    all[2]
}

/// The cotangent of the left one of two matrices, element by element.
proof fn lemma_left_cells<S: Scalar>(
    v: spec_fn(S) -> real,
    y: TensorV<S>,
    t: TensorV<S>,
    yt: TensorV<S>,
    tx: TensorV<S>,
    l: nat,
    n: nat,
    m: nat,
)
    requires
        exact::exact(v),
        reals::full(y),
        reals::full(t),
        l > 0,
        n > 0,
        m > 0,
        t.shape.len() == 2,
        y.shape.len() == 2,
        t.shape[0] == l,
        t.shape[1] == m,
        y.shape[0] == n,
        y.shape[1] == m,
        model::un_tensor(UnOpV::MoveAxis((-1) as isize, (-2) as isize), y) == Ok::<
            TensorV<S>,
            Fault,
        >(yt),
        model::bin_tensor(BinOpV::Dot, t, yt) == Ok::<TensorV<S>, Fault>(tx),
    ensures
        tx.shape == seq![t.shape[0], y.shape[0]],
        pairing::sizable(tx),
        forall|i: int, k: int|
            0 <= i < l && 0 <= k < n ==> #[trigger] left_cell(v, t, y, tx, n, m, i, k),
{
    lemma_flip(y, yt);
    matrices::lemma_matmul(v, t, yt, tx, 0, 0);
    assert forall|i: int, k: int| 0 <= i < l && 0 <= k < n implies #[trigger] left_cell(
        v,
        t,
        y,
        tx,
        n,
        m,
        i,
        k,
    ) by {
        matrices::lemma_matmul(v, t, yt, tx, i, k);
        let f = |j: int| v(t.data[i * t.shape[1] + j]) * v(yt.data[j * yt.shape[1] + k]);
        let g = |j: int| cell(v, t, m, i, j) * cell(v, y, m, k, j);
        assert forall|j: int| 0 <= j < m implies #[trigger] f(j) == g(j) by {
            assert(yt.data[j * y.shape[0] + k] == y.data[k * y.shape[1] + j]);
        }
        sums::lemma_sum_same(f, g, m);
    }
}

/// The cotangent of the right one of two matrices, element by element.
proof fn lemma_right_cells<S: Scalar>(
    v: spec_fn(S) -> real,
    x: TensorV<S>,
    t: TensorV<S>,
    xt: TensorV<S>,
    ty: TensorV<S>,
    l: nat,
    n: nat,
    m: nat,
)
    requires
        exact::exact(v),
        reals::full(x),
        reals::full(t),
        l > 0,
        n > 0,
        m > 0,
        t.shape.len() == 2,
        x.shape.len() == 2,
        t.shape[0] == l,
        t.shape[1] == m,
        x.shape[0] == l,
        x.shape[1] == n,
        model::un_tensor(UnOpV::MoveAxis((-1) as isize, (-2) as isize), x) == Ok::<
            TensorV<S>,
            Fault,
        >(xt),
        model::bin_tensor(BinOpV::Dot, xt, t) == Ok::<TensorV<S>, Fault>(ty),
    ensures
        ty.shape == seq![x.shape[1], t.shape[1]],
        pairing::sizable(ty),
        forall|k: int, j: int|
            0 <= k < n && 0 <= j < m ==> #[trigger] right_cell(v, t, x, ty, l, n, m, k, j),
{
    lemma_flip(x, xt);
    matrices::lemma_matmul(v, xt, t, ty, 0, 0);
    assert forall|k: int, j: int| 0 <= k < n && 0 <= j < m implies #[trigger] right_cell(
        v,
        t,
        x,
        ty,
        l,
        n,
        m,
        k,
        j,
    ) by {
        matrices::lemma_matmul(v, xt, t, ty, k, j);
        let f = |i: int| v(xt.data[k * xt.shape[1] + i]) * v(t.data[i * t.shape[1] + j]);
        let g = |i: int| cell(v, x, n, i, k) * cell(v, t, m, i, j);
        assert forall|i: int| 0 <= i < l implies #[trigger] f(i) == g(i) by {
            assert(xt.data[k * x.shape[0] + i] == x.data[i * x.shape[1] + k]);
        }
        sums::lemma_sum_same(f, g, l);
    }
}

/// A product of matrices passes on the change of each operand times the other one.
#[verifier::spinoff_prover]
#[verifier::rlimit(80)]
pub proof fn lemma_matrices_turned<S: Scalar>(
    v: spec_fn(S) -> real,
    a: AtomV<S>,
    b: AtomV<S>,
    out: AtomV<S>,
    primals: Map<Seq<char>, TensorV<S>>,
    d: Map<Seq<char>, TensorV<S>>,
    x: TensorV<S>,
    y: TensorV<S>,
)
    requires
        exact::exact(v),
        out.value is None,
        a.shape.len() == 2,
        b.shape.len() == 2,
        a.shape[1] == b.shape[0],
        out.shape == seq![a.shape[0], b.shape[1]],
        changes(d, a),
        changes(d, b),
        has_value(primals, a, x),
        has_value(primals, b, y),
        forall|i: int, j: int|
            0 <= i < a.shape[0] && 0 <= j < b.shape[1] ==> #[trigger] follows(
                v,
                d,
                a,
                b,
                x,
                y,
                d[out.name],
                a.shape[1] as nat,
                b.shape[1] as nat,
                i,
                j,
            ),
    ensures
        turned(v, EqnV { prim: PrimV::Bin(BinOpV::Dot, a, b), out }, primals, d),
{
    let e = EqnV { prim: PrimV::Bin(BinOpV::Dot, a, b), out };
    assert forall|cot: Map<Seq<char>, TensorV<S>>|
        cot.dom().contains(out.name) && suits(cot[out.name], out.shape) implies #[trigger] turns(
        v,
        e,
        primals,
        d,
        cot,
    ) by {
        let t = cot[out.name];
        let r = vjp::vjp_values::<S, Tensor<S>>((), e.prim, out, primals, cot).1;
        if r is Ok {
            let ts = r->Ok_0;
            lemma_dot_applies(a, b, out, primals, cot, x, y, t, ts);
            let yt = lemma_left_steps(x, y, t, ts);
            let xt = lemma_right_steps(x, y, t, ts);
            lemma_matrices_pair(v, a, b, d, x, y, t, d[out.name], yt, xt, ts);
            passing::lemma_two_turn(v, e, primals, d, cot, ts, a, b);
        }
    }
}

/// The product rule of matrices.
#[verifier::spinoff_prover]
#[verifier::rlimit(60)]
proof fn lemma_matrices_pair<S: Scalar>(
    v: spec_fn(S) -> real,
    a: AtomV<S>,
    b: AtomV<S>,
    d: Map<Seq<char>, TensorV<S>>,
    x: TensorV<S>,
    y: TensorV<S>,
    t: TensorV<S>,
    o: TensorV<S>,
    yt: TensorV<S>,
    xt: TensorV<S>,
    ts: Seq<TensorV<S>>,
)
    requires
        exact::exact(v),
        a.shape.len() == 2,
        b.shape.len() == 2,
        a.shape[1] == b.shape[0],
        suits(x, a.shape),
        suits(y, b.shape),
        suits(t, seq![a.shape[0], b.shape[1]]),
        ts.len() == 2,
        model::un_tensor(UnOpV::MoveAxis((-1) as isize, (-2) as isize), y) == Ok::<
            TensorV<S>,
            Fault,
        >(yt),
        model::bin_tensor(BinOpV::Dot, t, yt) == Ok::<TensorV<S>, Fault>(ts[0]),
        model::un_tensor(UnOpV::MoveAxis((-1) as isize, (-2) as isize), x) == Ok::<
            TensorV<S>,
            Fault,
        >(xt),
        model::bin_tensor(BinOpV::Dot, xt, t) == Ok::<TensorV<S>, Fault>(ts[1]),
        forall|i: int, j: int|
            0 <= i < a.shape[0] && 0 <= j < b.shape[1] ==> #[trigger] follows(
                v,
                d,
                a,
                b,
                x,
                y,
                o,
                a.shape[1] as nat,
                b.shape[1] as nat,
                i,
                j,
            ),
    ensures
        support::weighable(ts[0]),
        support::weighable(ts[1]),
        ts[0].shape == a.shape,
        ts[1].shape == b.shape,
        shape::expands_to(a.shape, ts[0].shape),
        shape::expands_to(b.shape, ts[1].shape),
        pairing::pairing(v, t, o) == shifted(v, d, a, ts[0]) + shifted(v, d, b, ts[1]),
{
    let (l, n, m) = (a.shape[0] as nat, a.shape[1] as nat, b.shape[1] as nat);
    assert(a.shape[0] > 0 && a.shape[1] > 0 && b.shape[1] > 0);
    lemma_left_cells(v, y, t, yt, ts[0], l, n, m);
    lemma_right_cells(v, x, t, xt, ts[1], l, n, m);
    assert(ts[0].shape =~= a.shape);
    assert(ts[1].shape =~= b.shape);
    matrices::lemma_product2(t.shape);
    matrices::lemma_product2(a.shape);
    matrices::lemma_product2(b.shape);
    pairing::lemma_same_shape(a.shape);
    pairing::lemma_same_shape(b.shape);
    lemma_contraction_rule(v, d, a, b, x, y, t, o, ts[0], ts[1], l, n, m);
}

// ---- a vector and a matrix ----
/// The cotangent of the matrix that a vector meets.
#[verifier::spinoff_prover]
#[verifier::rlimit(60)]
proof fn lemma_outer_steps<S: Scalar>(
    x: TensorV<S>,
    y: TensorV<S>,
    t: TensorV<S>,
    ts: Seq<TensorV<S>>,
) -> (r: (TensorV<S>, TensorV<S>))
    requires
        x.shape.len() == 1,
        y.shape.len() == 2,
        t.shape.len() == 1,
        vjp::applied::<S, Tensor<S>>(
            (),
            vjp::dot_rule(x.shape, y.shape),
            seq![t] + seq![x, y],
        ).1 == Ok::<Seq<TensorV<S>>, Fault>(ts),
    ensures
        ts.len() == 2,
        r.0.shape == seq![x.shape[0], 1],
        r.0.data == x.data,
        r.1.shape == seq![1, t.shape[0]],
        r.1.data == t.data,
        model::bin_tensor(BinOpV::Dot, r.0, r.1) == Ok::<TensorV<S>, Fault>(ts[1]),
{
    let ins = seq![t] + seq![x, y];
    let rule = vjp::dot_rule::<S>(x.shape, y.shape);
    let all = pairing::lemma_applied(rule, ins, ts);
    let (last, first) = (seq![(-1) as isize], seq![0isize]);
    assert(rule.steps[2] == StepV::<S>::Un(UnOpV::ExpandDims(last), Reg::In(1)));
    assert(rule.steps[3] == StepV::<S>::Un(UnOpV::ExpandDims(first), Reg::In(0)));
    assert(rule.steps[4] == StepV::<S>::Bin(BinOpV::Dot, Reg::Out(2), Reg::Out(3)));
    pairing::lemma_un_step(rule.steps, ins, all, 2, UnOpV::ExpandDims(last), Reg::In(1));
    pairing::lemma_un_step(rule.steps, ins, all, 3, UnOpV::ExpandDims(first), Reg::In(0));
    pairing::lemma_bin_step(rule.steps, ins, all, 4, BinOpV::Dot, Reg::Out(2), Reg::Out(3));
    let (p, q) = (seq![x.shape[0], 1usize], seq![1usize, t.shape[0]]);
    unspread::lemma_expand_single(p, (-1) as isize);
    assert(p.remove(1) =~= x.shape);
    assert(p.update(1, 1) =~= p);
    unspread::lemma_expand_single(q, 0);
    assert(q.remove(0) =~= t.shape);
    assert(q.update(0, 1) =~= q);
    (all[2], all[3])
}

/// The product rule of a vector and a matrix.
#[verifier::spinoff_prover]
#[verifier::rlimit(60)]
proof fn lemma_vector_pair<S: Scalar>(
    v: spec_fn(S) -> real,
    a: AtomV<S>,
    b: AtomV<S>,
    d: Map<Seq<char>, TensorV<S>>,
    x: TensorV<S>,
    y: TensorV<S>,
    t: TensorV<S>,
    o: TensorV<S>,
    yt: TensorV<S>,
    xc: TensorV<S>,
    tr: TensorV<S>,
    ts: Seq<TensorV<S>>,
)
    requires
        exact::exact(v),
        a.shape.len() == 1,
        b.shape.len() == 2,
        a.shape[0] == b.shape[0],
        suits(x, a.shape),
        suits(y, b.shape),
        suits(t, seq![b.shape[1]]),
        ts.len() == 2,
        model::un_tensor(UnOpV::MoveAxis((-1) as isize, (-2) as isize), y) == Ok::<
            TensorV<S>,
            Fault,
        >(yt),
        model::bin_tensor(BinOpV::Dot, t, yt) == Ok::<TensorV<S>, Fault>(ts[0]),
        xc.shape == seq![x.shape[0], 1],
        xc.data == x.data,
        tr.shape == seq![1, t.shape[0]],
        tr.data == t.data,
        model::bin_tensor(BinOpV::Dot, xc, tr) == Ok::<TensorV<S>, Fault>(ts[1]),
        forall|j: int|
            0 <= j < b.shape[1] ==> #[trigger] follows(
                v,
                d,
                a,
                b,
                x,
                y,
                o,
                a.shape[0] as nat,
                b.shape[1] as nat,
                0,
                j,
            ),
    ensures
        support::weighable(ts[0]),
        support::weighable(ts[1]),
        shape::expands_to(a.shape, ts[0].shape),
        shape::expands_to(b.shape, ts[1].shape),
        pairing::pairing(v, t, o) == shifted(v, d, a, ts[0]) + shifted(v, d, b, ts[1]),
{
    let (n, m) = (a.shape[0] as nat, b.shape[1] as nat);
    assert(a.shape[0] > 0 && b.shape[1] > 0);
    matrices::lemma_product1(a.shape);
    matrices::lemma_product1(t.shape);
    matrices::lemma_product2(b.shape);
    matrices::lemma_product2(xc.shape);
    matrices::lemma_product2(tr.shape);
    assert(1 * m == m && n * 1 == n && 1 * n == n) by (nonlinear_arith);
    lemma_flip(y, yt);
    matrices::lemma_vecmat(v, t, yt, ts[0], 0);
    assert(ts[0].shape =~= a.shape);
    matrices::lemma_matmul(v, xc, tr, ts[1], 0, 0);
    assert(ts[1].shape =~= b.shape);
    pairing::lemma_same_shape(a.shape);
    pairing::lemma_same_shape(b.shape);
    assert forall|i: int, k: int| 0 <= i < 1 && 0 <= k < n implies #[trigger] left_cell(
        v,
        t,
        y,
        ts[0],
        n,
        m,
        i,
        k,
    ) by {
        matrices::lemma_vecmat(v, t, yt, ts[0], k);
        assert(0 * n + k == k) by (nonlinear_arith);
        let f = |j: int| v(t.data[j]) * v(yt.data[j * yt.shape[1] + k]);
        let g = |j: int| cell(v, t, m, i, j) * cell(v, y, m, k, j);
        assert forall|j: int| 0 <= j < m implies #[trigger] f(j) == g(j) by {
            assert(yt.data[j * y.shape[0] + k] == y.data[k * y.shape[1] + j]);
            assert(0 * m + j == j) by (nonlinear_arith);
        }
        sums::lemma_sum_same(f, g, m);
    }
    assert forall|k: int, j: int| 0 <= k < n && 0 <= j < m implies #[trigger] right_cell(
        v,
        t,
        x,
        ts[1],
        1,
        n,
        m,
        k,
        j,
    ) by {
        matrices::lemma_matmul(v, xc, tr, ts[1], k, j);
        let f = |i: int| v(xc.data[k * xc.shape[1] + i]) * v(tr.data[i * tr.shape[1] + j]);
        let g = |i: int| cell(v, x, n, i, k) * cell(v, t, m, i, j);
        assert forall|i: int| 0 <= i < 1 implies #[trigger] f(i) == g(i) by {
            assert(i == 0);
            assert(k * 1 + 0 == k && 0 * n + k == k) by (nonlinear_arith);
        }
        sums::lemma_sum_same(f, g, 1);
    }
    assert forall|i: int, j: int| 0 <= i < 1 && 0 <= j < m implies #[trigger] follows(
        v,
        d,
        a,
        b,
        x,
        y,
        o,
        n,
        m,
        i,
        j,
    ) by {
        assert(i == 0);
    }
    lemma_contraction_rule(v, d, a, b, x, y, t, o, ts[0], ts[1], 1, n, m);
}

/// A product of a vector and a matrix passes on the change of each operand times the other one.
#[verifier::spinoff_prover]
#[verifier::rlimit(80)]
pub proof fn lemma_vector_turned<S: Scalar>(
    v: spec_fn(S) -> real,
    a: AtomV<S>,
    b: AtomV<S>,
    out: AtomV<S>,
    primals: Map<Seq<char>, TensorV<S>>,
    d: Map<Seq<char>, TensorV<S>>,
    x: TensorV<S>,
    y: TensorV<S>,
)
    requires
        exact::exact(v),
        out.value is None,
        a.shape.len() == 1,
        b.shape.len() == 2,
        a.shape[0] == b.shape[0],
        out.shape == seq![b.shape[1]],
        changes(d, a),
        changes(d, b),
        has_value(primals, a, x),
        has_value(primals, b, y),
        forall|j: int|
            0 <= j < b.shape[1] ==> #[trigger] follows(
                v,
                d,
                a,
                b,
                x,
                y,
                d[out.name],
                a.shape[0] as nat,
                b.shape[1] as nat,
                0,
                j,
            ),
    ensures
        turned(v, EqnV { prim: PrimV::Bin(BinOpV::Dot, a, b), out }, primals, d),
{
    let e = EqnV { prim: PrimV::Bin(BinOpV::Dot, a, b), out };
    assert forall|cot: Map<Seq<char>, TensorV<S>>|
        cot.dom().contains(out.name) && suits(cot[out.name], out.shape) implies #[trigger] turns(
        v,
        e,
        primals,
        d,
        cot,
    ) by {
        let t = cot[out.name];
        let r = vjp::vjp_values::<S, Tensor<S>>((), e.prim, out, primals, cot).1;
        if r is Ok {
            let ts = r->Ok_0;
            lemma_dot_applies(a, b, out, primals, cot, x, y, t, ts);
            let yt = lemma_left_steps(x, y, t, ts);
            let (xc, tr) = lemma_outer_steps(x, y, t, ts);
            lemma_vector_pair(v, a, b, d, x, y, t, d[out.name], yt, xc, tr, ts);
            passing::lemma_two_turn(v, e, primals, d, cot, ts, a, b);
        }
    }
}

} // verus!
