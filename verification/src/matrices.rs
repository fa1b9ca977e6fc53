//! Products of matrices of exact numbers.

use vstd::prelude::*;
use crate::exact;
use crate::manipulate;
use crate::model;
use crate::model::{BinOpV, Fault, TensorV, UnOpV};
use crate::pairing;
use crate::reals;
use crate::scalar::Scalar;
use crate::shape;
use crate::sums;

verus! {

/// The elements of a matrix.
pub proof fn lemma_product2(s: Seq<usize>)
    requires
        s.len() == 2,
    ensures
        shape::product(s) == s[0] * s[1],
{
    let t = s.drop_last();
    let e = t.drop_last();
    assert(shape::product(e) == 1);
    assert(shape::product(t) == 1 * s[0]);
    let (a, b) = (s[0] as int, s[1] as int);
    assert((1 * a) * b == a * b) by (nonlinear_arith);
}

/// The elements of a vector.
pub proof fn lemma_product1(s: Seq<usize>)
    requires
        s.len() == 1,
    ensures
        shape::product(s) == s[0],
{
    assert(s =~= seq![s[0]]);
    shape::lemma_product_single(s[0]);
}

/// The product of two matrices.
pub proof fn lemma_matmul<S: Scalar>(
    v: spec_fn(S) -> real,
    a: TensorV<S>,
    b: TensorV<S>,
    c: TensorV<S>,
    i: int,
    j: int,
)
    requires
        exact::exact(v),
        reals::full(a),
        reals::full(b),
        a.shape.len() == 2,
        b.shape.len() == 2,
        model::bin_tensor(BinOpV::Dot, a, b) == Ok::<TensorV<S>, Fault>(c),
        0 <= i < a.shape[0],
        0 <= j < b.shape[1],
    ensures
        a.shape[1] == b.shape[0],
        c.shape == seq![a.shape[0], b.shape[1]],
        pairing::sizable(c),
        0 <= i * b.shape[1] + j < c.data.len(),
        v(c.data[i * b.shape[1] + j]) == sums::sum(
            |k: int| v(a.data[i * a.shape[1] + k]) * v(b.data[k * b.shape[1] + j]),
            a.shape[1] as nat,
        ),
{
    let out = c.shape;
    let (n, kk) = (b.shape[1] as int, a.shape[1] as int);
    assert(out =~= seq![a.shape[0], b.shape[1]]) by {
        assert(a.shape.drop_last() =~= seq![a.shape[0]]);
        assert(b.shape.subrange(0, 0) =~= Seq::<usize>::empty());
    }
    lemma_product2(out);
    manipulate::lemma_cell(i, j, a.shape[0] as int, n);
    let r = i * n + j;
    reals::lemma_bilinear_len(BinOpV::Dot, a, b, out);
    reals::lemma_bilinear(v, BinOpV::Dot, a, b, out, r);
    assert(b.shape.subrange(0, 0) =~= Seq::<usize>::empty());
    assert(model::dot_planes(b.shape) == 1);
    assert(model::dot_columns(b.shape) == n);
    assert(i / 1 == i && i % 1 == 0) by (nonlinear_arith);
    let f = |k: int|
        v(a.data[reals::left_index(BinOpV::Dot, a.shape, b.shape, out, r, k)]) * v(
            b.data[reals::right_index(BinOpV::Dot, a.shape, b.shape, out, r, k)],
        );
    let g = |k: int| v(a.data[i * a.shape[1] + k]) * v(b.data[k * b.shape[1] + j]);
    assert forall|k: int| 0 <= k < kk implies #[trigger] f(k) == g(k) by {
        assert((0 * kk + k) * n == k * n) by (nonlinear_arith);
    }
    sums::lemma_sum_same(f, g, kk as nat);
}

/// The product of a matrix and a vector.
pub proof fn lemma_matvec<S: Scalar>(
    v: spec_fn(S) -> real,
    a: TensorV<S>,
    b: TensorV<S>,
    c: TensorV<S>,
    i: int,
)
    requires
        exact::exact(v),
        reals::full(a),
        reals::full(b),
        a.shape.len() == 2,
        b.shape.len() == 1,
        model::bin_tensor(BinOpV::Dot, a, b) == Ok::<TensorV<S>, Fault>(c),
        0 <= i < a.shape[0],
    ensures
        a.shape[1] == b.shape[0],
        c.shape == seq![a.shape[0]],
        pairing::sizable(c),
        i < c.data.len(),
        v(c.data[i]) == sums::sum(
            |k: int| v(a.data[i * a.shape[1] + k]) * v(b.data[k]),
            a.shape[1] as nat,
        ),
{
    let out = c.shape;
    let kk = a.shape[1] as int;
    assert(out =~= seq![a.shape[0]]);
    lemma_product1(out);
    reals::lemma_bilinear_len(BinOpV::Dot, a, b, out);
    reals::lemma_bilinear(v, BinOpV::Dot, a, b, out, i);
    assert(i / 1 == i && i % 1 == 0) by (nonlinear_arith);
    let f = |k: int|
        v(a.data[reals::left_index(BinOpV::Dot, a.shape, b.shape, out, i, k)]) * v(
            b.data[reals::right_index(BinOpV::Dot, a.shape, b.shape, out, i, k)],
        );
    let g = |k: int| v(a.data[i * a.shape[1] + k]) * v(b.data[k]);
    assert forall|k: int| 0 <= k < kk implies #[trigger] f(k) == g(k) by {
        assert((0 * kk + k) * 1 + 0 == k) by (nonlinear_arith);
    }
    sums::lemma_sum_same(f, g, kk as nat);
}

/// The product of a vector and a matrix.
pub proof fn lemma_vecmat<S: Scalar>(
    v: spec_fn(S) -> real,
    a: TensorV<S>,
    b: TensorV<S>,
    c: TensorV<S>,
    j: int,
)
    requires
        exact::exact(v),
        reals::full(a),
        reals::full(b),
        a.shape.len() == 1,
        b.shape.len() == 2,
        model::bin_tensor(BinOpV::Dot, a, b) == Ok::<TensorV<S>, Fault>(c),
        0 <= j < b.shape[1],
    ensures
        a.shape[0] == b.shape[0],
        c.shape == seq![b.shape[1]],
        pairing::sizable(c),
        j < c.data.len(),
        v(c.data[j]) == sums::sum(
            |k: int| v(a.data[k]) * v(b.data[k * b.shape[1] + j]),
            a.shape[0] as nat,
        ),
{
    let out = c.shape;
    let (n, kk) = (b.shape[1] as int, a.shape[0] as int);
    assert(out =~= seq![b.shape[1]]) by {
        assert(a.shape.drop_last() =~= Seq::<usize>::empty());
        assert(b.shape.subrange(0, 0) =~= Seq::<usize>::empty());
    }
    lemma_product1(out);
    reals::lemma_bilinear_len(BinOpV::Dot, a, b, out);
    reals::lemma_bilinear(v, BinOpV::Dot, a, b, out, j);
    assert(b.shape.subrange(0, 0) =~= Seq::<usize>::empty());
    assert(j / n == 0 && j % n == j) by (nonlinear_arith)
        requires
            0 <= j < n,
    ;
    assert(0int / 1 == 0 && 0int % 1 == 0) by (nonlinear_arith);
    let f = |k: int|
        v(a.data[reals::left_index(BinOpV::Dot, a.shape, b.shape, out, j, k)]) * v(
            b.data[reals::right_index(BinOpV::Dot, a.shape, b.shape, out, j, k)],
        );
    let g = |k: int| v(a.data[k]) * v(b.data[k * b.shape[1] + j]);
    assert forall|k: int| 0 <= k < kk implies #[trigger] f(k) == g(k) by {
        assert(0 * kk + k == k) by (nonlinear_arith);
    }
    sums::lemma_sum_same(f, g, kk as nat);
}

/// The transpose of a matrix.
pub proof fn lemma_transpose<S: Scalar>(a: TensorV<S>, c: TensorV<S>)
    requires
        reals::full(a),
        a.shape.len() == 2,
        model::un_tensor(UnOpV::MoveAxis(0, 1), a) == Ok::<TensorV<S>, Fault>(c),
    ensures
        c.shape == seq![a.shape[1], a.shape[0]],
        pairing::sizable(c),
        forall|i: int, j: int|
            0 <= i < a.shape[0] && 0 <= j < a.shape[1] ==> #[trigger] c.data[j * a.shape[0] + i]
                == a.data[i * a.shape[1] + j],
{
    let s = a.shape;
    assert(c.shape =~= seq![s[1], s[0]]);
    lemma_product2(s);
    lemma_product2(c.shape);
    let (p, q) = (s[0] as int, s[1] as int);
    assert(p * q == q * p) by (nonlinear_arith);
    assert(s.subrange(1, 2) =~= seq![s[1]]);
    shape::lemma_product_single(s[1]);
    assert(s.subrange(2, 2) =~= Seq::<usize>::empty());
    assert(model::first_block(s, 0, 1) == p);
    assert(model::second_block(s, 0, 1) == q);
    assert(model::behind_blocks(s, 0, 1) == 1);
    assert forall|i: int, j: int| 0 <= i < s[0] && 0 <= j < s[1] implies #[trigger] c.data[j
        * s[0] + i] == a.data[i * s[1] + j] by {
        let r = j * p + i;
        manipulate::lemma_cell(j, i, q, p);
        assert(r % 1 == 0 && r / 1 == r) by (nonlinear_arith);
        assert(j % q == j && j / q == 0) by (nonlinear_arith)
            requires
                0 <= j < q,
        ;
        assert(((0 * p + i) * q + j) * 1 + 0 == i * q + j) by (nonlinear_arith);
        assert(model::swapped_index(r, p, q, 1) == i * q + j);
    }
}

/// A column and a row expand to a matrix.
pub proof fn lemma_outer<S: Scalar>(
    v: spec_fn(S) -> real,
    a: TensorV<S>,
    b: TensorV<S>,
    c: TensorV<S>,
)
    requires
        exact::exact(v),
        reals::full(a),
        reals::full(b),
        a.shape.len() == 2,
        a.shape[1] == 1,
        b.shape.len() == 2,
        b.shape[0] == 1,
        a.shape[0] > 0,
        b.shape[1] > 0,
        model::bin_tensor(BinOpV::Mul, a, b) == Ok::<TensorV<S>, Fault>(c),
    ensures
        c.shape == seq![a.shape[0], b.shape[1]],
        pairing::sizable(c),
        forall|i: int, j: int|
            0 <= i < a.shape[0] && 0 <= j < b.shape[1] ==> v(
                #[trigger] c.data[i * b.shape[1] + j],
            ) == v(a.data[i]) * v(b.data[j]),
{
    pairing::lemma_mul(v, a, b, c);
    let (m, n) = (a.shape[0] as int, b.shape[1] as int);
    assert(c.shape =~= seq![a.shape[0], b.shape[1]]) by {
        assert(shape::aligned(a.shape, 2, 0) == a.shape[0]);
        assert(shape::aligned(b.shape, 2, 0) == 1);
        assert(shape::aligned(a.shape, 2, 1) == 1);
        assert(shape::aligned(b.shape, 2, 1) == b.shape[1]);
    }
    lemma_product2(c.shape);
    assert forall|i: int, j: int| 0 <= i < m && 0 <= j < n implies v(#[trigger] c.data[i
        * b.shape[1] + j]) == v(a.data[i]) * v(b.data[j]) by {
        let r = i * n + j;
        manipulate::lemma_cell(i, j, m, n);
        let t = c.shape.drop_last();
        assert(t =~= seq![a.shape[0]]);
        let (ta, tb) = (a.shape.drop_last(), b.shape.drop_last());
        assert(ta =~= seq![a.shape[0]] && tb =~= seq![1usize]);
        assert(ta.drop_last() =~= Seq::<usize>::empty());
        assert(tb.drop_last() =~= Seq::<usize>::empty());
        assert(i % m == i) by (nonlinear_arith)
            requires
                0 <= i < m,
        ;
        assert(shape::source_index(i, t, ta) == i) by {
            assert(shape::source_index(i / m, t.drop_last(), ta.drop_last()) == 0);
            assert(0 * m == 0) by (nonlinear_arith);
        }
        assert(shape::source_index(i, t, tb) == 0) by {
            assert(shape::source_index(i / m, t.drop_last(), tb.drop_last()) == 0);
        }
        assert(shape::source_index(r, c.shape, a.shape) == i);
        assert(shape::source_index(r, c.shape, b.shape) == j) by {
            assert(0 * n == 0) by (nonlinear_arith);
            if n == 1 {
                assert(j == 0);
            }
        }
    }
}

} // verus!
