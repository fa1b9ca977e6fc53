//! The programs of contractions carry the weights of their results to their operands.

use vstd::prelude::*;
use crate::affine;
use crate::affine::{DotForm, DotV};
use crate::carry_products;
use crate::containment;
use crate::cubes;
use crate::cubes::{Bounded, Planes};
use crate::exact;
use crate::interval::IBPV;
use crate::manipulate;
use crate::matrices;
use crate::model;
use crate::model::{BinOpV, Fault, TensorV, UnOpV};
use crate::pairing;
use crate::reals;
use crate::scalar;
use crate::scalar::Scalar;
use crate::shape;
use crate::slopes;
use crate::sums;
use crate::support;
use crate::tensor::Tensor;
use crate::unspread;
use crate::value::{Reg, StepV};
use crate::vjp;
use crate::vjp::RuleV;

verus! {

/// The operands and the weight of a contraction as matrices: `l` by `n` times `n` by `m`.
pub open spec fn as_matrices<S>(
    v: spec_fn(S) -> real,
    w: TensorV<S>,
    x: TensorV<S>,
    y: TensorV<S>,
    a: IBPV<S>,
    b: IBPV<S>,
    l: nat,
    m: nat,
    n: nat,
) -> Bounded {
    Bounded {
        w: |i: int, j: int| v(w.data[i * m + j]),
        x: |i: int, k: int| v(x.data[i * n + k]),
        y: |k: int, j: int| v(y.data[k * m + j]),
        xl: |i: int, k: int| v(a.lb.data[i * n + k]),
        yl: |k: int, j: int| v(b.lb.data[k * m + j]),
        yu: |k: int, j: int| v(b.ub.data[k * m + j]),
        l,
        m,
        n,
    }
}

/// What the program of a contraction computes, as matrices.
pub open spec fn as_planes<S>(
    v: spec_fn(S) -> real,
    p: TensorV<S>,
    q: TensorV<S>,
    lo: TensorV<S>,
    hi: TensorV<S>,
    z: TensorV<S>,
    m: nat,
    n: nat,
) -> Planes {
    Planes {
        a: |i: int, k: int| v(p.data[i * n + k]),
        b: |k: int, j: int| v(q.data[k * m + j]),
        lo: |i: int, j: int| v(lo.data[i * m + j]),
        hi: |i: int, j: int| v(hi.data[i * m + j]),
        z: |i: int, j: int| v(z.data[i * m + j]),
    }
}

/// A sum over all elements of a matrix, row by row.
proof fn lemma_rows(f: spec_fn(int) -> real, g: spec_fn(int, int) -> real, l: nat, m: nat)
    requires
        forall|i: int, j: int| 0 <= i < l && 0 <= j < m ==> #[trigger] g(i, j) == f(i * m + j),
    ensures
        sums::sum(f, l * m) == cubes::square(g, l, m),
{
    sums::lemma_sum_blocks(f, l, m);
    let (p, q) = (
        |i: int| sums::sum(|j: int| f(i * m + j), m),
        |i: int| sums::sum(|j: int| g(i, j), m),
    );
    assert forall|i: int| 0 <= i < l implies #[trigger] p(i) == q(i) by {
        let (c, d) = (|j: int| f(i * m + j), |j: int| g(i, j));
        assert forall|j: int| 0 <= j < m implies #[trigger] c(j) == d(j) by {
            assert(g(i, j) == f(i * m + j));
        }
        sums::lemma_sum_same(c, d, m);
    }
    sums::lemma_sum_same(p, q, l);
}

/// The operands of a contraction lie in their bounds, as matrices.
proof fn lemma_in_bounds<S: Scalar>(
    v: spec_fn(S) -> real,
    w: TensorV<S>,
    x: TensorV<S>,
    y: TensorV<S>,
    a: IBPV<S>,
    b: IBPV<S>,
    l: nat,
    m: nat,
    n: nat,
)
    requires
        containment::inside(v, x, a),
        containment::inside(v, y, b),
        x.data.len() == l * n,
        y.data.len() == n * m,
    ensures
        cubes::in_bounds(as_matrices(v, w, x, y, a, b, l, m, n)),
{
    let t = as_matrices(v, w, x, y, a, b, l, m, n);
    assert forall|i: int, k: int| 0 <= i < t.l && 0 <= k < t.n implies (t.xl)(i, k)
        <= #[trigger] (t.x)(i, k) by {
        manipulate::lemma_cell(i, k, l as int, n as int);
        assert(v(a.lb.data[i * n + k]) <= v(x.data[i * n + k]));
    }
    assert forall|k: int, j: int| 0 <= k < t.n && 0 <= j < t.m implies (t.yl)(k, j)
        <= #[trigger] (t.y)(k, j) <= (t.yu)(k, j) by {
        manipulate::lemma_cell(k, j, n as int, m as int);
        assert(v(b.lb.data[k * m + j]) <= v(y.data[k * m + j]));
        assert(v(y.data[k * m + j]) <= v(b.ub.data[k * m + j]));
    }
}

/// What the bias of the program of a contraction is, and what its results are then.
proof fn lemma_assemble<S: Scalar>(
    v: spec_fn(S) -> real,
    x: TensorV<S>,
    y: TensorV<S>,
    z: TensorV<S>,
    a: IBPV<S>,
    b: IBPV<S>,
    w: TensorV<S>,
    lo: TensorV<S>,
    hi: TensorV<S>,
    parts: Seq<TensorV<S>>,
    l: nat,
    m: nat,
    n: nat,
)
    requires
        exact::exact(v),
        support::weighable(w),
        containment::inside(v, x, a),
        containment::inside(v, y, b),
        support::dense(x.shape),
        support::dense(y.shape),
        x.data.len() == l * n,
        y.data.len() == n * m,
        w.data.len() == l * m,
        parts.len() == 4,
        pairing::sizable(parts[0]),
        parts[0].shape == x.shape,
        pairing::sizable(parts[2]),
        parts[2].shape == y.shape,
        pairing::is_scalar(parts[1]),
        pairing::is_scalar(parts[3]),
        v(parts[3].data[0]) == 0real,
        v(parts[1].data[0]) == sums::sum(
            |r: int| slopes::positive(v(w.data[r])) * (-v(lo.data[r])),
            w.data.len(),
        ) + sums::sum(
            |r: int| slopes::negative(v(w.data[r])) * (-v(hi.data[r])),
            w.data.len(),
        ),
        cubes::are_planes(
            as_matrices(v, w, x, y, a, b, l, m, n),
            as_planes(v, parts[0], parts[2], lo, hi, z, m, n),
        ),
    ensures
        support::carries(v, parts, seq![x, y], w, z),
{
    let t = as_matrices(v, w, x, y, a, b, l, m, n);
    let s = as_planes(v, parts[0], parts[2], lo, hi, z, m, n);
    lemma_in_bounds(v, w, x, y, a, b, l, m, n);
    cubes::lemma_matrix_planes(t, s);
    let (p, q) = (parts[0], parts[2]);
    lemma_rows(
        |r: int| v(p.data[r]) * v(x.data[r]),
        |i: int, k: int| (s.a)(i, k) * (t.x)(i, k),
        l,
        n,
    );
    lemma_rows(
        |r: int| v(q.data[r]) * v(y.data[r]),
        |k: int, j: int| (s.b)(k, j) * (t.y)(k, j),
        n,
        m,
    );
    lemma_rows(
        |r: int| slopes::positive(v(w.data[r])) * (-v(lo.data[r])),
        |i: int, j: int| slopes::positive((t.w)(i, j)) * (-(s.lo)(i, j)),
        l,
        m,
    );
    lemma_rows(
        |r: int| slopes::negative(v(w.data[r])) * (-v(hi.data[r])),
        |i: int, j: int| slopes::negative((t.w)(i, j)) * (-(s.hi)(i, j)),
        l,
        m,
    );
    lemma_rows(
        |r: int| v(w.data[r]) * v(z.data[r]),
        |i: int, j: int| (t.w)(i, j) * (s.z)(i, j),
        l,
        m,
    );
    pairing::lemma_same_shape(x.shape);
    pairing::lemma_same_shape(y.shape);
    pairing::lemma_spread_same(v, p, x);
    pairing::lemma_spread_same(v, q, y);
    carry_products::lemma_two(v, parts, seq![x, y]);
}

// ---- the programs ----
/// The last steps of the program of a contraction.
proof fn lemma_bias_steps<S: Scalar>(form: DotForm, k: DotV<S>, n: int)
    requires
        n == (affine::split_steps::<S>() + affine::dot_weights(form, k)).len(),
    ensures
        ({
            let rule = affine::dot_program(form, k);
            &&& 10 <= n <= 12
            &&& rule.steps.len() == n + 10
            &&& rule.steps[0] == StepV::<S>::Un(UnOpV::Relu, Reg::In(0))
            &&& rule.steps[1] == StepV::<S>::Un(UnOpV::Neg, Reg::Out(0))
            &&& rule.steps[2] == StepV::<S>::Bin(BinOpV::Add, Reg::In(0), Reg::Out(1))
            &&& rule.steps[n] == StepV::Load(k.low_c)
            &&& rule.steps[n + 1] == StepV::Load(k.high_c)
            &&& rule.steps[n + 2] == StepV::<S>::Un(UnOpV::Neg, Reg::Out(n as usize))
            &&& rule.steps[n + 3] == StepV::<S>::Bin(
                BinOpV::Mul,
                Reg::Out(0),
                Reg::Out((n + 2) as usize),
            )
            &&& rule.steps[n + 4] == StepV::<S>::SumAll(Reg::Out((n + 3) as usize))
            &&& rule.steps[n + 5] == StepV::<S>::Un(UnOpV::Neg, Reg::Out((n + 1) as usize))
            &&& rule.steps[n + 6] == StepV::<S>::Bin(
                BinOpV::Mul,
                Reg::Out(2),
                Reg::Out((n + 5) as usize),
            )
            &&& rule.steps[n + 7] == StepV::<S>::SumAll(Reg::Out((n + 6) as usize))
            &&& rule.steps[n + 8] == StepV::<S>::Bin(
                BinOpV::Add,
                Reg::Out((n + 4) as usize),
                Reg::Out((n + 7) as usize),
            )
            &&& rule.steps[n + 9] == vjp::load_number(scalar::zero::<S>())
            &&& rule.outs == seq![
                Reg::Out((n - 2) as usize),
                Reg::Out((n + 8) as usize),
                Reg::Out((n - 1) as usize),
                Reg::Out((n + 9) as usize),
            ]
            &&& forall|i: int|
                3 <= i < n ==> #[trigger] rule.steps[i] == affine::dot_weights(form, k)[i - 3]
        }),
{
    reveal(affine::dot_program);
}

/// A part of a weight, times the negative of a constant, summed up.
proof fn lemma_bias_part<S: Scalar>(
    v: spec_fn(S) -> real,
    w: TensorV<S>,
    p: TensorV<S>,
    c: TensorV<S>,
    minus: TensorV<S>,
    t: TensorV<S>,
    u: TensorV<S>,
    part: spec_fn(real) -> real,
)
    requires
        exact::exact(v),
        pairing::sizable(w),
        pairing::sizable(p),
        pairing::sizable(c),
        p.shape == w.shape,
        c.shape == w.shape,
        forall|k: int| 0 <= k < w.data.len() ==> v(#[trigger] p.data[k]) == part(v(w.data[k])),
        model::un_tensor(UnOpV::Neg, c) == Ok::<TensorV<S>, Fault>(minus),
        model::bin_tensor(BinOpV::Mul, p, minus) == Ok::<TensorV<S>, Fault>(t),
        pairing::summed(t, u),
    ensures
        pairing::is_scalar(u),
        v(u.data[0]) == sums::sum(
            |r: int| part(v(w.data[r])) * (-v(c.data[r])),
            w.data.len(),
        ),
{
    pairing::lemma_neg(v, c, minus);
    pairing::lemma_mul_same(v, p, minus, t);
    pairing::lemma_sum_all(v, t, u);
    let f = |r: int| v(t.data[r]);
    let g = |r: int| part(v(w.data[r])) * (-v(c.data[r]));
    assert forall|r: int| 0 <= r < w.data.len() implies #[trigger] f(r) == g(r) by {
        assert(v(p.data[r]) == part(v(w.data[r])));
    }
    sums::lemma_sum_same(f, g, w.data.len());
}

/// The program of a contraction, up to the weights of its operands.
proof fn lemma_dot_run<S: Scalar>(
    v: spec_fn(S) -> real,
    form: DotForm,
    k: DotV<S>,
    n: int,
    inputs: Seq<TensorV<S>>,
    parts: Seq<TensorV<S>>,
) -> (all: Seq<TensorV<S>>)
    requires
        exact::exact(v),
        inputs.len() > 0,
        support::weighable(inputs[0]),
        n == (affine::split_steps::<S>() + affine::dot_weights(form, k)).len(),
        pairing::sizable(k.low_c),
        pairing::sizable(k.high_c),
        k.low_c.shape == inputs[0].shape,
        k.high_c.shape == inputs[0].shape,
        vjp::applied::<S, Tensor<S>>((), affine::dot_program(form, k), inputs).1 == Ok::<
            Seq<TensorV<S>>,
            Fault,
        >(parts),
    ensures
        pairing::performed(affine::dot_program(form, k).steps, inputs, all),
        carry_products::is_split(v, inputs[0], all[0], all[2]),
        parts.len() == 4,
        parts[0] == all[n - 2],
        parts[2] == all[n - 1],
        pairing::is_scalar(parts[1]),
        pairing::is_scalar(parts[3]),
        v(parts[3].data[0]) == 0real,
        v(parts[1].data[0]) == sums::sum(
            |r: int| slopes::positive(v(inputs[0].data[r])) * (-v(k.low_c.data[r])),
            inputs[0].data.len(),
        ) + sums::sum(
            |r: int| slopes::negative(v(inputs[0].data[r])) * (-v(k.high_c.data[r])),
            inputs[0].data.len(),
        ),
{
    let rule = affine::dot_program(form, k);
    let all = pairing::lemma_applied(rule, inputs, parts);
    let steps = rule.steps;
    let w = inputs[0];
    lemma_bias_steps(form, k, n);
    carry_products::lemma_split(v, steps, inputs, all);
    let (n0, n1, n2, n3, n4, n5, n6, n7) = (
        n as usize,
        (n + 1) as usize,
        (n + 2) as usize,
        (n + 3) as usize,
        (n + 4) as usize,
        (n + 5) as usize,
        (n + 6) as usize,
        (n + 7) as usize,
    );
    pairing::lemma_load_step(steps, inputs, all, n, k.low_c);
    pairing::lemma_load_step(steps, inputs, all, n + 1, k.high_c);
    pairing::lemma_un_step(steps, inputs, all, n + 2, UnOpV::Neg, Reg::Out(n0));
    pairing::lemma_bin_step(
        steps,
        inputs,
        all,
        n + 3,
        BinOpV::Mul,
        Reg::Out(0),
        Reg::Out(n2),
    );
    pairing::lemma_sum_step(steps, inputs, all, n + 4, Reg::Out(n3));
    pairing::lemma_un_step(steps, inputs, all, n + 5, UnOpV::Neg, Reg::Out(n1));
    pairing::lemma_bin_step(
        steps,
        inputs,
        all,
        n + 6,
        BinOpV::Mul,
        Reg::Out(2),
        Reg::Out(n5),
    );
    pairing::lemma_sum_step(steps, inputs, all, n + 7, Reg::Out(n6));
    pairing::lemma_bin_step(
        steps,
        inputs,
        all,
        n + 8,
        BinOpV::Add,
        Reg::Out(n4),
        Reg::Out(n7),
    );
    pairing::lemma_load_step(
        steps,
        inputs,
        all,
        n + 9,
        model::scalar_tensor(scalar::zero::<S>()),
    );
    let (pos, neg) = (|x: real| slopes::positive(x), |x: real| slopes::negative(x));
    lemma_bias_part(v, w, all[0], k.low_c, all[n + 2], all[n + 3], all[n + 4], pos);
    lemma_bias_part(v, w, all[2], k.high_c, all[n + 5], all[n + 6], all[n + 7], neg);
    pairing::lemma_add_scalars(v, all[n + 4], all[n + 7], all[n + 8]);
    sums::lemma_sum_same(
        |r: int| pos(v(w.data[r])) * (-v(k.low_c.data[r])),
        |r: int| slopes::positive(v(inputs[0].data[r])) * (-v(k.low_c.data[r])),
        w.data.len(),
    );
    sums::lemma_sum_same(
        |r: int| neg(v(w.data[r])) * (-v(k.high_c.data[r])),
        |r: int| slopes::negative(v(inputs[0].data[r])) * (-v(k.high_c.data[r])),
        w.data.len(),
    );
    exact::lemma_numbers(v);
    assert(parts[0] == pairing::named(rule.outs[0], inputs, all));
    assert(parts[1] == pairing::named(rule.outs[1], inputs, all));
    assert(parts[2] == pairing::named(rule.outs[2], inputs, all));
    assert(parts[3] == pairing::named(rule.outs[3], inputs, all));
    all
}

// ---- matrix by matrix ----
/// The weights in the program of a product of two matrices.
proof fn lemma_matrices_weights<S: Scalar>(
    v: spec_fn(S) -> real,
    a: IBPV<S>,
    b: IBPV<S>,
    k: DotV<S>,
    inputs: Seq<TensorV<S>>,
    all: Seq<TensorV<S>>,
    l: usize,
    m: usize,
    n: usize,
)
    requires
        exact::exact(v),
        inputs.len() > 0,
        support::weighable(inputs[0]),
        inputs[0].shape == seq![l, m],
        reals::full(a.lb),
        a.lb.shape == seq![l, n],
        reals::full(b.lb),
        reals::full(b.ub),
        b.lb.shape == seq![n, m],
        b.ub.shape == seq![n, m],
        l > 0,
        m > 0,
        n > 0,
        affine::dot_constants(DotForm::Matrices, a, b) == Ok::<DotV<S>, Fault>(k),
        pairing::performed(affine::dot_program(DotForm::Matrices, k).steps, inputs, all),
        carry_products::is_split(v, inputs[0], all[0], all[2]),
    ensures
        pairing::sizable(all[8]),
        all[8].shape == seq![l, n],
        pairing::sizable(all[9]),
        all[9].shape == seq![n, m],
        forall|i: int, c: int|
            0 <= i < l && 0 <= c < n ==> v(#[trigger] all[8].data[i * n + c]) == sums::sum(
                |j: int|
                    slopes::positive(v(inputs[0].data[i * m + j])) * v(b.lb.data[c * m + j])
                        + slopes::negative(v(inputs[0].data[i * m + j])) * v(
                        b.ub.data[c * m + j],
                    ),
                m as nat,
            ),
        forall|c: int, j: int|
            0 <= c < n && 0 <= j < m ==> v(#[trigger] all[9].data[c * m + j]) == sums::sum(
                |i: int| v(inputs[0].data[i * m + j]) * v(a.lb.data[i * n + c]),
                l as nat,
            ),
{
    let w = inputs[0];
    let rule = affine::dot_program(DotForm::Matrices, k);
    let steps = rule.steps;
    lemma_bias_steps(DotForm::Matrices, k, 10);
    assert(steps[3] == StepV::Load(k.low));
    assert(steps[4] == StepV::<S>::Bin(BinOpV::Dot, Reg::Out(0), Reg::Out(3)));
    assert(steps[5] == StepV::Load(k.high));
    assert(steps[6] == StepV::<S>::Bin(BinOpV::Dot, Reg::Out(2), Reg::Out(5)));
    assert(steps[7] == StepV::Load(k.left));
    assert(steps[8] == StepV::<S>::Bin(BinOpV::Add, Reg::Out(4), Reg::Out(6)));
    assert(steps[9] == StepV::<S>::Bin(BinOpV::Dot, Reg::Out(7), Reg::In(0)));
    pairing::lemma_load_step(steps, inputs, all, 3, k.low);
    pairing::lemma_bin_step(steps, inputs, all, 4, BinOpV::Dot, Reg::Out(0), Reg::Out(3));
    pairing::lemma_load_step(steps, inputs, all, 5, k.high);
    pairing::lemma_bin_step(steps, inputs, all, 6, BinOpV::Dot, Reg::Out(2), Reg::Out(5));
    pairing::lemma_load_step(steps, inputs, all, 7, k.left);
    pairing::lemma_bin_step(steps, inputs, all, 8, BinOpV::Add, Reg::Out(4), Reg::Out(6));
    pairing::lemma_bin_step(steps, inputs, all, 9, BinOpV::Dot, Reg::Out(7), Reg::In(0));
    matrices::lemma_transpose(b.lb, k.low);
    matrices::lemma_transpose(b.ub, k.high);
    matrices::lemma_transpose(a.lb, k.left);
    matrices::lemma_matmul(v, all[0], k.low, all[4], 0, 0);
    matrices::lemma_matmul(v, all[2], k.high, all[6], 0, 0);
    matrices::lemma_matmul(v, k.left, w, all[9], 0, 0);
    pairing::lemma_add_same(v, all[4], all[6], all[8]);
    matrices::lemma_product2(w.shape);
    matrices::lemma_product2(all[8].shape);
    matrices::lemma_product2(all[9].shape);
    assert forall|i: int, c: int| 0 <= i < l && 0 <= c < n implies v(#[trigger] all[8].data[i * n
        + c]) == sums::sum(
        |j: int|
            slopes::positive(v(inputs[0].data[i * m + j])) * v(b.lb.data[c * m + j])
                + slopes::negative(v(inputs[0].data[i * m + j])) * v(b.ub.data[c * m + j]),
        m as nat,
    ) by {
        matrices::lemma_matmul(v, all[0], k.low, all[4], i, c);
        matrices::lemma_matmul(v, all[2], k.high, all[6], i, c);
        manipulate::lemma_cell(i, c, l as int, n as int);
        let f = |j: int| v(all[0].data[i * m + j]) * v(k.low.data[j * n + c]);
        let g = |j: int| v(all[2].data[i * m + j]) * v(k.high.data[j * n + c]);
        let h = |j: int|
            slopes::positive(v(inputs[0].data[i * m + j])) * v(b.lb.data[c * m + j])
                + slopes::negative(v(inputs[0].data[i * m + j])) * v(b.ub.data[c * m + j]);
        assert forall|j: int| 0 <= j < m implies #[trigger] h(j) == f(j) + g(j) by {
            manipulate::lemma_cell(i, j, l as int, m as int);
            assert(k.low.data[j * b.lb.shape[0] + c] == b.lb.data[c * b.lb.shape[1] + j]);
            assert(k.high.data[j * b.ub.shape[0] + c] == b.ub.data[c * b.ub.shape[1] + j]);
            assert(v(all[0].data[i * m + j]) == slopes::positive(v(w.data[i * m + j])));
            assert(v(all[2].data[i * m + j]) == slopes::negative(v(w.data[i * m + j])));
        }
        sums::lemma_sum_plus(f, g, h, m as nat);
        sums::lemma_sum_same(
            |j: int| v(all[0].data[i * all[0].shape[1] + j]) * v(k.low.data[j * k.low.shape[1] + c]),
            f,
            m as nat,
        );
        sums::lemma_sum_same(
            |j: int|
                v(all[2].data[i * all[2].shape[1] + j]) * v(k.high.data[j * k.high.shape[1] + c]),
            g,
            m as nat,
        );
    }
    assert forall|c: int, j: int| 0 <= c < n && 0 <= j < m implies v(#[trigger] all[9].data[c * m
        + j]) == sums::sum(
        |i: int| v(inputs[0].data[i * m + j]) * v(a.lb.data[i * n + c]),
        l as nat,
    ) by {
        matrices::lemma_matmul(v, k.left, w, all[9], c, j);
        let f = |i: int| v(k.left.data[c * k.left.shape[1] + i]) * v(w.data[i * w.shape[1] + j]);
        let g = |i: int| v(inputs[0].data[i * m + j]) * v(a.lb.data[i * n + c]);
        assert forall|i: int| 0 <= i < l implies #[trigger] f(i) == g(i) by {
            assert(k.left.data[c * a.lb.shape[0] + i] == a.lb.data[i * a.lb.shape[1] + c]);
            exact::lemma_units(v(w.data[i * m + j]), v(a.lb.data[i * n + c]));
        }
        sums::lemma_sum_same(f, g, l as nat);
    }
}

/// The product of two matrices, with named lengths.
proof fn lemma_matmul_at<S: Scalar>(
    v: spec_fn(S) -> real,
    a: TensorV<S>,
    b: TensorV<S>,
    c: TensorV<S>,
    l: usize,
    m: usize,
    n: usize,
    i: int,
    j: int,
)
    requires
        exact::exact(v),
        reals::full(a),
        reals::full(b),
        a.shape == seq![l, n],
        b.shape == seq![n, m],
        model::bin_tensor(BinOpV::Dot, a, b) == Ok::<TensorV<S>, Fault>(c),
        0 <= i < l,
        0 <= j < m,
    ensures
        c.shape == seq![l, m],
        pairing::sizable(c),
        v(c.data[i * m + j]) == sums::sum(
            |k: int| v(a.data[i * n + k]) * v(b.data[k * m + j]),
            n as nat,
        ),
{
    matrices::lemma_matmul(v, a, b, c, i, j);
    sums::lemma_sum_same(
        |k: int| v(a.data[i * a.shape[1] + k]) * v(b.data[k * b.shape[1] + j]),
        |k: int| v(a.data[i * n + k]) * v(b.data[k * m + j]),
        n as nat,
    );
}

/// The program of a product of two matrices carries weights.
pub proof fn lemma_matrices_carry<S: Scalar>(
    v: spec_fn(S) -> real,
    x: TensorV<S>,
    y: TensorV<S>,
    z: TensorV<S>,
    a: IBPV<S>,
    b: IBPV<S>,
    k: DotV<S>,
    inputs: Seq<TensorV<S>>,
    parts: Seq<TensorV<S>>,
)
    requires
        exact::exact(v),
        inputs.len() > 0,
        support::weighable(inputs[0]),
        support::weighable(x),
        support::weighable(y),
        containment::inside(v, x, a),
        containment::inside(v, y, b),
        x.shape.len() == 2,
        y.shape.len() == 2,
        inputs[0].shape == z.shape,
        model::bin_tensor(BinOpV::Dot, x, y) == Ok::<TensorV<S>, Fault>(z),
        affine::dot_constants(DotForm::Matrices, a, b) == Ok::<DotV<S>, Fault>(k),
        vjp::applied::<S, Tensor<S>>((), affine::dot_program(DotForm::Matrices, k), inputs).1
            == Ok::<Seq<TensorV<S>>, Fault>(parts),
    ensures
        support::carries(v, parts, seq![x, y], inputs[0], z),
{
    let w = inputs[0];
    let (l, m, n) = (x.shape[0], y.shape[1], x.shape[1]);
    assert(l > 0 && m > 0 && n > 0);
    matrices::lemma_matmul(v, x, y, z, 0, 0);
    assert(x.shape =~= seq![l, n]);
    assert(y.shape =~= seq![n, m]);
    lemma_matmul_at(v, a.lb, b.lb, k.low_c, l, m, n, 0, 0);
    lemma_matmul_at(v, a.lb, b.ub, k.high_c, l, m, n, 0, 0);
    assert((affine::split_steps::<S>() + affine::dot_weights(DotForm::Matrices, k)).len() == 10);
    let all = lemma_dot_run(v, DotForm::Matrices, k, 10, inputs, parts);
    lemma_matrices_weights(v, a, b, k, inputs, all, l, m, n);
    matrices::lemma_product2(x.shape);
    matrices::lemma_product2(y.shape);
    matrices::lemma_product2(w.shape);
    let (ll, mm, nn) = (l as nat, m as nat, n as nat);
    let t = as_matrices(v, w, x, y, a, b, ll, mm, nn);
    let s = as_planes(v, parts[0], parts[2], k.low_c, k.high_c, z, mm, nn);
    assert(cubes::are_planes(t, s)) by {
        assert forall|i: int, c: int| 0 <= i < t.l && 0 <= c < t.n implies #[trigger] (s.a)(i, c)
            == sums::sum(
            |j: int|
                slopes::positive((t.w)(i, j)) * (t.yl)(c, j) + slopes::negative((t.w)(i, j))
                    * (t.yu)(c, j),
            t.m,
        ) by {
            assert(v(all[8].data[i * n + c]) == (s.a)(i, c));
            sums::lemma_sum_same(
                |j: int|
                    slopes::positive(v(inputs[0].data[i * m + j])) * v(b.lb.data[c * m + j])
                        + slopes::negative(v(inputs[0].data[i * m + j])) * v(
                        b.ub.data[c * m + j],
                    ),
                |j: int|
                    slopes::positive((t.w)(i, j)) * (t.yl)(c, j) + slopes::negative((t.w)(i, j))
                        * (t.yu)(c, j),
                t.m,
            );
        }
        assert forall|c: int, j: int| 0 <= c < t.n && 0 <= j < t.m implies #[trigger] (s.b)(c, j)
            == sums::sum(|i: int| (t.w)(i, j) * (t.xl)(i, c), t.l) by {
            assert(v(all[9].data[c * m + j]) == (s.b)(c, j));
            sums::lemma_sum_same(
                |i: int| v(inputs[0].data[i * m + j]) * v(a.lb.data[i * n + c]),
                |i: int| (t.w)(i, j) * (t.xl)(i, c),
                t.l,
            );
        }
        assert forall|i: int, j: int| 0 <= i < t.l && 0 <= j < t.m implies #[trigger] (s.lo)(i, j)
            == sums::sum(|c: int| (t.xl)(i, c) * (t.yl)(c, j), t.n) by {
            lemma_matmul_at(v, a.lb, b.lb, k.low_c, l, m, n, i, j);
            sums::lemma_sum_same(
                |c: int| v(a.lb.data[i * n + c]) * v(b.lb.data[c * m + j]),
                |c: int| (t.xl)(i, c) * (t.yl)(c, j),
                t.n,
            );
        }
        assert forall|i: int, j: int| 0 <= i < t.l && 0 <= j < t.m implies #[trigger] (s.hi)(i, j)
            == sums::sum(|c: int| (t.xl)(i, c) * (t.yu)(c, j), t.n) by {
            lemma_matmul_at(v, a.lb, b.ub, k.high_c, l, m, n, i, j);
            sums::lemma_sum_same(
                |c: int| v(a.lb.data[i * n + c]) * v(b.ub.data[c * m + j]),
                |c: int| (t.xl)(i, c) * (t.yu)(c, j),
                t.n,
            );
        }
        assert forall|i: int, j: int| 0 <= i < t.l && 0 <= j < t.m implies #[trigger] (s.z)(i, j)
            == sums::sum(|c: int| (t.x)(i, c) * (t.y)(c, j), t.n) by {
            lemma_matmul_at(v, x, y, z, l, m, n, i, j);
            sums::lemma_sum_same(
                |c: int| v(x.data[i * n + c]) * v(y.data[c * m + j]),
                |c: int| (t.x)(i, c) * (t.y)(c, j),
                t.n,
            );
        }
    }
    lemma_assemble(v, x, y, z, a, b, w, k.low_c, k.high_c, parts, ll, mm, nn);
}

// ---- vector by matrix ----
/// A vector as a column or a row.
proof fn lemma_expand_vector<S: Scalar>(a: TensorV<S>, axis: isize, c: TensorV<S>)
    requires
        reals::full(a),
        a.shape.len() == 1,
        axis == 0 || axis == 1 || axis == -1,
        model::un_tensor(UnOpV::ExpandDims(seq![axis]), a) == Ok::<TensorV<S>, Fault>(c),
    ensures
        c.shape == (if axis == 0 {
            seq![1, a.shape[0]]
        } else {
            seq![a.shape[0], 1]
        }),
        c.data == a.data,
        pairing::sizable(c),
{
    let n = a.shape[0];
    if axis == 0 {
        let t = seq![1usize, n];
        assert(t.remove(0) =~= a.shape);
        unspread::lemma_expand_single(t, axis);
        assert(t.update(0, 1) =~= t);
    } else {
        let t = seq![n, 1usize];
        assert(t.remove(1) =~= a.shape);
        unspread::lemma_expand_single(t, axis);
        assert(t.update(1, 1) =~= t);
    }
    matrices::lemma_product1(a.shape);
    matrices::lemma_product2(c.shape);
    assert(c.shape[0] * c.shape[1] == n) by {
        if axis == 0 {
            assert(1 * n == n) by (nonlinear_arith);
        } else {
            assert(n * 1 == n) by (nonlinear_arith);
        }
    }
}

/// The product of a matrix and a vector, with named lengths.
proof fn lemma_matvec_at<S: Scalar>(
    v: spec_fn(S) -> real,
    a: TensorV<S>,
    b: TensorV<S>,
    c: TensorV<S>,
    l: usize,
    n: usize,
    i: int,
)
    requires
        exact::exact(v),
        reals::full(a),
        reals::full(b),
        a.shape == seq![l, n],
        b.shape == seq![n],
        model::bin_tensor(BinOpV::Dot, a, b) == Ok::<TensorV<S>, Fault>(c),
        0 <= i < l,
    ensures
        c.shape == seq![l],
        pairing::sizable(c),
        v(c.data[i]) == sums::sum(|k: int| v(a.data[i * n + k]) * v(b.data[k]), n as nat),
{
    matrices::lemma_matvec(v, a, b, c, i);
    sums::lemma_sum_same(
        |k: int| v(a.data[i * a.shape[1] + k]) * v(b.data[k]),
        |k: int| v(a.data[i * n + k]) * v(b.data[k]),
        n as nat,
    );
}

/// The product of a vector and a matrix, with named lengths.
proof fn lemma_vecmat_at<S: Scalar>(
    v: spec_fn(S) -> real,
    a: TensorV<S>,
    b: TensorV<S>,
    c: TensorV<S>,
    m: usize,
    n: usize,
    j: int,
)
    requires
        exact::exact(v),
        reals::full(a),
        reals::full(b),
        a.shape == seq![n],
        b.shape == seq![n, m],
        model::bin_tensor(BinOpV::Dot, a, b) == Ok::<TensorV<S>, Fault>(c),
        0 <= j < m,
    ensures
        c.shape == seq![m],
        pairing::sizable(c),
        v(c.data[j]) == sums::sum(|k: int| v(a.data[k]) * v(b.data[k * m + j]), n as nat),
{
    matrices::lemma_vecmat(v, a, b, c, j);
    sums::lemma_sum_same(
        |k: int| v(a.data[k]) * v(b.data[k * b.shape[1] + j]),
        |k: int| v(a.data[k]) * v(b.data[k * m + j]),
        n as nat,
    );
}

/// The transpose of a matrix, times a vector.
proof fn lemma_turned_matvec<S: Scalar>(
    v: spec_fn(S) -> real,
    a: TensorV<S>,
    t: TensorV<S>,
    b: TensorV<S>,
    c: TensorV<S>,
    l: usize,
    n: usize,
    j: int,
)
    requires
        exact::exact(v),
        reals::full(a),
        reals::full(b),
        a.shape == seq![l, n],
        b.shape == seq![l],
        model::un_tensor(UnOpV::MoveAxis(0, 1), a) == Ok::<TensorV<S>, Fault>(t),
        model::bin_tensor(BinOpV::Dot, t, b) == Ok::<TensorV<S>, Fault>(c),
        0 <= j < n,
    ensures
        c.shape == seq![n],
        pairing::sizable(c),
        v(c.data[j]) == sums::sum(|i: int| v(b.data[i]) * v(a.data[i * n + j]), l as nat),
{
    matrices::lemma_transpose(a, t);
    lemma_matvec_at(v, t, b, c, n, l, j);
    let f = |i: int| v(t.data[j * l + i]) * v(b.data[i]);
    let g = |i: int| v(b.data[i]) * v(a.data[i * n + j]);
    assert forall|i: int| 0 <= i < l implies #[trigger] f(i) == g(i) by {
        assert(t.data[j * a.shape[0] + i] == a.data[i * a.shape[1] + j]);
        exact::lemma_units(v(b.data[i]), v(a.data[i * n + j]));
    }
    sums::lemma_sum_same(f, g, l as nat);
}

/// The weights in the program of a product of a vector and a matrix.
proof fn lemma_vector_weights<S: Scalar>(
    v: spec_fn(S) -> real,
    a: IBPV<S>,
    b: IBPV<S>,
    k: DotV<S>,
    inputs: Seq<TensorV<S>>,
    all: Seq<TensorV<S>>,
    m: usize,
    n: usize,
)
    requires
        exact::exact(v),
        inputs.len() > 0,
        support::weighable(inputs[0]),
        inputs[0].shape == seq![m],
        reals::full(a.lb),
        a.lb.shape == seq![n],
        reals::full(b.lb),
        reals::full(b.ub),
        b.lb.shape == seq![n, m],
        b.ub.shape == seq![n, m],
        m > 0,
        n > 0,
        affine::dot_constants(DotForm::VectorMatrix, a, b) == Ok::<DotV<S>, Fault>(k),
        pairing::performed(affine::dot_program(DotForm::VectorMatrix, k).steps, inputs, all),
        carry_products::is_split(v, inputs[0], all[0], all[2]),
    ensures
        pairing::sizable(all[9]),
        all[9].shape == seq![n],
        pairing::sizable(all[10]),
        all[10].shape == seq![n, m],
        forall|c: int|
            0 <= c < n ==> v(#[trigger] all[9].data[c]) == sums::sum(
                |j: int|
                    slopes::positive(v(inputs[0].data[j])) * v(b.lb.data[c * m + j])
                        + slopes::negative(v(inputs[0].data[j])) * v(b.ub.data[c * m + j]),
                m as nat,
            ),
        forall|c: int, j: int|
            0 <= c < n && 0 <= j < m ==> v(#[trigger] all[10].data[c * m + j]) == v(
                inputs[0].data[j],
            ) * v(a.lb.data[c]),
{
    let w = inputs[0];
    let rule = affine::dot_program(DotForm::VectorMatrix, k);
    let steps = rule.steps;
    lemma_bias_steps(DotForm::VectorMatrix, k, 11);
    assert(steps[3] == StepV::Load(k.low));
    assert(steps[4] == StepV::<S>::Bin(BinOpV::Dot, Reg::Out(3), Reg::Out(0)));
    assert(steps[5] == StepV::Load(k.high));
    assert(steps[6] == StepV::<S>::Bin(BinOpV::Dot, Reg::Out(5), Reg::Out(2)));
    assert(steps[7] == StepV::Load(k.left));
    assert(steps[8] == StepV::<S>::Un(UnOpV::ExpandDims(seq![0isize]), Reg::In(0)));
    assert(steps[9] == StepV::<S>::Bin(BinOpV::Add, Reg::Out(4), Reg::Out(6)));
    assert(steps[10] == StepV::<S>::Bin(BinOpV::Mul, Reg::Out(7), Reg::Out(8)));
    pairing::lemma_load_step(steps, inputs, all, 3, k.low);
    pairing::lemma_bin_step(steps, inputs, all, 4, BinOpV::Dot, Reg::Out(3), Reg::Out(0));
    pairing::lemma_load_step(steps, inputs, all, 5, k.high);
    pairing::lemma_bin_step(steps, inputs, all, 6, BinOpV::Dot, Reg::Out(5), Reg::Out(2));
    pairing::lemma_load_step(steps, inputs, all, 7, k.left);
    pairing::lemma_un_step(steps, inputs, all, 8, UnOpV::ExpandDims(seq![0isize]), Reg::In(0));
    pairing::lemma_bin_step(steps, inputs, all, 9, BinOpV::Add, Reg::Out(4), Reg::Out(6));
    pairing::lemma_bin_step(steps, inputs, all, 10, BinOpV::Mul, Reg::Out(7), Reg::Out(8));
    lemma_expand_vector(a.lb, 1, k.left);
    lemma_expand_vector(w, 0, all[8]);
    matrices::lemma_outer(v, k.left, all[8], all[10]);
    lemma_matvec_at(v, b.lb, all[0], all[4], n, m, 0);
    lemma_matvec_at(v, b.ub, all[2], all[6], n, m, 0);
    pairing::lemma_add_same(v, all[4], all[6], all[9]);
    matrices::lemma_product1(all[9].shape);
    matrices::lemma_product1(w.shape);
    assert forall|c: int| 0 <= c < n implies v(#[trigger] all[9].data[c]) == sums::sum(
        |j: int|
            slopes::positive(v(inputs[0].data[j])) * v(b.lb.data[c * m + j]) + slopes::negative(
                v(inputs[0].data[j]),
            ) * v(b.ub.data[c * m + j]),
        m as nat,
    ) by {
        lemma_matvec_at(v, b.lb, all[0], all[4], n, m, c);
        lemma_matvec_at(v, b.ub, all[2], all[6], n, m, c);
        let f = |j: int| v(b.lb.data[c * m + j]) * v(all[0].data[j]);
        let g = |j: int| v(b.ub.data[c * m + j]) * v(all[2].data[j]);
        let h = |j: int|
            slopes::positive(v(inputs[0].data[j])) * v(b.lb.data[c * m + j]) + slopes::negative(
                v(inputs[0].data[j]),
            ) * v(b.ub.data[c * m + j]);
        assert forall|j: int| 0 <= j < m implies #[trigger] h(j) == f(j) + g(j) by {
            assert(v(all[0].data[j]) == slopes::positive(v(w.data[j])));
            assert(v(all[2].data[j]) == slopes::negative(v(w.data[j])));
            exact::lemma_units(v(all[0].data[j]), v(b.lb.data[c * m + j]));
            exact::lemma_units(v(all[2].data[j]), v(b.ub.data[c * m + j]));
        }
        sums::lemma_sum_plus(f, g, h, m as nat);
    }
    assert forall|c: int, j: int| 0 <= c < n && 0 <= j < m implies v(#[trigger] all[10].data[c * m
        + j]) == v(inputs[0].data[j]) * v(a.lb.data[c]) by {
        assert(v(all[10].data[c * all[8].shape[1] + j]) == v(k.left.data[c]) * v(
            all[8].data[j],
        ));
        exact::lemma_units(v(w.data[j]), v(a.lb.data[c]));
    }
}

/// The program of a product of a vector and a matrix carries weights.
pub proof fn lemma_vector_carries<S: Scalar>(
    v: spec_fn(S) -> real,
    x: TensorV<S>,
    y: TensorV<S>,
    z: TensorV<S>,
    a: IBPV<S>,
    b: IBPV<S>,
    k: DotV<S>,
    inputs: Seq<TensorV<S>>,
    parts: Seq<TensorV<S>>,
)
    requires
        exact::exact(v),
        inputs.len() > 0,
        support::weighable(inputs[0]),
        support::weighable(x),
        support::weighable(y),
        containment::inside(v, x, a),
        containment::inside(v, y, b),
        x.shape.len() == 1,
        y.shape.len() == 2,
        inputs[0].shape == z.shape,
        model::bin_tensor(BinOpV::Dot, x, y) == Ok::<TensorV<S>, Fault>(z),
        affine::dot_constants(DotForm::VectorMatrix, a, b) == Ok::<DotV<S>, Fault>(k),
        vjp::applied::<S, Tensor<S>>((), affine::dot_program(DotForm::VectorMatrix, k), inputs).1
            == Ok::<Seq<TensorV<S>>, Fault>(parts),
    ensures
        support::carries(v, parts, seq![x, y], inputs[0], z),
{
    let w = inputs[0];
    let (m, n) = (y.shape[1], x.shape[0]);
    assert(m > 0 && n > 0);
    matrices::lemma_vecmat(v, x, y, z, 0);
    assert(x.shape =~= seq![n]);
    assert(y.shape =~= seq![n, m]);
    let (tl, th) = (
        model::un_tensor(UnOpV::MoveAxis(0, 1), b.lb)->Ok_0,
        model::un_tensor(UnOpV::MoveAxis(0, 1), b.ub)->Ok_0,
    );
    lemma_turned_matvec(v, b.lb, tl, a.lb, k.low_c, n, m, 0);
    lemma_turned_matvec(v, b.ub, th, a.lb, k.high_c, n, m, 0);
    assert((affine::split_steps::<S>() + affine::dot_weights(DotForm::VectorMatrix, k)).len()
        == 11);
    let all = lemma_dot_run(v, DotForm::VectorMatrix, k, 11, inputs, parts);
    lemma_vector_weights(v, a, b, k, inputs, all, m, n);
    matrices::lemma_product1(x.shape);
    matrices::lemma_product2(y.shape);
    matrices::lemma_product1(w.shape);
    let (mm, nn) = (m as nat, n as nat);
    assert(1 * nn == nn && 1 * mm == mm) by (nonlinear_arith);
    assert(0 * nn == 0 && 0 * mm == 0) by (nonlinear_arith);
    let t = as_matrices(v, w, x, y, a, b, 1, mm, nn);
    let s = as_planes(v, parts[0], parts[2], k.low_c, k.high_c, z, mm, nn);
    assert(cubes::are_planes(t, s)) by {
        assert forall|i: int, c: int| 0 <= i < t.l && 0 <= c < t.n implies #[trigger] (s.a)(i, c)
            == sums::sum(
            |j: int|
                slopes::positive((t.w)(i, j)) * (t.yl)(c, j) + slopes::negative((t.w)(i, j))
                    * (t.yu)(c, j),
            t.m,
        ) by {
            assert(i == 0);
            assert(v(all[9].data[c]) == (s.a)(i, c));
            sums::lemma_sum_same(
                |j: int|
                    slopes::positive(v(inputs[0].data[j])) * v(b.lb.data[c * m + j])
                        + slopes::negative(v(inputs[0].data[j])) * v(b.ub.data[c * m + j]),
                |j: int|
                    slopes::positive((t.w)(i, j)) * (t.yl)(c, j) + slopes::negative((t.w)(i, j))
                        * (t.yu)(c, j),
                t.m,
            );
        }
        assert forall|c: int, j: int| 0 <= c < t.n && 0 <= j < t.m implies #[trigger] (s.b)(c, j)
            == sums::sum(|i: int| (t.w)(i, j) * (t.xl)(i, c), t.l) by {
            assert(v(all[10].data[c * m + j]) == (s.b)(c, j));
            let f = |i: int| (t.w)(i, j) * (t.xl)(i, c);
            assert(sums::sum(f, 0) == 0real);
            assert(sums::sum(f, 1) == f(0));
        }
        assert forall|i: int, j: int| 0 <= i < t.l && 0 <= j < t.m implies #[trigger] (s.lo)(i, j)
            == sums::sum(|c: int| (t.xl)(i, c) * (t.yl)(c, j), t.n) by {
            assert(i == 0);
            lemma_turned_matvec(v, b.lb, tl, a.lb, k.low_c, n, m, j);
            sums::lemma_sum_same(
                |c: int| v(a.lb.data[c]) * v(b.lb.data[c * m + j]),
                |c: int| (t.xl)(i, c) * (t.yl)(c, j),
                t.n,
            );
        }
        assert forall|i: int, j: int| 0 <= i < t.l && 0 <= j < t.m implies #[trigger] (s.hi)(i, j)
            == sums::sum(|c: int| (t.xl)(i, c) * (t.yu)(c, j), t.n) by {
            assert(i == 0);
            lemma_turned_matvec(v, b.ub, th, a.lb, k.high_c, n, m, j);
            sums::lemma_sum_same(
                |c: int| v(a.lb.data[c]) * v(b.ub.data[c * m + j]),
                |c: int| (t.xl)(i, c) * (t.yu)(c, j),
                t.n,
            );
        }
        assert forall|i: int, j: int| 0 <= i < t.l && 0 <= j < t.m implies #[trigger] (s.z)(i, j)
            == sums::sum(|c: int| (t.x)(i, c) * (t.y)(c, j), t.n) by {
            assert(i == 0);
            lemma_vecmat_at(v, x, y, z, m, n, j);
            sums::lemma_sum_same(
                |c: int| v(x.data[c]) * v(y.data[c * m + j]),
                |c: int| (t.x)(i, c) * (t.y)(c, j),
                t.n,
            );
        }
    }
    lemma_assemble(v, x, y, z, a, b, w, k.low_c, k.high_c, parts, 1, mm, nn);
}

// ---- matrix by vector ----
/// The weights in the program of a product of a matrix and a vector.
proof fn lemma_column_weights<S: Scalar>(
    v: spec_fn(S) -> real,
    a: IBPV<S>,
    b: IBPV<S>,
    k: DotV<S>,
    inputs: Seq<TensorV<S>>,
    all: Seq<TensorV<S>>,
    l: usize,
    n: usize,
)
    requires
        exact::exact(v),
        inputs.len() > 0,
        support::weighable(inputs[0]),
        inputs[0].shape == seq![l],
        reals::full(a.lb),
        a.lb.shape == seq![l, n],
        reals::full(b.lb),
        reals::full(b.ub),
        b.lb.shape == seq![n],
        b.ub.shape == seq![n],
        l > 0,
        n > 0,
        affine::dot_constants(DotForm::MatrixVector, a, b) == Ok::<DotV<S>, Fault>(k),
        pairing::performed(affine::dot_program(DotForm::MatrixVector, k).steps, inputs, all),
        carry_products::is_split(v, inputs[0], all[0], all[2]),
    ensures
        pairing::sizable(all[10]),
        all[10].shape == seq![l, n],
        pairing::sizable(all[11]),
        all[11].shape == seq![n],
        forall|i: int, c: int|
            0 <= i < l && 0 <= c < n ==> v(#[trigger] all[10].data[i * n + c])
                == slopes::positive(v(inputs[0].data[i])) * v(b.lb.data[c]) + slopes::negative(
                v(inputs[0].data[i]),
            ) * v(b.ub.data[c]),
        forall|c: int|
            0 <= c < n ==> v(#[trigger] all[11].data[c]) == sums::sum(
                |i: int| v(inputs[0].data[i]) * v(a.lb.data[i * n + c]),
                l as nat,
            ),
{
    let w = inputs[0];
    let rule = affine::dot_program(DotForm::MatrixVector, k);
    let steps = rule.steps;
    let back = UnOpV::<S>::ExpandDims(seq![(-1) as isize]);
    lemma_bias_steps(DotForm::MatrixVector, k, 12);
    assert(steps[3] == StepV::<S>::Un(back, Reg::Out(0)));
    assert(steps[4] == StepV::Load(k.low));
    assert(steps[5] == StepV::<S>::Bin(BinOpV::Mul, Reg::Out(3), Reg::Out(4)));
    assert(steps[6] == StepV::<S>::Un(back, Reg::Out(2)));
    assert(steps[7] == StepV::Load(k.high));
    assert(steps[8] == StepV::<S>::Bin(BinOpV::Mul, Reg::Out(6), Reg::Out(7)));
    assert(steps[9] == StepV::Load(k.left));
    assert(steps[10] == StepV::<S>::Bin(BinOpV::Add, Reg::Out(5), Reg::Out(8)));
    assert(steps[11] == StepV::<S>::Bin(BinOpV::Dot, Reg::Out(9), Reg::In(0)));
    pairing::lemma_un_step(steps, inputs, all, 3, back, Reg::Out(0));
    pairing::lemma_load_step(steps, inputs, all, 4, k.low);
    pairing::lemma_bin_step(steps, inputs, all, 5, BinOpV::Mul, Reg::Out(3), Reg::Out(4));
    pairing::lemma_un_step(steps, inputs, all, 6, back, Reg::Out(2));
    pairing::lemma_load_step(steps, inputs, all, 7, k.high);
    pairing::lemma_bin_step(steps, inputs, all, 8, BinOpV::Mul, Reg::Out(6), Reg::Out(7));
    pairing::lemma_load_step(steps, inputs, all, 9, k.left);
    pairing::lemma_bin_step(steps, inputs, all, 10, BinOpV::Add, Reg::Out(5), Reg::Out(8));
    pairing::lemma_bin_step(steps, inputs, all, 11, BinOpV::Dot, Reg::Out(9), Reg::In(0));
    lemma_expand_vector(all[0], (-1) as isize, all[3]);
    lemma_expand_vector(all[2], (-1) as isize, all[6]);
    lemma_expand_vector(b.lb, 0, k.low);
    lemma_expand_vector(b.ub, 0, k.high);
    matrices::lemma_outer(v, all[3], k.low, all[5]);
    matrices::lemma_outer(v, all[6], k.high, all[8]);
    pairing::lemma_add_same(v, all[5], all[8], all[10]);
    lemma_turned_matvec(v, a.lb, k.left, w, all[11], l, n, 0);
    matrices::lemma_product2(all[10].shape);
    matrices::lemma_product1(w.shape);
    assert forall|i: int, c: int| 0 <= i < l && 0 <= c < n implies v(#[trigger] all[10].data[i * n
        + c]) == slopes::positive(v(inputs[0].data[i])) * v(b.lb.data[c]) + slopes::negative(
        v(inputs[0].data[i]),
    ) * v(b.ub.data[c]) by {
        manipulate::lemma_cell(i, c, l as int, n as int);
        assert(v(all[5].data[i * k.low.shape[1] + c]) == v(all[3].data[i]) * v(k.low.data[c]));
        assert(v(all[8].data[i * k.high.shape[1] + c]) == v(all[6].data[i]) * v(k.high.data[c]));
        assert(v(all[0].data[i]) == slopes::positive(v(w.data[i])));
        assert(v(all[2].data[i]) == slopes::negative(v(w.data[i])));
    }
    assert forall|c: int| 0 <= c < n implies v(#[trigger] all[11].data[c]) == sums::sum(
        |i: int| v(inputs[0].data[i]) * v(a.lb.data[i * n + c]),
        l as nat,
    ) by {
        lemma_turned_matvec(v, a.lb, k.left, w, all[11], l, n, c);
    }
}

/// The program of a product of a matrix and a vector carries weights.
pub proof fn lemma_column_carries<S: Scalar>(
    v: spec_fn(S) -> real,
    x: TensorV<S>,
    y: TensorV<S>,
    z: TensorV<S>,
    a: IBPV<S>,
    b: IBPV<S>,
    k: DotV<S>,
    inputs: Seq<TensorV<S>>,
    parts: Seq<TensorV<S>>,
)
    requires
        exact::exact(v),
        inputs.len() > 0,
        support::weighable(inputs[0]),
        support::weighable(x),
        support::weighable(y),
        containment::inside(v, x, a),
        containment::inside(v, y, b),
        x.shape.len() == 2,
        y.shape.len() == 1,
        inputs[0].shape == z.shape,
        model::bin_tensor(BinOpV::Dot, x, y) == Ok::<TensorV<S>, Fault>(z),
        affine::dot_constants(DotForm::MatrixVector, a, b) == Ok::<DotV<S>, Fault>(k),
        vjp::applied::<S, Tensor<S>>((), affine::dot_program(DotForm::MatrixVector, k), inputs).1
            == Ok::<Seq<TensorV<S>>, Fault>(parts),
    ensures
        support::carries(v, parts, seq![x, y], inputs[0], z),
{
    let w = inputs[0];
    let (l, n) = (x.shape[0], x.shape[1]);
    assert(l > 0 && n > 0);
    matrices::lemma_matvec(v, x, y, z, 0);
    assert(x.shape =~= seq![l, n]);
    assert(y.shape =~= seq![n]);
    lemma_matvec_at(v, a.lb, b.lb, k.low_c, l, n, 0);
    lemma_matvec_at(v, a.lb, b.ub, k.high_c, l, n, 0);
    assert((affine::split_steps::<S>() + affine::dot_weights(DotForm::MatrixVector, k)).len()
        == 12);
    let all = lemma_dot_run(v, DotForm::MatrixVector, k, 12, inputs, parts);
    lemma_column_weights(v, a, b, k, inputs, all, l, n);
    matrices::lemma_product2(x.shape);
    matrices::lemma_product1(y.shape);
    matrices::lemma_product1(w.shape);
    let (ll, nn) = (l as nat, n as nat);
    assert(nn * 1 == nn && ll * 1 == ll) by (nonlinear_arith);
    let t = as_matrices(v, w, x, y, a, b, ll, 1, nn);
    let s = as_planes(v, parts[0], parts[2], k.low_c, k.high_c, z, 1, nn);
    assert(cubes::are_planes(t, s)) by {
        assert forall|i: int, c: int| 0 <= i < t.l && 0 <= c < t.n implies #[trigger] (s.a)(i, c)
            == sums::sum(
            |j: int|
                slopes::positive((t.w)(i, j)) * (t.yl)(c, j) + slopes::negative((t.w)(i, j))
                    * (t.yu)(c, j),
            t.m,
        ) by {
            assert(v(all[10].data[i * n + c]) == (s.a)(i, c));
            let f = |j: int|
                slopes::positive((t.w)(i, j)) * (t.yl)(c, j) + slopes::negative((t.w)(i, j))
                    * (t.yu)(c, j);
            assert(sums::sum(f, 0) == 0real);
            assert(sums::sum(f, 1) == f(0));
        }
        assert forall|c: int, j: int| 0 <= c < t.n && 0 <= j < t.m implies #[trigger] (s.b)(c, j)
            == sums::sum(|i: int| (t.w)(i, j) * (t.xl)(i, c), t.l) by {
            assert(j == 0);
            assert(v(all[11].data[c]) == (s.b)(c, j));
            sums::lemma_sum_same(
                |i: int| v(inputs[0].data[i]) * v(a.lb.data[i * n + c]),
                |i: int| (t.w)(i, j) * (t.xl)(i, c),
                t.l,
            );
        }
        assert forall|i: int, j: int| 0 <= i < t.l && 0 <= j < t.m implies #[trigger] (s.lo)(i, j)
            == sums::sum(|c: int| (t.xl)(i, c) * (t.yl)(c, j), t.n) by {
            assert(j == 0);
            lemma_matvec_at(v, a.lb, b.lb, k.low_c, l, n, i);
            sums::lemma_sum_same(
                |c: int| v(a.lb.data[i * n + c]) * v(b.lb.data[c]),
                |c: int| (t.xl)(i, c) * (t.yl)(c, j),
                t.n,
            );
        }
        assert forall|i: int, j: int| 0 <= i < t.l && 0 <= j < t.m implies #[trigger] (s.hi)(i, j)
            == sums::sum(|c: int| (t.xl)(i, c) * (t.yu)(c, j), t.n) by {
            assert(j == 0);
            lemma_matvec_at(v, a.lb, b.ub, k.high_c, l, n, i);
            sums::lemma_sum_same(
                |c: int| v(a.lb.data[i * n + c]) * v(b.ub.data[c]),
                |c: int| (t.xl)(i, c) * (t.yu)(c, j),
                t.n,
            );
        }
        assert forall|i: int, j: int| 0 <= i < t.l && 0 <= j < t.m implies #[trigger] (s.z)(i, j)
            == sums::sum(|c: int| (t.x)(i, c) * (t.y)(c, j), t.n) by {
            assert(j == 0);
            lemma_matvec_at(v, x, y, z, l, n, i);
            sums::lemma_sum_same(
                |c: int| v(x.data[i * n + c]) * v(y.data[c]),
                |c: int| (t.x)(i, c) * (t.y)(c, j),
                t.n,
            );
        }
    }
    lemma_assemble(v, x, y, z, a, b, w, k.low_c, k.high_c, parts, ll, 1, nn);
}

// ---- all contractions ----
/// The weighed sum of the products of a contraction whose program is that of a product.
proof fn lemma_product_pairing<S: Scalar>(
    v: spec_fn(S) -> real,
    x: TensorV<S>,
    y: TensorV<S>,
    z: TensorV<S>,
    w: TensorV<S>,
    s: Seq<usize>,
)
    requires
        exact::exact(v),
        reals::full(x),
        reals::full(y),
        reals::full(w),
        w.shape == z.shape,
        model::bin_tensor(BinOpV::Dot, x, y) == Ok::<TensorV<S>, Fault>(z),
        affine::dot_is_product(x.shape.len(), y.shape.len()),
        s == (if x.shape.len() == 0 {
            y.shape
        } else {
            x.shape
        }),
    ensures
        shape::broadcast(x.shape, y.shape) == Some(s),
        shape::broadcast(w.shape, x.shape) == Some(s),
        shape::broadcast(w.shape, y.shape) == Some(s),
        sums::sum(
            |r: int|
                v(w.data[shape::source_index(r, s, w.shape)]) * (v(
                    x.data[shape::source_index(r, s, x.shape)],
                ) * v(y.data[shape::source_index(r, s, y.shape)])),
            shape::product(s),
        ) == pairing::pairing(v, w, z),
{
    let e = Seq::<usize>::empty();
    pairing::lemma_scalar_shape(s);
    pairing::lemma_same_shape(s);
    let f = |r: int|
        v(w.data[shape::source_index(r, s, w.shape)]) * (v(
            x.data[shape::source_index(r, s, x.shape)],
        ) * v(y.data[shape::source_index(r, s, y.shape)]));
    let g = |r: int| v(w.data[r]) * v(z.data[r]);
    if x.shape.len() == 0 || y.shape.len() == 0 {
        if x.shape.len() == 0 {
            assert(x.shape =~= e);
        } else {
            assert(y.shape =~= e);
        }
        assert forall|r: int| 0 <= r < shape::product(s) implies #[trigger] f(r) == g(r) by {
            pairing::lemma_same_index(r, s);
            pairing::lemma_scalar_index(r, s);
            exact::lemma_units(v(y.data[0]), v(x.data[r]));
        }
        sums::lemma_sum_same(f, g, shape::product(s));
    } else {
        assert(z.shape =~= e);
        assert(x.shape[0] == y.shape[0]);
        assert(x.shape =~= y.shape);
        let n = x.shape[0] as nat;
        matrices::lemma_product1(x.shape);
        reals::lemma_bilinear(v, BinOpV::Dot, x, y, z.shape, 0);
        let h = |i: int|
            v(x.data[reals::left_index(BinOpV::Dot, x.shape, y.shape, z.shape, 0, i)]) * v(
                y.data[reals::right_index(BinOpV::Dot, x.shape, y.shape, z.shape, 0, i)],
            );
        assert(0int / 1 == 0 && 0int % 1 == 0) by (nonlinear_arith);
        assert forall|r: int| 0 <= r < n implies #[trigger] f(r) == v(w.data[0]) * h(r) by {
            pairing::lemma_same_index(r, s);
            pairing::lemma_scalar_index(r, s);
            assert(0 * (n as int) == 0) by (nonlinear_arith);
            assert((0 * (n as int) + r) * 1 + 0 == r) by (nonlinear_arith);
        }
        sums::lemma_sum_scale(v(w.data[0]), h, f, n);
        assert(sums::sum(g, 0) == 0real);
        assert(sums::sum(g, 1) == g(0));
    }
}

/// The program of a contraction of operands of at most two axes carries weights.
pub proof fn lemma_dot_carries<S: Scalar>(
    v: spec_fn(S) -> real,
    x: TensorV<S>,
    y: TensorV<S>,
    z: TensorV<S>,
    a: IBPV<S>,
    b: IBPV<S>,
    inputs: Seq<TensorV<S>>,
    rule: RuleV<S>,
    parts: Seq<TensorV<S>>,
)
    requires
        exact::exact(v),
        inputs.len() > 0,
        support::weighable(inputs[0]),
        support::weighable(x),
        support::weighable(y),
        containment::inside(v, x, a),
        containment::inside(v, y, b),
        x.shape.len() <= 2,
        y.shape.len() <= 2,
        inputs[0].shape == z.shape,
        model::bin_tensor(BinOpV::Dot, x, y) == Ok::<TensorV<S>, Fault>(z),
        affine::dot_rule(a, b) == Ok::<RuleV<S>, Fault>(rule),
        vjp::applied::<S, Tensor<S>>((), rule, inputs).1 == Ok::<Seq<TensorV<S>>, Fault>(parts),
    ensures
        support::carries(v, parts, seq![x, y], inputs[0], z),
{
    reveal(affine::dot_rule);
    let (ra, rb) = (x.shape.len(), y.shape.len());
    if affine::dot_is_product(ra, rb) {
        let s = if ra == 0 {
            y.shape
        } else {
            x.shape
        };
        lemma_product_pairing(v, x, y, z, inputs[0], s);
        carry_products::lemma_mul_carries(v, x, y, z, a, b, s, inputs, rule, parts);
    } else {
        let k = affine::dot_constants(affine::dot_form(ra, rb), a, b)->Ok_0;
        if ra == 1 {
            lemma_vector_carries(v, x, y, z, a, b, k, inputs, parts);
        } else if rb == 1 {
            lemma_column_carries(v, x, y, z, a, b, k, inputs, parts);
        } else {
            lemma_matrices_carry(v, x, y, z, a, b, k, inputs, parts);
        }
    }
}

} // verus!
