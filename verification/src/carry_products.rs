//! The programs of sums, products and selections carry the weights of their results to their
//! operands.

use vstd::prelude::*;
use crate::affine;
use crate::carry;
use crate::containment;
use crate::crown;
use crate::exact;
use crate::interval::IBPV;
use crate::model;
use crate::model::{BinOpV, Fault, TensorV, UnOpV};
use crate::pairing;
use crate::reals;
use crate::scalar;
use crate::scalar::Scalar;
use crate::shape;
use crate::slopes;
use crate::sums;
use crate::support;
use crate::tensor::Tensor;
use crate::value::{Reg, StepV};
use crate::vjp;
use crate::vjp::RuleV;

verus! {

/// What the parts of two operands make.
pub proof fn lemma_two<S>(v: spec_fn(S) -> real, parts: Seq<TensorV<S>>, xs: Seq<TensorV<S>>)
    requires
        xs.len() == 2,
        parts.len() == 4,
        support::part_fits(parts[0], parts[1], xs[0]),
        support::part_fits(parts[2], parts[3], xs[1]),
    ensures
        support::carried(v, parts, xs, 2) == pairing::spread(v, parts[0], xs[0]) + v(
            parts[1].data[0],
        ) + pairing::spread(v, parts[2], xs[1]) + v(parts[3].data[0]),
        forall|i: int|
            0 <= i < 2 ==> support::part_fits(parts[2 * i], parts[2 * i + 1], #[trigger] xs[i]),
{
    assert(support::carried(v, parts, xs, 0) == 0real);
    assert(support::carried(v, parts, xs, 1) == 0real + pairing::spread(v, parts[0], xs[0]) + v(
        parts[1].data[0],
    ));
    assert(support::carried(v, parts, xs, 2) == support::carried(v, parts, xs, 1)
        + pairing::spread(v, parts[2], xs[1]) + v(parts[3].data[0]));
    assert forall|i: int| 0 <= i < 2 implies support::part_fits(
        parts[2 * i],
        parts[2 * i + 1],
        #[trigger] xs[i],
    ) by {
        if i != 0 {
            assert(i == 1);
        }
    }
}

/// The program of a negation carries weights.
pub proof fn lemma_neg_carries<S: Scalar>(
    v: spec_fn(S) -> real,
    x: TensorV<S>,
    y: TensorV<S>,
    inputs: Seq<TensorV<S>>,
    rule: RuleV<S>,
    parts: Seq<TensorV<S>>,
)
    requires
        exact::exact(v),
        inputs.len() == 1,
        support::weighable(inputs[0]),
        support::weighable(x),
        inputs[0].shape == y.shape,
        model::un_tensor(UnOpV::Neg, x) == Ok::<TensorV<S>, Fault>(y),
        crown::without_bias::<S>(
            Ok(
                RuleV {
                    steps: seq![StepV::Un(UnOpV::Neg, Reg::In(0))],
                    outs: seq![Reg::Out(0)],
                },
            ),
        ) == Ok::<RuleV<S>, Fault>(rule),
        vjp::applied::<S, Tensor<S>>((), rule, inputs).1 == Ok::<Seq<TensorV<S>>, Fault>(parts),
    ensures
        support::carries(v, parts, seq![x], inputs[0], y),
{
    let w = inputs[0];
    let all = pairing::lemma_applied(rule, inputs, parts);
    assert(rule.steps[0] == StepV::<S>::Un(UnOpV::Neg, Reg::In(0)));
    assert(rule.steps[1] == vjp::load_number(scalar::zero::<S>()));
    carry::lemma_step(rule.steps, inputs, all, 0);
    carry::lemma_step(rule.steps, inputs, all, 1);
    pairing::lemma_neg(v, w, all[0]);
    pairing::lemma_neg(v, x, y);
    exact::lemma_numbers(v);
    let beta = |k: int| 0real;
    sums::lemma_sum_zero(beta, w.data.len());
    assert forall|k: int| 0 <= k < w.data.len() implies v(parts[0].data[k]) * v(x.data[k])
        + #[trigger] beta(k) <= v(w.data[k]) * v(y.data[k]) by {
        exact::lemma_units(v(w.data[k]), v(x.data[k]));
    }
    carry::lemma_elementwise(v, parts, x, w, y, beta);
}

/// The program of a sum carries weights.
pub proof fn lemma_add_carries<S: Scalar>(
    v: spec_fn(S) -> real,
    x: TensorV<S>,
    y: TensorV<S>,
    z: TensorV<S>,
    inputs: Seq<TensorV<S>>,
    parts: Seq<TensorV<S>>,
)
    requires
        exact::exact(v),
        inputs.len() == 1,
        support::weighable(inputs[0]),
        reals::full(x),
        reals::full(y),
        inputs[0].shape == z.shape,
        model::bin_tensor(BinOpV::Add, x, y) == Ok::<TensorV<S>, Fault>(z),
        vjp::applied::<S, Tensor<S>>(
            (),
            RuleV {
                steps: seq![vjp::load_number(scalar::zero())],
                outs: seq![Reg::In(0), Reg::Out(0), Reg::In(0), Reg::Out(0)],
            },
            inputs,
        ).1 == Ok::<Seq<TensorV<S>>, Fault>(parts),
    ensures
        support::carries(v, parts, seq![x, y], inputs[0], z),
{
    let rule = RuleV::<S> {
        steps: seq![vjp::load_number(scalar::zero())],
        outs: seq![Reg::In(0), Reg::Out(0), Reg::In(0), Reg::Out(0)],
    };
    let w = inputs[0];
    let all = pairing::lemma_applied(rule, inputs, parts);
    carry::lemma_step(rule.steps, inputs, all, 0);
    assert(parts[0] == w && parts[2] == w && parts[1] == all[0] && parts[3] == all[0]);
    exact::lemma_numbers(v);
    pairing::lemma_add(v, x, y, z);
    shape::lemma_broadcast_expands(x.shape, y.shape);
    let n = w.data.len();
    let f = |r: int| v(w.data[r]) * v(x.data[shape::source_index(r, w.shape, x.shape)]);
    let g = |r: int| v(w.data[r]) * v(y.data[shape::source_index(r, w.shape, y.shape)]);
    let h = |r: int| v(w.data[r]) * v(z.data[r]);
    assert forall|r: int| 0 <= r < n implies #[trigger] h(r) == f(r) + g(r) by {
        exact::lemma_distribute(
            v(w.data[r]),
            v(x.data[shape::source_index(r, w.shape, x.shape)]),
            v(y.data[shape::source_index(r, w.shape, y.shape)]),
        );
    }
    sums::lemma_sum_plus(f, g, h, n);
    lemma_two(v, parts, seq![x, y]);
}

// ---- products ----
/// A plane below the product of two numbers in intervals, and one above.
pub proof fn lemma_planes(w: real, x: real, y: real, xl: real, yl: real, yu: real)
    requires
        xl <= x,
        yl <= y <= yu,
    ensures
        ({
            let (p, n) = (slopes::positive(w), slopes::negative(w));
            (p * yl + n * yu) * x + (w * xl) * y + (p * (-xl * yl) + n * (-xl * yu)) <= w * (x * y)
        }),
{
    let (p, n) = (slopes::positive(w), slopes::negative(w));
    let (a, b, c) = (x - xl, y - yl, yu - y);
    // (x - xl)(y - yl) >= 0 and (x - xl)(yu - y) >= 0
    exact::lemma_scale_le(a, 0real, b);
    exact::lemma_scale_le(a, 0real, c);
    exact::lemma_units(a, a);
    exact::lemma_distribute(a, y, yl);
    exact::lemma_distribute(a, yu, y);
    exact::lemma_distribute(y, x, xl);
    exact::lemma_distribute(yl, x, xl);
    exact::lemma_distribute(yu, x, xl);
    exact::lemma_units(xl, yl);
    exact::lemma_units(xl, yu);
    let low = yl * x + xl * y + -xl * yl;
    let high = yu * x + xl * y + -xl * yu;
    exact::lemma_units(x, yl);
    exact::lemma_units(x, yu);
    exact::lemma_units(xl, y);
    assert(low <= x * y);
    assert(x * y <= high);
    exact::lemma_scale_le(p, low, x * y);
    exact::lemma_scale_ge(n, x * y, high);
    exact::lemma_distribute(p, yl * x + xl * y, -xl * yl);
    exact::lemma_distribute(p, yl * x, xl * y);
    exact::lemma_distribute(n, yu * x + xl * y, -xl * yu);
    exact::lemma_distribute(n, yu * x, xl * y);
    exact::lemma_regroup(p, yl, x);
    exact::lemma_regroup(n, yu, x);
    exact::lemma_distribute(x, p * yl, n * yu);
    exact::lemma_distribute(xl * y, p, n);
    exact::lemma_regroup(w, xl, y);
    exact::lemma_distribute(x * y, p, n);
    exact::lemma_units(w, x * y);
}

/// The positive and the negative part of a weight.
pub open spec fn is_split<S>(v: spec_fn(S) -> real, w: TensorV<S>, p: TensorV<S>, n: TensorV<S>) -> bool {
    &&& pairing::sizable(p)
    &&& pairing::sizable(n)
    &&& p.shape == w.shape
    &&& n.shape == w.shape
    &&& forall|k: int|
        0 <= k < w.data.len() ==> v(#[trigger] p.data[k]) == slopes::positive(v(w.data[k]))
    &&& forall|k: int|
        0 <= k < w.data.len() ==> v(#[trigger] n.data[k]) == slopes::negative(v(w.data[k]))
}

/// The first steps of many programs split the weight.
pub proof fn lemma_split<S: Scalar>(
    v: spec_fn(S) -> real,
    steps: Seq<StepV<S>>,
    inputs: Seq<TensorV<S>>,
    all: Seq<TensorV<S>>,
)
    requires
        exact::exact(v),
        pairing::performed(steps, inputs, all),
        inputs.len() > 0,
        pairing::sizable(inputs[0]),
        steps.len() >= 3,
        steps[0] == StepV::<S>::Un(UnOpV::Relu, Reg::In(0)),
        steps[1] == StepV::<S>::Un(UnOpV::Neg, Reg::Out(0)),
        steps[2] == StepV::<S>::Bin(BinOpV::Add, Reg::In(0), Reg::Out(1)),
    ensures
        is_split(v, inputs[0], all[0], all[2]),
{
    let w = inputs[0];
    pairing::lemma_un_step(steps, inputs, all, 0, UnOpV::Relu, Reg::In(0));
    pairing::lemma_relu(v, w, all[0]);
    pairing::lemma_un_step(steps, inputs, all, 1, UnOpV::Neg, Reg::Out(0));
    pairing::lemma_neg(v, all[0], all[1]);
    pairing::lemma_bin_step(steps, inputs, all, 2, BinOpV::Add, Reg::In(0), Reg::Out(1));
    pairing::lemma_add_same(v, w, all[1], all[2]);
}

/// What the program of a product computes, step by step.
proof fn lemma_mul_run<S: Scalar>(
    v: spec_fn(S) -> real,
    a: IBPV<S>,
    b: IBPV<S>,
    inputs: Seq<TensorV<S>>,
    rule: RuleV<S>,
    parts: Seq<TensorV<S>>,
) -> (all: Seq<TensorV<S>>)
    requires
        exact::exact(v),
        inputs.len() > 0,
        pairing::sizable(inputs[0]),
        affine::mul_rule(a, b) == Ok::<RuleV<S>, Fault>(rule),
        vjp::applied::<S, Tensor<S>>((), rule, inputs).1 == Ok::<Seq<TensorV<S>>, Fault>(parts),
    ensures
        is_split(v, inputs[0], all[0], all[2]),
        parts.len() == 4,
        model::bin_tensor(BinOpV::Mul, all[0], b.lb) == Ok::<TensorV<S>, Fault>(all[4]),
        model::bin_tensor(BinOpV::Mul, all[2], b.ub) == Ok::<TensorV<S>, Fault>(all[6]),
        model::bin_tensor(BinOpV::Add, all[4], all[6]) == Ok::<TensorV<S>, Fault>(parts[0]),
        model::bin_tensor(BinOpV::Mul, inputs[0], a.lb) == Ok::<TensorV<S>, Fault>(parts[2]),
        affine::minus_product(a.lb, b.lb) == Ok::<TensorV<S>, Fault>(all[10]),
        affine::minus_product(a.lb, b.ub) == Ok::<TensorV<S>, Fault>(all[13]),
        model::bin_tensor(BinOpV::Mul, all[0], all[10]) == Ok::<TensorV<S>, Fault>(all[11]),
        model::bin_tensor(BinOpV::Mul, all[2], all[13]) == Ok::<TensorV<S>, Fault>(all[14]),
        pairing::summed(all[11], all[12]),
        pairing::summed(all[14], all[15]),
        model::bin_tensor(BinOpV::Add, all[12], all[15]) == Ok::<TensorV<S>, Fault>(parts[1]),
        parts[3] == model::scalar_tensor(scalar::zero::<S>()),
{
    let all = pairing::lemma_applied(rule, inputs, parts);
    let steps = rule.steps;
    let (low, high) = (
        affine::minus_product(a.lb, b.lb)->Ok_0,
        affine::minus_product(a.lb, b.ub)->Ok_0,
    );
    lemma_mul_steps(a, b, rule);
    lemma_split(v, steps, inputs, all);
    pairing::lemma_load_step(steps, inputs, all, 3, b.lb);
    pairing::lemma_bin_step(steps, inputs, all, 4, BinOpV::Mul, Reg::Out(0), Reg::Out(3));
    pairing::lemma_load_step(steps, inputs, all, 5, b.ub);
    pairing::lemma_bin_step(steps, inputs, all, 6, BinOpV::Mul, Reg::Out(2), Reg::Out(5));
    pairing::lemma_bin_step(steps, inputs, all, 7, BinOpV::Add, Reg::Out(4), Reg::Out(6));
    pairing::lemma_load_step(steps, inputs, all, 8, a.lb);
    pairing::lemma_bin_step(steps, inputs, all, 9, BinOpV::Mul, Reg::In(0), Reg::Out(8));
    pairing::lemma_load_step(steps, inputs, all, 10, low);
    pairing::lemma_bin_step(steps, inputs, all, 11, BinOpV::Mul, Reg::Out(0), Reg::Out(10));
    pairing::lemma_sum_step(steps, inputs, all, 12, Reg::Out(11));
    pairing::lemma_load_step(steps, inputs, all, 13, high);
    pairing::lemma_bin_step(steps, inputs, all, 14, BinOpV::Mul, Reg::Out(2), Reg::Out(13));
    pairing::lemma_sum_step(steps, inputs, all, 15, Reg::Out(14));
    pairing::lemma_bin_step(steps, inputs, all, 16, BinOpV::Add, Reg::Out(12), Reg::Out(15));
    pairing::lemma_load_step(
        steps,
        inputs,
        all,
        17,
        model::scalar_tensor(scalar::zero::<S>()),
    );
    assert(parts[0] == all[7]);
    assert(parts[1] == all[16]);
    assert(parts[2] == all[9]);
    assert(parts[3] == all[17]);
    all
}

/// The program of a product.
proof fn lemma_mul_steps<S: Scalar>(a: IBPV<S>, b: IBPV<S>, rule: RuleV<S>)
    requires
        affine::mul_rule(a, b) == Ok::<RuleV<S>, Fault>(rule),
    ensures
        affine::minus_product(a.lb, b.lb) is Ok,
        affine::minus_product(a.lb, b.ub) is Ok,
        rule.steps.len() == 18,
        rule.steps[0] == StepV::<S>::Un(UnOpV::Relu, Reg::In(0)),
        rule.steps[1] == StepV::<S>::Un(UnOpV::Neg, Reg::Out(0)),
        rule.steps[2] == StepV::<S>::Bin(BinOpV::Add, Reg::In(0), Reg::Out(1)),
        rule.steps[3] == StepV::Load(b.lb),
        rule.steps[4] == StepV::<S>::Bin(BinOpV::Mul, Reg::Out(0), Reg::Out(3)),
        rule.steps[5] == StepV::Load(b.ub),
        rule.steps[6] == StepV::<S>::Bin(BinOpV::Mul, Reg::Out(2), Reg::Out(5)),
        rule.steps[7] == StepV::<S>::Bin(BinOpV::Add, Reg::Out(4), Reg::Out(6)),
        rule.steps[8] == StepV::Load(a.lb),
        rule.steps[9] == StepV::<S>::Bin(BinOpV::Mul, Reg::In(0), Reg::Out(8)),
        rule.steps[10] == StepV::Load(affine::minus_product(a.lb, b.lb)->Ok_0),
        rule.steps[11] == StepV::<S>::Bin(BinOpV::Mul, Reg::Out(0), Reg::Out(10)),
        rule.steps[12] == StepV::<S>::SumAll(Reg::Out(11)),
        rule.steps[13] == StepV::Load(affine::minus_product(a.lb, b.ub)->Ok_0),
        rule.steps[14] == StepV::<S>::Bin(BinOpV::Mul, Reg::Out(2), Reg::Out(13)),
        rule.steps[15] == StepV::<S>::SumAll(Reg::Out(14)),
        rule.steps[16] == StepV::<S>::Bin(BinOpV::Add, Reg::Out(12), Reg::Out(15)),
        rule.steps[17] == vjp::load_number(scalar::zero::<S>()),
        rule.outs.len() == 4,
        rule.outs[0] == Reg::Out(7),
        rule.outs[1] == Reg::Out(16),
        rule.outs[2] == Reg::Out(9),
        rule.outs[3] == Reg::Out(17),
{
    reveal(affine::mul_rule);
}

/// The part of a weight, times the negative of a product of ends.
proof fn lemma_end_products<S: Scalar>(
    v: spec_fn(S) -> real,
    p: TensorV<S>,
    a: TensorV<S>,
    b: TensorV<S>,
    s: Seq<usize>,
    m: TensorV<S>,
    t: TensorV<S>,
    r: int,
)
    requires
        exact::exact(v),
        pairing::sizable(p),
        reals::full(a),
        reals::full(b),
        shape::broadcast(a.shape, b.shape) == Some(s),
        shape::expands_to(p.shape, s),
        affine::minus_product(a, b) == Ok::<TensorV<S>, Fault>(m),
        model::bin_tensor(BinOpV::Mul, p, m) == Ok::<TensorV<S>, Fault>(t),
        0 <= r < shape::product(s),
    ensures
        pairing::sizable(t),
        t.shape == s,
        v(t.data[r]) == v(p.data[shape::source_index(r, s, p.shape)]) * (-v(
            a.data[shape::source_index(r, s, a.shape)],
        ) * v(b.data[shape::source_index(r, s, b.shape)])),
{
    let minus = model::un_tensor(UnOpV::Neg, a)->Ok_0;
    assert(reals::full(minus) && minus.shape == a.shape);
    pairing::lemma_mul(v, minus, b, m);
    pairing::lemma_expands_broadcast(p.shape, s);
    pairing::lemma_mul(v, p, m, t);
    shape::lemma_broadcast_expands(a.shape, b.shape);
    shape::lemma_source_index(r, s, a.shape);
    pairing::lemma_same_index(r, s);
}

/// The bias of the program of a product.
proof fn lemma_mul_bias<S: Scalar>(
    v: spec_fn(S) -> real,
    a: IBPV<S>,
    b: IBPV<S>,
    s: Seq<usize>,
    w: TensorV<S>,
    all: Seq<TensorV<S>>,
    bias: TensorV<S>,
    beta: spec_fn(int) -> real,
)
    requires
        exact::exact(v),
        is_split(v, w, all[0], all[2]),
        reals::full(w),
        reals::full(a.lb),
        reals::full(b.lb),
        reals::full(b.ub),
        b.lb.shape == b.ub.shape,
        shape::broadcast(a.lb.shape, b.lb.shape) == Some(s),
        shape::expands_to(w.shape, s),
        affine::minus_product(a.lb, b.lb) == Ok::<TensorV<S>, Fault>(all[10]),
        affine::minus_product(a.lb, b.ub) == Ok::<TensorV<S>, Fault>(all[13]),
        model::bin_tensor(BinOpV::Mul, all[0], all[10]) == Ok::<TensorV<S>, Fault>(all[11]),
        model::bin_tensor(BinOpV::Mul, all[2], all[13]) == Ok::<TensorV<S>, Fault>(all[14]),
        pairing::summed(all[11], all[12]),
        pairing::summed(all[14], all[15]),
        model::bin_tensor(BinOpV::Add, all[12], all[15]) == Ok::<TensorV<S>, Fault>(bias),
        support::dense(s),
        beta == end_terms(v, a, b, s, w),
    ensures
        pairing::is_scalar(bias),
        v(bias.data[0]) == sums::sum(beta, shape::product(s)),
{
    let n = shape::product(s);
    assert forall|r: int| 0 <= r < n implies {
        &&& v(#[trigger] all[11].data[r]) == v(all[0].data[shape::source_index(r, s, w.shape)])
            * (-v(a.lb.data[shape::source_index(r, s, a.lb.shape)]) * v(
            b.lb.data[shape::source_index(r, s, b.lb.shape)],
        ))
        &&& v(all[14].data[r]) == v(all[2].data[shape::source_index(r, s, w.shape)]) * (-v(
            a.lb.data[shape::source_index(r, s, a.lb.shape)],
        ) * v(b.ub.data[shape::source_index(r, s, b.lb.shape)]))
    } by {
        lemma_end_products(v, all[0], a.lb, b.lb, s, all[10], all[11], r);
        lemma_end_products(v, all[2], a.lb, b.ub, s, all[13], all[14], r);
    }
    lemma_dense_positive(s);
    lemma_end_products(v, all[0], a.lb, b.lb, s, all[10], all[11], 0);
    lemma_end_products(v, all[2], a.lb, b.ub, s, all[13], all[14], 0);
    pairing::lemma_sum_all(v, all[11], all[12]);
    pairing::lemma_sum_all(v, all[14], all[15]);
    pairing::lemma_add_scalars(v, all[12], all[15], bias);
    let (f, g) = (|r: int| v(all[11].data[r]), |r: int| v(all[14].data[r]));
    assert forall|r: int| 0 <= r < n implies #[trigger] beta(r) == f(r) + g(r) by {
        shape::lemma_source_index(r, s, w.shape);
        let k = shape::source_index(r, s, w.shape);
        assert(v(all[0].data[k]) == slopes::positive(v(w.data[k])));
        assert(v(all[2].data[k]) == slopes::negative(v(w.data[k])));
        assert(v(all[11].data[r]) == f(r));
    }
    sums::lemma_sum_plus(f, g, beta, n);
}

/// A shape without empty axes has elements.
pub proof fn lemma_dense_positive(s: Seq<usize>)
    requires
        support::dense(s),
    ensures
        shape::product(s) > 0,
    decreases s.len(),
{
    if s.len() > 0 {
        assert forall|i: int| 0 <= i < s.drop_last().len() implies #[trigger] s.drop_last()[i]
            > 0 by {
            assert(s[i] > 0);
        }
        lemma_dense_positive(s.drop_last());
        let (p, d) = (shape::product(s.drop_last()), s.last() as nat);
        assert(s[s.len() - 1] > 0);
        assert(p * d > 0) by (nonlinear_arith)
            requires
                p > 0,
                d > 0,
        ;
    }
}

/// What each place adds to the bias of a product.
pub open spec fn end_terms<S: Scalar>(
    v: spec_fn(S) -> real,
    a: IBPV<S>,
    b: IBPV<S>,
    s: Seq<usize>,
    w: TensorV<S>,
) -> spec_fn(int) -> real {
    |r: int|
        {
            let c = v(w.data[shape::source_index(r, s, w.shape)]);
            let xl = v(a.lb.data[shape::source_index(r, s, a.lb.shape)]);
            let yl = v(b.lb.data[shape::source_index(r, s, b.lb.shape)]);
            let yu = v(b.ub.data[shape::source_index(r, s, b.lb.shape)]);
            slopes::positive(c) * (-xl * yl) + slopes::negative(c) * (-xl * yu)
        }
}

/// The weights of the operands in the program of a product.
proof fn lemma_mul_weights<S: Scalar>(
    v: spec_fn(S) -> real,
    a: IBPV<S>,
    b: IBPV<S>,
    s: Seq<usize>,
    w: TensorV<S>,
    all: Seq<TensorV<S>>,
    p: TensorV<S>,
    q: TensorV<S>,
)
    requires
        exact::exact(v),
        is_split(v, w, all[0], all[2]),
        pairing::sizable(w),
        reals::full(a.lb),
        reals::full(b.lb),
        reals::full(b.ub),
        b.lb.shape == b.ub.shape,
        shape::broadcast(w.shape, a.lb.shape) == Some(s),
        shape::broadcast(w.shape, b.lb.shape) == Some(s),
        model::bin_tensor(BinOpV::Mul, all[0], b.lb) == Ok::<TensorV<S>, Fault>(all[4]),
        model::bin_tensor(BinOpV::Mul, all[2], b.ub) == Ok::<TensorV<S>, Fault>(all[6]),
        model::bin_tensor(BinOpV::Add, all[4], all[6]) == Ok::<TensorV<S>, Fault>(p),
        model::bin_tensor(BinOpV::Mul, w, a.lb) == Ok::<TensorV<S>, Fault>(q),
    ensures
        pairing::sizable(p),
        p.shape == s,
        pairing::sizable(q),
        q.shape == s,
        forall|r: int|
            0 <= r < shape::product(s) ==> v(#[trigger] p.data[r]) == slopes::positive(
                v(w.data[shape::source_index(r, s, w.shape)]),
            ) * v(b.lb.data[shape::source_index(r, s, b.lb.shape)]) + slopes::negative(
                v(w.data[shape::source_index(r, s, w.shape)]),
            ) * v(b.ub.data[shape::source_index(r, s, b.lb.shape)]),
        forall|r: int|
            0 <= r < shape::product(s) ==> v(#[trigger] q.data[r]) == v(
                w.data[shape::source_index(r, s, w.shape)],
            ) * v(a.lb.data[shape::source_index(r, s, a.lb.shape)]),
{
    pairing::lemma_mul(v, all[0], b.lb, all[4]);
    pairing::lemma_mul(v, all[2], b.ub, all[6]);
    pairing::lemma_add_same(v, all[4], all[6], p);
    pairing::lemma_mul(v, w, a.lb, q);
    shape::lemma_broadcast_expands(w.shape, b.lb.shape);
    assert forall|r: int| 0 <= r < shape::product(s) implies v(#[trigger] p.data[r])
        == slopes::positive(v(w.data[shape::source_index(r, s, w.shape)])) * v(
        b.lb.data[shape::source_index(r, s, b.lb.shape)],
    ) + slopes::negative(v(w.data[shape::source_index(r, s, w.shape)])) * v(
        b.ub.data[shape::source_index(r, s, b.lb.shape)],
    ) by {
        shape::lemma_source_index(r, s, w.shape);
        assert(v(p.data[r]) == v(all[4].data[r]) + v(all[6].data[r]));
    }
}

/// The program of a product carries weights where the result `z` of weight `w` stands for the sum
/// of the weighed products of the elements.
#[verifier::spinoff_prover]
#[verifier::rlimit(50)]
pub proof fn lemma_mul_carries<S: Scalar>(
    v: spec_fn(S) -> real,
    x: TensorV<S>,
    y: TensorV<S>,
    z: TensorV<S>,
    a: IBPV<S>,
    b: IBPV<S>,
    s: Seq<usize>,
    inputs: Seq<TensorV<S>>,
    rule: RuleV<S>,
    parts: Seq<TensorV<S>>,
)
    requires
        exact::exact(v),
        inputs.len() > 0,
        support::weighable(inputs[0]),
        support::dense(s),
        containment::inside(v, x, a),
        containment::inside(v, y, b),
        shape::broadcast(x.shape, y.shape) == Some(s),
        shape::broadcast(inputs[0].shape, x.shape) == Some(s),
        shape::broadcast(inputs[0].shape, y.shape) == Some(s),
        affine::mul_rule(a, b) == Ok::<RuleV<S>, Fault>(rule),
        vjp::applied::<S, Tensor<S>>((), rule, inputs).1 == Ok::<Seq<TensorV<S>>, Fault>(parts),
        sums::sum(
            |r: int|
                v(inputs[0].data[shape::source_index(r, s, inputs[0].shape)]) * (v(
                    x.data[shape::source_index(r, s, x.shape)],
                ) * v(y.data[shape::source_index(r, s, y.shape)])),
            shape::product(s),
        ) == pairing::pairing(v, inputs[0], z),
    ensures
        support::carries(v, parts, seq![x, y], inputs[0], z),
{
    let w = inputs[0];
    let beta = end_terms(v, a, b, s, w);
    let all = lemma_mul_run(v, a, b, inputs, rule, parts);
    shape::lemma_broadcast_expands(x.shape, y.shape);
    shape::lemma_broadcast_expands(w.shape, x.shape);
    lemma_mul_bias(v, a, b, s, w, all, parts[1], beta);
    lemma_mul_weights(v, a, b, s, w, all, parts[0], parts[2]);
    exact::lemma_numbers(v);
    lemma_planes_below(v, x, y, w, a, b, s, parts[0], parts[2]);
    lemma_two(v, parts, seq![x, y]);
}

/// The planes of a product stay below it, summed up over all places.
proof fn lemma_planes_below<S: Scalar>(
    v: spec_fn(S) -> real,
    x: TensorV<S>,
    y: TensorV<S>,
    w: TensorV<S>,
    a: IBPV<S>,
    b: IBPV<S>,
    s: Seq<usize>,
    p: TensorV<S>,
    q: TensorV<S>,
)
    requires
        exact::exact(v),
        containment::inside(v, x, a),
        containment::inside(v, y, b),
        reals::full(w),
        shape::expands_to(w.shape, s),
        shape::expands_to(x.shape, s),
        shape::expands_to(y.shape, s),
        reals::full(p),
        p.shape == s,
        reals::full(q),
        q.shape == s,
        forall|r: int|
            0 <= r < shape::product(s) ==> v(#[trigger] p.data[r]) == slopes::positive(
                v(w.data[shape::source_index(r, s, w.shape)]),
            ) * v(b.lb.data[shape::source_index(r, s, b.lb.shape)]) + slopes::negative(
                v(w.data[shape::source_index(r, s, w.shape)]),
            ) * v(b.ub.data[shape::source_index(r, s, b.lb.shape)]),
        forall|r: int|
            0 <= r < shape::product(s) ==> v(#[trigger] q.data[r]) == v(
                w.data[shape::source_index(r, s, w.shape)],
            ) * v(a.lb.data[shape::source_index(r, s, a.lb.shape)]),
    ensures
        pairing::spread(v, p, x) + pairing::spread(v, q, y) + sums::sum(
            end_terms(v, a, b, s, w),
            shape::product(s),
        ) <= sums::sum(
            |r: int|
                v(w.data[shape::source_index(r, s, w.shape)]) * (v(
                    x.data[shape::source_index(r, s, x.shape)],
                ) * v(y.data[shape::source_index(r, s, y.shape)])),
            shape::product(s),
        ),
{
    let n = shape::product(s);
    let beta = end_terms(v, a, b, s, w);
    let f = |r: int| v(p.data[r]) * v(x.data[shape::source_index(r, s, x.shape)]);
    let g = |r: int| v(q.data[r]) * v(y.data[shape::source_index(r, s, y.shape)]);
    let fg = |r: int| f(r) + g(r);
    let fgb = |r: int| fg(r) + beta(r);
    let h = |r: int|
        v(w.data[shape::source_index(r, s, w.shape)]) * (v(
            x.data[shape::source_index(r, s, x.shape)],
        ) * v(y.data[shape::source_index(r, s, y.shape)]));
    sums::lemma_sum_plus(f, g, fg, n);
    sums::lemma_sum_plus(fg, beta, fgb, n);
    assert forall|r: int| 0 <= r < n implies #[trigger] fgb(r) <= h(r) by {
        shape::lemma_source_index(r, s, w.shape);
        shape::lemma_source_index(r, s, x.shape);
        shape::lemma_source_index(r, s, y.shape);
        let (k, i, j) = (
            shape::source_index(r, s, w.shape),
            shape::source_index(r, s, x.shape),
            shape::source_index(r, s, y.shape),
        );
        assert(v(a.lb.data[i]) <= v(x.data[i]));
        assert(v(b.lb.data[j]) <= v(y.data[j]));
        assert(v(y.data[j]) <= v(b.ub.data[j]));
        lemma_planes(
            v(w.data[k]),
            v(x.data[i]),
            v(y.data[j]),
            v(a.lb.data[i]),
            v(b.lb.data[j]),
            v(b.ub.data[j]),
        );
        assert(v(p.data[r]) == slopes::positive(v(w.data[k])) * v(b.lb.data[j])
            + slopes::negative(v(w.data[k])) * v(b.ub.data[j]));
        assert(v(q.data[r]) == v(w.data[k]) * v(a.lb.data[i]));
    }
    sums::lemma_sum_le(fgb, h, n);
}

/// The sum of the weighed products of the elements of a product of tensors.
pub proof fn lemma_mul_pairing<S: Scalar>(
    v: spec_fn(S) -> real,
    x: TensorV<S>,
    y: TensorV<S>,
    z: TensorV<S>,
    w: TensorV<S>,
)
    requires
        exact::exact(v),
        reals::full(x),
        reals::full(y),
        reals::full(w),
        w.shape == z.shape,
        model::bin_tensor(BinOpV::Mul, x, y) == Ok::<TensorV<S>, Fault>(z),
    ensures
        shape::broadcast(x.shape, y.shape) == Some(w.shape),
        shape::broadcast(w.shape, x.shape) == Some(w.shape),
        shape::broadcast(w.shape, y.shape) == Some(w.shape),
        sums::sum(
            |r: int|
                v(w.data[shape::source_index(r, w.shape, w.shape)]) * (v(
                    x.data[shape::source_index(r, w.shape, x.shape)],
                ) * v(y.data[shape::source_index(r, w.shape, y.shape)])),
            shape::product(w.shape),
        ) == pairing::pairing(v, w, z),
{
    pairing::lemma_mul(v, x, y, z);
    shape::lemma_broadcast_expands(x.shape, y.shape);
    pairing::lemma_expands_broadcast(x.shape, w.shape);
    pairing::lemma_expands_broadcast(y.shape, w.shape);
    let f = |r: int|
        v(w.data[shape::source_index(r, w.shape, w.shape)]) * (v(
            x.data[shape::source_index(r, w.shape, x.shape)],
        ) * v(y.data[shape::source_index(r, w.shape, y.shape)]));
    let g = |r: int| v(w.data[r]) * v(z.data[r]);
    assert forall|r: int| 0 <= r < w.data.len() implies #[trigger] f(r) == g(r) by {
        pairing::lemma_same_index(r, w.shape);
    }
    sums::lemma_sum_same(f, g, w.data.len());
}

} // verus!
