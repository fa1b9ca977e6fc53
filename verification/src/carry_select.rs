//! The program of a selection carries the weight of its result to its operands.

use vstd::prelude::*;
use crate::affine;
use crate::carry_products;
use crate::containment;
use crate::exact;
use crate::interval;
use crate::interval::IBPV;
use crate::model;
use crate::model::{BinOpV, Fault, TensorV, UnOpV};
use crate::pairing;
use crate::reals;
use crate::scalar;
use crate::scalar::Scalar;
use crate::shape;
use crate::slopes;
use crate::sums;
use crate::support;
use crate::tensor::Tensor;
use crate::value::{Reg, StepV};
use crate::vjp;
use crate::vjp::RuleV;

verus! {

/// The program of a selection.
proof fn lemma_where_steps<S: Scalar>(p: IBPV<S>, a: IBPV<S>, b: IBPV<S>, rule: RuleV<S>)
    requires
        affine::where_rule(p, a, b) == Ok::<RuleV<S>, Fault>(rule),
    ensures
        a.lb.shape == b.lb.shape,
        rule.steps.len() == 19,
        rule.steps[0] == StepV::<S>::Un(UnOpV::Relu, Reg::In(0)),
        rule.steps[1] == StepV::<S>::Un(UnOpV::Neg, Reg::Out(0)),
        rule.steps[2] == StepV::<S>::Bin(BinOpV::Add, Reg::In(0), Reg::Out(1)),
        rule.steps[3] == StepV::Load(
            interval::zipped(p.lb, p.ub, |l: S, u: S| affine::surely_true(l, u)),
        ),
        rule.steps[4] == StepV::<S>::Bin(BinOpV::Mul, Reg::In(0), Reg::Out(3)),
        rule.steps[5] == StepV::Load(
            interval::zipped(p.lb, p.ub, |l: S, u: S| affine::surely_false(l, u)),
        ),
        rule.steps[6] == StepV::<S>::Bin(BinOpV::Mul, Reg::In(0), Reg::Out(5)),
        rule.steps[7] == StepV::Load(
            interval::zipped(p.lb, p.ub, |l: S, u: S| affine::undecided(l, u)),
        ),
        rule.steps[8] == StepV::<S>::Bin(BinOpV::Mul, Reg::Out(0), Reg::Out(7)),
        rule.steps[9] == StepV::Load(
            interval::zipped(a.lb, b.lb, |x: S, y: S| x.smaller(y)),
        ),
        rule.steps[10] == StepV::<S>::Bin(BinOpV::Mul, Reg::Out(8), Reg::Out(9)),
        rule.steps[11] == StepV::<S>::SumAll(Reg::Out(10)),
        rule.steps[12] == StepV::<S>::Bin(BinOpV::Mul, Reg::Out(2), Reg::Out(7)),
        rule.steps[13] == StepV::Load(interval::zipped(a.ub, b.ub, |x: S, y: S| x.larger(y))),
        rule.steps[14] == StepV::<S>::Bin(BinOpV::Mul, Reg::Out(12), Reg::Out(13)),
        rule.steps[15] == StepV::<S>::SumAll(Reg::Out(14)),
        rule.steps[16] == StepV::<S>::Bin(BinOpV::Add, Reg::Out(11), Reg::Out(15)),
        rule.steps[17] == vjp::load_zeros::<S>(p.lb.shape),
        rule.steps[18] == vjp::load_number(scalar::zero::<S>()),
        rule.outs.len() == 6,
        rule.outs[0] == Reg::Out(17),
        rule.outs[1] == Reg::Out(18),
        rule.outs[2] == Reg::Out(4),
        rule.outs[3] == Reg::Out(16),
        rule.outs[4] == Reg::Out(6),
        rule.outs[5] == Reg::Out(18),
{
    reveal(affine::where_rule);
}

/// A product of a tensor of shape `s` with one that expands to it.
proof fn lemma_mul_wide<S: Scalar>(
    v: spec_fn(S) -> real,
    a: TensorV<S>,
    b: TensorV<S>,
    c: TensorV<S>,
)
    requires
        exact::exact(v),
        reals::full(a),
        reals::full(b),
        shape::expands_to(b.shape, a.shape),
        model::bin_tensor(BinOpV::Mul, a, b) == Ok::<TensorV<S>, Fault>(c),
    ensures
        pairing::sizable(c),
        c.shape == a.shape,
        forall|r: int|
            0 <= r < c.data.len() ==> v(#[trigger] c.data[r]) == v(a.data[r]) * v(
                b.data[shape::source_index(r, a.shape, b.shape)],
            ),
{
    pairing::lemma_expands_broadcast(b.shape, a.shape);
    pairing::lemma_mul(v, a, b, c);
    assert forall|r: int| 0 <= r < c.data.len() implies v(#[trigger] c.data[r]) == v(a.data[r])
        * v(b.data[shape::source_index(r, a.shape, b.shape)]) by {
        pairing::lemma_same_index(r, a.shape);
    }
}

/// How the three parts of a condition weigh the branches: `t`, `f` and `u` are one where it
/// surely holds, surely fails or is undecided.
proof fn lemma_branches(
    w: real,
    t: real,
    f: real,
    u: real,
    x: real,
    y: real,
    z: real,
    low: real,
    high: real,
)
    requires
        (t == 1real && f == 0real && u == 0real && z == x) || (t == 0real && f == 1real && u
            == 0real && z == y) || (t == 0real && f == 0real && u == 1real && low <= z <= high),
    ensures
        ({
            let (p, n) = (slopes::positive(w), slopes::negative(w));
            (w * t) * x + (w * f) * y + ((p * u) * low + (n * u) * high) <= w * z
        }),
{
    let (p, n) = (slopes::positive(w), slopes::negative(w));
    exact::lemma_units(w, x);
    exact::lemma_units(w, y);
    exact::lemma_units(p, p);
    exact::lemma_units(n, n);
    exact::lemma_units(x, x);
    exact::lemma_units(y, y);
    exact::lemma_units(low, low);
    exact::lemma_units(high, high);
    if u == 1real {
        exact::lemma_scale_le(p, low, z);
        exact::lemma_scale_ge(n, z, high);
        exact::lemma_distribute(z, p, n);
        exact::lemma_units(w, z);
    }
}

/// What a selection weighs at one place.
proof fn lemma_place<S: Scalar>(
    v: spec_fn(S) -> real,
    w: S,
    q: S,
    l: S,
    u: S,
    x: S,
    y: S,
    z: S,
    low: S,
    high: S,
)
    requires
        exact::exact(v),
        v(l) <= v(q) <= v(u),
        v(z) == (if v(q) == 0real {
            v(y)
        } else {
            v(x)
        }),
        v(low) <= v(x) <= v(high),
        v(low) <= v(y) <= v(high),
    ensures
        ({
            let (p, n) = (slopes::positive(v(w)), slopes::negative(v(w)));
            let (t, f, o) = (
                v(affine::surely_true(l, u)),
                v(affine::surely_false(l, u)),
                v(affine::undecided(l, u)),
            );
            (v(w) * t) * v(x) + (v(w) * f) * v(y) + ((p * o) * v(low) + (n * o) * v(high)) <= v(w)
                * v(z)
        }),
{
    exact::lemma_numbers(v);
    lemma_branches(
        v(w),
        v(affine::surely_true(l, u)),
        v(affine::surely_false(l, u)),
        v(affine::undecided(l, u)),
        v(x),
        v(y),
        v(z),
        v(low),
        v(high),
    );
}

/// What each place adds to the bias of a selection.
spec fn gap_terms<S: Scalar>(
    v: spec_fn(S) -> real,
    p: IBPV<S>,
    a: IBPV<S>,
    b: IBPV<S>,
    w: TensorV<S>,
) -> spec_fn(int) -> real {
    |r: int|
        {
            let k = shape::source_index(r, w.shape, p.lb.shape);
            let i = shape::source_index(r, w.shape, a.lb.shape);
            let o = v(affine::undecided(p.lb.data[k], p.ub.data[k]));
            (slopes::positive(v(w.data[r])) * o) * v(a.lb.data[i].smaller(b.lb.data[i])) + (
            slopes::negative(v(w.data[r])) * o) * v(a.ub.data[i].larger(b.ub.data[i]))
        }
}

/// What the program of a selection computes.
#[verifier::rlimit(40)]
proof fn lemma_where_run<S: Scalar>(
    v: spec_fn(S) -> real,
    p: IBPV<S>,
    a: IBPV<S>,
    b: IBPV<S>,
    inputs: Seq<TensorV<S>>,
    rule: RuleV<S>,
    parts: Seq<TensorV<S>>,
)
    requires
        exact::exact(v),
        inputs.len() == 1,
        support::weighable(inputs[0]),
        reals::full(p.lb),
        reals::full(a.lb),
        reals::full(a.ub),
        p.lb.shape == p.ub.shape,
        reals::full(p.ub),
        a.lb.shape == a.ub.shape,
        b.lb.shape == b.ub.shape,
        reals::full(b.lb),
        reals::full(b.ub),
        shape::expands_to(p.lb.shape, inputs[0].shape),
        shape::expands_to(a.lb.shape, inputs[0].shape),
        affine::where_rule(p, a, b) == Ok::<RuleV<S>, Fault>(rule),
        vjp::applied::<S, Tensor<S>>((), rule, inputs).1 == Ok::<Seq<TensorV<S>>, Fault>(parts),
    ensures
        a.lb.shape == b.lb.shape,
        parts.len() == 6,
        parts[0] == model::filled(p.lb.shape, scalar::zero::<S>()),
        parts[1] == model::scalar_tensor(scalar::zero::<S>()),
        parts[5] == parts[1],
        pairing::sizable(parts[2]),
        parts[2].shape == inputs[0].shape,
        pairing::sizable(parts[4]),
        parts[4].shape == inputs[0].shape,
        pairing::is_scalar(parts[3]),
        v(parts[3].data[0]) == sums::sum(
            gap_terms(v, p, a, b, inputs[0]),
            inputs[0].data.len(),
        ),
        forall|r: int|
            0 <= r < inputs[0].data.len() ==> v(#[trigger] parts[2].data[r]) == v(
                inputs[0].data[r],
            ) * v(
                affine::surely_true(
                    p.lb.data[shape::source_index(r, inputs[0].shape, p.lb.shape)],
                    p.ub.data[shape::source_index(r, inputs[0].shape, p.lb.shape)],
                ),
            ),
        forall|r: int|
            0 <= r < inputs[0].data.len() ==> v(#[trigger] parts[4].data[r]) == v(
                inputs[0].data[r],
            ) * v(
                affine::surely_false(
                    p.lb.data[shape::source_index(r, inputs[0].shape, p.lb.shape)],
                    p.ub.data[shape::source_index(r, inputs[0].shape, p.lb.shape)],
                ),
            ),
{
    let w = inputs[0];
    let s = w.shape;
    let all = pairing::lemma_applied(rule, inputs, parts);
    let steps = rule.steps;
    lemma_where_steps(p, a, b, rule);
    carry_products::lemma_split(v, steps, inputs, all);
    let st = interval::zipped(p.lb, p.ub, |l: S, u: S| affine::surely_true(l, u));
    let sf = interval::zipped(p.lb, p.ub, |l: S, u: S| affine::surely_false(l, u));
    let un = interval::zipped(p.lb, p.ub, |l: S, u: S| affine::undecided(l, u));
    let low = interval::zipped(a.lb, b.lb, |x: S, y: S| x.smaller(y));
    let high = interval::zipped(a.ub, b.ub, |x: S, y: S| x.larger(y));
    pairing::lemma_load_step(steps, inputs, all, 3, st);
    pairing::lemma_bin_step(steps, inputs, all, 4, BinOpV::Mul, Reg::In(0), Reg::Out(3));
    lemma_mul_wide(v, w, st, all[4]);
    pairing::lemma_load_step(steps, inputs, all, 5, sf);
    pairing::lemma_bin_step(steps, inputs, all, 6, BinOpV::Mul, Reg::In(0), Reg::Out(5));
    lemma_mul_wide(v, w, sf, all[6]);
    pairing::lemma_load_step(steps, inputs, all, 7, un);
    pairing::lemma_bin_step(steps, inputs, all, 8, BinOpV::Mul, Reg::Out(0), Reg::Out(7));
    lemma_mul_wide(v, all[0], un, all[8]);
    pairing::lemma_load_step(steps, inputs, all, 9, low);
    pairing::lemma_bin_step(steps, inputs, all, 10, BinOpV::Mul, Reg::Out(8), Reg::Out(9));
    lemma_mul_wide(v, all[8], low, all[10]);
    pairing::lemma_sum_step(steps, inputs, all, 11, Reg::Out(10));
    pairing::lemma_sum_all(v, all[10], all[11]);
    pairing::lemma_bin_step(steps, inputs, all, 12, BinOpV::Mul, Reg::Out(2), Reg::Out(7));
    lemma_mul_wide(v, all[2], un, all[12]);
    pairing::lemma_load_step(steps, inputs, all, 13, high);
    pairing::lemma_bin_step(steps, inputs, all, 14, BinOpV::Mul, Reg::Out(12), Reg::Out(13));
    lemma_mul_wide(v, all[12], high, all[14]);
    pairing::lemma_sum_step(steps, inputs, all, 15, Reg::Out(14));
    pairing::lemma_sum_all(v, all[14], all[15]);
    pairing::lemma_bin_step(steps, inputs, all, 16, BinOpV::Add, Reg::Out(11), Reg::Out(15));
    pairing::lemma_add_scalars(v, all[11], all[15], all[16]);
    pairing::lemma_load_step(
        steps,
        inputs,
        all,
        17,
        model::filled(p.lb.shape, scalar::zero::<S>()),
    );
    pairing::lemma_load_step(
        steps,
        inputs,
        all,
        18,
        model::scalar_tensor(scalar::zero::<S>()),
    );
    assert(parts[0] == all[17] && parts[1] == all[18] && parts[2] == all[4]);
    assert(parts[3] == all[16] && parts[4] == all[6] && parts[5] == all[18]);
    let n = w.data.len();
    let beta = gap_terms(v, p, a, b, w);
    let (f, g) = (|r: int| v(all[10].data[r]), |r: int| v(all[14].data[r]));
    assert forall|r: int| 0 <= r < n implies #[trigger] beta(r) == f(r) + g(r) by {
        shape::lemma_source_index(r, s, p.lb.shape);
        shape::lemma_source_index(r, s, a.lb.shape);
        assert(v(all[0].data[r]) == slopes::positive(v(w.data[r])));
        assert(v(all[2].data[r]) == slopes::negative(v(w.data[r])));
    }
    sums::lemma_sum_plus(f, g, beta, n);
    assert forall|r: int| 0 <= r < n implies v(#[trigger] parts[2].data[r]) == v(w.data[r]) * v(
        affine::surely_true(
            p.lb.data[shape::source_index(r, s, p.lb.shape)],
            p.ub.data[shape::source_index(r, s, p.lb.shape)],
        ),
    ) by {
        shape::lemma_source_index(r, s, p.lb.shape);
    }
    assert forall|r: int| 0 <= r < n implies v(#[trigger] parts[4].data[r]) == v(w.data[r]) * v(
        affine::surely_false(
            p.lb.data[shape::source_index(r, s, p.lb.shape)],
            p.ub.data[shape::source_index(r, s, p.lb.shape)],
        ),
    ) by {
        shape::lemma_source_index(r, s, p.lb.shape);
    }
}

/// What the parts of three operands make.
proof fn lemma_three<S>(v: spec_fn(S) -> real, parts: Seq<TensorV<S>>, xs: Seq<TensorV<S>>)
    requires
        xs.len() == 3,
        parts.len() == 6,
        support::part_fits(parts[0], parts[1], xs[0]),
        support::part_fits(parts[2], parts[3], xs[1]),
        support::part_fits(parts[4], parts[5], xs[2]),
    ensures
        support::carried(v, parts, xs, 3) == pairing::spread(v, parts[0], xs[0]) + v(
            parts[1].data[0],
        ) + pairing::spread(v, parts[2], xs[1]) + v(parts[3].data[0]) + pairing::spread(
            v,
            parts[4],
            xs[2],
        ) + v(parts[5].data[0]),
        forall|i: int|
            0 <= i < 3 ==> support::part_fits(parts[2 * i], parts[2 * i + 1], #[trigger] xs[i]),
{
    assert(support::carried(v, parts, xs, 0) == 0real);
    assert(support::carried(v, parts, xs, 1) == 0real + pairing::spread(v, parts[0], xs[0]) + v(
        parts[1].data[0],
    ));
    assert(support::carried(v, parts, xs, 2) == support::carried(v, parts, xs, 1)
        + pairing::spread(v, parts[2], xs[1]) + v(parts[3].data[0]));
    assert(support::carried(v, parts, xs, 3) == support::carried(v, parts, xs, 2)
        + pairing::spread(v, parts[4], xs[2]) + v(parts[5].data[0]));
    assert forall|i: int| 0 <= i < 3 implies support::part_fits(
        parts[2 * i],
        parts[2 * i + 1],
        #[trigger] xs[i],
    ) by {
        if i == 0 {
        } else if i == 1 {
        } else {
            assert(i == 2);
        }
    }
}

/// The program of a selection carries weights.
#[verifier::rlimit(40)]
pub proof fn lemma_where_carries<S: Scalar>(
    v: spec_fn(S) -> real,
    q: TensorV<S>,
    x: TensorV<S>,
    y: TensorV<S>,
    z: TensorV<S>,
    p: IBPV<S>,
    a: IBPV<S>,
    b: IBPV<S>,
    inputs: Seq<TensorV<S>>,
    rule: RuleV<S>,
    parts: Seq<TensorV<S>>,
)
    requires
        exact::exact(v),
        inputs.len() == 1,
        support::weighable(inputs[0]),
        support::weighable(q),
        containment::inside(v, q, p),
        containment::inside(v, x, a),
        containment::inside(v, y, b),
        model::select_tensor(q, x, y) == Ok::<TensorV<S>, Fault>(z),
        inputs[0].shape == z.shape,
        affine::where_rule(p, a, b) == Ok::<RuleV<S>, Fault>(rule),
        vjp::applied::<S, Tensor<S>>((), rule, inputs).1 == Ok::<Seq<TensorV<S>>, Fault>(parts),
    ensures
        support::carries(v, parts, seq![q, x, y], inputs[0], z),
{
    let w = inputs[0];
    let s = w.shape;
    let n = w.data.len();
    exact::lemma_numbers(v);
    let mid = shape::broadcast(q.shape, x.shape)->0;
    shape::lemma_broadcast_expands(q.shape, x.shape);
    shape::lemma_broadcast_expands(mid, y.shape);
    shape::lemma_expands_trans(q.shape, mid, s);
    shape::lemma_expands_trans(x.shape, mid, s);
    lemma_where_run(v, p, a, b, inputs, rule, parts);
    let beta = gap_terms(v, p, a, b, w);
    let f = |r: int| v(parts[2].data[r]) * v(x.data[shape::source_index(r, s, x.shape)]);
    let g = |r: int| v(parts[4].data[r]) * v(y.data[shape::source_index(r, s, y.shape)]);
    let fg = |r: int| f(r) + g(r);
    let fgb = |r: int| fg(r) + beta(r);
    let h = |r: int| v(w.data[r]) * v(z.data[r]);
    sums::lemma_sum_plus(f, g, fg, n);
    sums::lemma_sum_plus(fg, beta, fgb, n);
    assert forall|r: int| 0 <= r < n implies #[trigger] fgb(r) <= h(r) by {
        shape::lemma_source_index(r, s, q.shape);
        shape::lemma_source_index(r, s, x.shape);
        let k = shape::source_index(r, s, q.shape);
        let i = shape::source_index(r, s, x.shape);
        assert(v(p.lb.data[k]) <= v(q.data[k]));
        assert(v(q.data[k]) <= v(p.ub.data[k]));
        assert(v(a.lb.data[i]) <= v(x.data[i]));
        assert(v(x.data[i]) <= v(a.ub.data[i]));
        assert(v(b.lb.data[i]) <= v(y.data[i]));
        assert(v(y.data[i]) <= v(b.ub.data[i]));
        lemma_place(
            v,
            w.data[r],
            q.data[k],
            p.lb.data[k],
            p.ub.data[k],
            x.data[i],
            y.data[i],
            z.data[r],
            a.lb.data[i].smaller(b.lb.data[i]),
            a.ub.data[i].larger(b.ub.data[i]),
        );
        assert(v(parts[2].data[r]) == v(w.data[r]) * v(
            affine::surely_true(p.lb.data[k], p.ub.data[k]),
        ));
        assert(v(parts[4].data[r]) == v(w.data[r]) * v(
            affine::surely_false(p.lb.data[k], p.ub.data[k]),
        ));
    }
    sums::lemma_sum_le(fgb, h, n);
    let zeros = parts[0];
    pairing::lemma_same_shape(q.shape);
    let e = |k: int| v(zeros.data[k]) * v(q.data[shape::source_index(k, q.shape, q.shape)]);
    assert forall|k: int| 0 <= k < zeros.data.len() implies #[trigger] e(k) == 0real by {
        let c = v(q.data[shape::source_index(k, q.shape, q.shape)]);
        exact::lemma_units(c, c);
    }
    sums::lemma_sum_zero(e, zeros.data.len());
    lemma_three(v, parts, seq![q, x, y]);
}

} // verus!
