//! The programs of elementwise operations carry the weights of their results to their operands.

use vstd::prelude::*;
use crate::affine;
use crate::containment;
use crate::crown;
use crate::exact;
use crate::interval::IBPV;
use crate::lines;
use crate::lines::Curve;
use crate::model::{BinOpV, Fault, TensorV, UnOpV};
use crate::pairing;
use crate::reals;
use crate::scalar::Scalar;
use crate::shape;
use crate::sums;
use crate::slopes;
use crate::support;
use crate::tensor::Tensor;
use crate::value::{Reg, StepV};
use crate::vjp;
use crate::vjp::RuleV;

verus! {

/// Step `i` of a program that has run.
pub proof fn lemma_step<S: Scalar>(
    steps: Seq<StepV<S>>,
    inputs: Seq<TensorV<S>>,
    all: Seq<TensorV<S>>,
    i: int,
)
    requires
        pairing::performed(steps, inputs, all),
        0 <= i < steps.len(),
    ensures
        all.len() == steps.len(),
        pairing::computed(steps[i], inputs, all) == Ok::<TensorV<S>, Fault>(all[i]),
{
    reveal(pairing::performed);
}

/// A weight and a number for one operand that stay below the result, element by element.
pub proof fn lemma_elementwise<S: Scalar>(
    v: spec_fn(S) -> real,
    parts: Seq<TensorV<S>>,
    x: TensorV<S>,
    w: TensorV<S>,
    y: TensorV<S>,
    beta: spec_fn(int) -> real,
)
    requires
        parts.len() == 2,
        support::weighable(w),
        w.shape == x.shape,
        w.shape == y.shape,
        pairing::sizable(parts[0]),
        parts[0].shape == x.shape,
        reals::full(x),
        reals::full(y),
        pairing::is_scalar(parts[1]),
        v(parts[1].data[0]) == sums::sum(beta, w.data.len()),
        forall|k: int|
            0 <= k < w.data.len() ==> v(parts[0].data[k]) * v(x.data[k]) + #[trigger] beta(k) <= v(
                w.data[k],
            ) * v(y.data[k]),
    ensures
        support::carries(v, parts, seq![x], w, y),
{
    let p = parts[0];
    pairing::lemma_same_shape(x.shape);
    pairing::lemma_spread_same(v, p, x);
    let f = |k: int| v(p.data[k]) * v(x.data[k]);
    let g = |k: int| f(k) + beta(k);
    let h = |k: int| v(w.data[k]) * v(y.data[k]);
    let n = w.data.len();
    sums::lemma_sum_plus(f, beta, g, n);
    sums::lemma_sum_le(g, h, n);
    let xs = seq![x];
    assert(xs[0] == x);
    assert(support::carried(v, parts, xs, 0) == 0real);
    assert(support::carried(v, parts, xs, 1) == 0real + pairing::spread(v, p, x) + v(
        parts[1].data[0],
    ));
    assert forall|i: int| 0 <= i < xs.len() implies support::part_fits(
        parts[2 * i],
        parts[2 * i + 1],
        #[trigger] xs[i],
    ) by {}
}

// ---- lines ----
/// Whether the lines of a function lie below and above it at `x`, where its value is `y`.
pub open spec fn between_lines<S>(v: spec_fn(S) -> real, n: lines::Lines<S>, x: S, y: S) -> bool {
    v(n.ls) * v(x) + v(n.lo) <= v(y) <= v(n.us) * v(x) + v(n.uo)
}

/// Whether the lines of a function on an interval lie below and above it at all elements.
pub open spec fn sandwiched<S: Scalar>(
    v: spec_fn(S) -> real,
    f: Curve<S>,
    b: IBPV<S>,
    x: TensorV<S>,
    y: TensorV<S>,
) -> bool {
    forall|k: int|
        0 <= k < x.data.len() ==> between_lines(
            v,
            lines::curve_lines(f, b.lb.data[k], b.ub.data[k]),
            #[trigger] x.data[k],
            y.data[k],
        )
}

/// The program of the lines of a function carries weights where the lines are right.
#[verifier::rlimit(40)]
pub proof fn lemma_convex_carries<S: Scalar>(
    v: spec_fn(S) -> real,
    f: Curve<S>,
    b: IBPV<S>,
    x: TensorV<S>,
    y: TensorV<S>,
    rule: RuleV<S>,
    inputs: Seq<TensorV<S>>,
    parts: Seq<TensorV<S>>,
)
    requires
        exact::exact(v),
        affine::convex_rule(f, b) == Ok::<RuleV<S>, Fault>(rule),
        inputs.len() > 0,
        support::weighable(inputs[0]),
        containment::inside(v, x, b),
        inputs[0].shape == x.shape,
        y.shape == x.shape,
        reals::full(y),
        sandwiched(v, f, b, x, y),
        vjp::applied::<S, Tensor<S>>((), rule, inputs).1 == Ok::<Seq<TensorV<S>>, Fault>(parts),
    ensures
        support::carries(v, parts, seq![x], inputs[0], y),
        pairing::sizable(parts[0]),
        parts[0].shape == x.shape,
{
    reveal(affine::convex_rule);
    let w = inputs[0];
    let all = pairing::lemma_applied(rule, inputs, parts);
    let steps = rule.steps;
    let n = w.data.len();
    lemma_step(steps, inputs, all, 0);
    lemma_step(steps, inputs, all, 1);
    lemma_step(steps, inputs, all, 2);
    lemma_step(steps, inputs, all, 3);
    lemma_step(steps, inputs, all, 4);
    pairing::lemma_relu(v, w, all[4]);
    lemma_step(steps, inputs, all, 5);
    pairing::lemma_neg(v, all[4], all[5]);
    lemma_step(steps, inputs, all, 6);
    pairing::lemma_add_same(v, w, all[5], all[6]);
    lemma_step(steps, inputs, all, 7);
    pairing::lemma_mul_same(v, all[0], all[4], all[7]);
    lemma_step(steps, inputs, all, 8);
    pairing::lemma_mul_same(v, all[2], all[6], all[8]);
    lemma_step(steps, inputs, all, 9);
    pairing::lemma_add_same(v, all[7], all[8], all[9]);
    lemma_step(steps, inputs, all, 10);
    pairing::lemma_mul_same(v, all[1], all[4], all[10]);
    lemma_step(steps, inputs, all, 11);
    pairing::lemma_sum_all(v, all[10], all[11]);
    lemma_step(steps, inputs, all, 12);
    pairing::lemma_mul_same(v, all[3], all[6], all[12]);
    lemma_step(steps, inputs, all, 13);
    pairing::lemma_sum_all(v, all[12], all[13]);
    lemma_step(steps, inputs, all, 14);
    pairing::lemma_add_scalars(v, all[11], all[13], all[14]);
    let (low, high) = (|k: int| v(all[10].data[k]), |k: int| v(all[12].data[k]));
    let beta = |k: int| low(k) + high(k);
    sums::lemma_sum_plus(low, high, beta, n);
    assert forall|k: int| 0 <= k < n implies v(parts[0].data[k]) * v(x.data[k]) + #[trigger] beta(
        k,
    ) <= v(w.data[k]) * v(y.data[k]) by {
        let l = lines::curve_lines(f, b.lb.data[k], b.ub.data[k]);
        assert(between_lines(v, l, x.data[k], y.data[k]));
        slopes::lemma_weighed(
            v(w.data[k]),
            v(x.data[k]),
            v(y.data[k]),
            v(l.ls),
            v(l.lo),
            v(l.us),
            v(l.uo),
        );
        assert(v(all[4].data[k]) == slopes::positive(v(w.data[k])));
        assert(v(all[6].data[k]) == slopes::negative(v(w.data[k])));
    }
    lemma_elementwise(v, parts, x, w, y, beta);
}

// ---- rectifiers ----
/// Whether the slopes of the lines below a rectifier are numbers between zero and one.
pub open spec fn unit_slopes<S>(v: spec_fn(S) -> real, alpha: TensorV<S>, x: TensorV<S>) -> bool {
    &&& pairing::sizable(alpha)
    &&& alpha.shape == x.shape
    &&& forall|k: int| 0 <= k < alpha.data.len() ==> 0real <= v(#[trigger] alpha.data[k]) <= 1real
}

/// What a rectifier with slope `slope` below zero makes of `x`.
pub open spec fn is_rectified<S: Scalar>(
    v: spec_fn(S) -> real,
    slope: S,
    x: TensorV<S>,
    y: TensorV<S>,
) -> bool {
    &&& y.shape == x.shape
    &&& reals::full(y)
    &&& forall|k: int|
        0 <= k < y.data.len() ==> v(#[trigger] y.data[k]) == (if 0real <= v(x.data[k]) {
            v(x.data[k])
        } else {
            v(slope) * v(x.data[k])
        })
}

/// The program of a rectifier carries weights.
#[verifier::rlimit(60)]
pub proof fn lemma_relu_carries<S: Scalar>(
    v: spec_fn(S) -> real,
    slope: S,
    b: IBPV<S>,
    x: TensorV<S>,
    y: TensorV<S>,
    inputs: Seq<TensorV<S>>,
    parts: Seq<TensorV<S>>,
)
    requires
        exact::exact(v),
        inputs.len() > 1,
        support::weighable(inputs[0]),
        containment::inside(v, x, b),
        inputs[0].shape == x.shape,
        unit_slopes(v, inputs[1], x),
        0real <= v(slope) <= 1real,
        is_rectified(v, slope, x, y),
        vjp::applied::<S, Tensor<S>>((), affine::relu_rule(slope, b), inputs).1 == Ok::<
            Seq<TensorV<S>>,
            Fault,
        >(parts),
    ensures
        support::carries(v, parts, seq![x], inputs[0], y),
        pairing::sizable(parts[0]),
        parts[0].shape == x.shape,
{
    reveal(affine::relu_rule);
    let rule = affine::relu_rule(slope, b);
    let (w, alpha) = (inputs[0], inputs[1]);
    let all = pairing::lemma_applied(rule, inputs, parts);
    let steps = rule.steps;
    let n = w.data.len();
    lemma_step(steps, inputs, all, 0);
    lemma_step(steps, inputs, all, 1);
    pairing::lemma_mul_number(v, alpha, all[0], all[1]);
    lemma_step(steps, inputs, all, 2);
    lemma_step(steps, inputs, all, 3);
    pairing::lemma_add_number(v, all[1], all[2], all[3]);
    lemma_step(steps, inputs, all, 4);
    lemma_step(steps, inputs, all, 5);
    lemma_step(steps, inputs, all, 6);
    pairing::lemma_select_same(v, all[4], all[3], all[5], all[6]);
    lemma_step(steps, inputs, all, 7);
    lemma_step(steps, inputs, all, 8);
    lemma_step(steps, inputs, all, 9);
    pairing::lemma_relu(v, w, all[9]);
    lemma_step(steps, inputs, all, 10);
    pairing::lemma_neg(v, all[9], all[10]);
    lemma_step(steps, inputs, all, 11);
    pairing::lemma_add_same(v, w, all[10], all[11]);
    lemma_step(steps, inputs, all, 12);
    pairing::lemma_mul_same(v, all[6], all[9], all[12]);
    lemma_step(steps, inputs, all, 13);
    pairing::lemma_mul_same(v, all[7], all[11], all[13]);
    lemma_step(steps, inputs, all, 14);
    pairing::lemma_add_same(v, all[12], all[13], all[14]);
    lemma_step(steps, inputs, all, 15);
    pairing::lemma_mul_same(v, all[8], all[11], all[15]);
    lemma_step(steps, inputs, all, 16);
    pairing::lemma_sum_all(v, all[15], all[16]);
    exact::lemma_numbers(v);
    let beta = |k: int| v(all[15].data[k]);
    assert forall|k: int| 0 <= k < n implies v(parts[0].data[k]) * v(x.data[k]) + #[trigger] beta(
        k,
    ) <= v(w.data[k]) * v(y.data[k]) by {
        let (l, u) = (b.lb.data[k], b.ub.data[k]);
        assert(v(l) <= v(x.data[k]));
        assert(v(x.data[k]) <= v(u));
        let (a, us, uo) = (v(all[6].data[k]), v(all[7].data[k]), v(all[8].data[k]));
        assert(all[7].data[k] == affine::relu_upper_slope(slope, l, u));
        assert(all[8].data[k] == affine::relu_upper_offset(l, u));
        assert(all[4].data[k] == affine::relu_open(l, u));
        assert(all[5].data[k] == affine::relu_fixed(slope, l));
        if v(l) < 0real < v(u) {
            let t = v(alpha.data[k]);
            let s = v(slope);
            assert(a == t * (1real - s) + s);
            exact::lemma_scale_le(1real - s, 0real, t);
            exact::lemma_scale_le(1real - s, t, 1real);
            exact::lemma_units(1real - s, t);
        }
        slopes::lemma_rectifier(a, v(x.data[k]), v(y.data[k]), v(l), v(u), us, uo, v(slope));
        slopes::lemma_weighed(v(w.data[k]), v(x.data[k]), v(y.data[k]), a, 0real, us, uo);
        assert(v(all[9].data[k]) == slopes::positive(v(w.data[k])));
        assert(v(all[11].data[k]) == slopes::negative(v(w.data[k])));
        let p = slopes::positive(v(w.data[k]));
        exact::lemma_units(p, p);
    }
    lemma_elementwise(v, parts, x, w, y, beta);
}

/// An element that a rectifier scales by one factor on all of its interval.
proof fn lemma_exact_element(a: real, us: real, c: real, d: real, x: real, y: real, slope: real)
    requires
        a == us,
        a == 1real && y == x || a == slope && y == slope * x,
    ensures
        (a * c + us * d) * x == (c + d) * y,
        0real * d == 0real,
        d * 0real == 0real,
{
    exact::lemma_distribute(a, c, d);
    exact::lemma_units(d, d);
    exact::lemma_units(c + d, x);
    exact::lemma_regroup(a, c + d, x);
    exact::lemma_units(a * x, c + d);
    exact::lemma_units(c + d, a);
}

/// The slope of the line below an element of a rectifier.
pub open spec fn lower_slope<S: Scalar>(
    v: spec_fn(S) -> real,
    slope: S,
    alpha: S,
    l: S,
    u: S,
) -> real {
    if v(l) < 0real < v(u) {
        v(alpha) * (1real - v(slope)) + v(slope)
    } else {
        v(affine::relu_fixed(slope, l))
    }
}

/// What the program of a rectifier computes.
#[verifier::spinoff_prover]
#[verifier::rlimit(80)]
proof fn lemma_relu_values<S: Scalar>(
    v: spec_fn(S) -> real,
    slope: S,
    b: IBPV<S>,
    inputs: Seq<TensorV<S>>,
    parts: Seq<TensorV<S>>,
)
    requires
        exact::exact(v),
        inputs.len() > 1,
        support::weighable(inputs[0]),
        b.lb.shape == inputs[0].shape,
        b.ub.shape == inputs[0].shape,
        reals::full(b.lb),
        reals::full(b.ub),
        pairing::sizable(inputs[1]),
        inputs[1].shape == inputs[0].shape,
        vjp::applied::<S, Tensor<S>>((), affine::relu_rule(slope, b), inputs).1 == Ok::<
            Seq<TensorV<S>>,
            Fault,
        >(parts),
    ensures
        parts.len() == 2,
        parts[0].shape == inputs[0].shape,
        parts[0].data.len() == inputs[0].data.len(),
        pairing::is_scalar(parts[1]),
        forall|k: int|
            0 <= k < inputs[0].data.len() ==> v(#[trigger] parts[0].data[k]) == lower_slope(
                v,
                slope,
                inputs[1].data[k],
                b.lb.data[k],
                b.ub.data[k],
            ) * slopes::positive(v(inputs[0].data[k])) + v(
                affine::relu_upper_slope(slope, b.lb.data[k], b.ub.data[k]),
            ) * slopes::negative(v(inputs[0].data[k])),
        v(parts[1].data[0]) == sums::sum(
            |k: int|
                v(affine::relu_upper_offset(b.lb.data[k], b.ub.data[k])) * slopes::negative(
                    v(inputs[0].data[k]),
                ),
            inputs[0].data.len(),
        ),
{
    reveal(affine::relu_rule);
    let rule = affine::relu_rule(slope, b);
    let (w, alpha) = (inputs[0], inputs[1]);
    let all = pairing::lemma_applied(rule, inputs, parts);
    let steps = rule.steps;
    let n = w.data.len();
    lemma_step(steps, inputs, all, 0);
    lemma_step(steps, inputs, all, 1);
    pairing::lemma_mul_number(v, alpha, all[0], all[1]);
    lemma_step(steps, inputs, all, 2);
    lemma_step(steps, inputs, all, 3);
    pairing::lemma_add_number(v, all[1], all[2], all[3]);
    lemma_step(steps, inputs, all, 4);
    lemma_step(steps, inputs, all, 5);
    lemma_step(steps, inputs, all, 6);
    pairing::lemma_select_same(v, all[4], all[3], all[5], all[6]);
    lemma_step(steps, inputs, all, 7);
    lemma_step(steps, inputs, all, 8);
    lemma_step(steps, inputs, all, 9);
    pairing::lemma_relu(v, w, all[9]);
    lemma_step(steps, inputs, all, 10);
    pairing::lemma_neg(v, all[9], all[10]);
    lemma_step(steps, inputs, all, 11);
    pairing::lemma_add_same(v, w, all[10], all[11]);
    lemma_step(steps, inputs, all, 12);
    pairing::lemma_mul_same(v, all[6], all[9], all[12]);
    lemma_step(steps, inputs, all, 13);
    pairing::lemma_mul_same(v, all[7], all[11], all[13]);
    lemma_step(steps, inputs, all, 14);
    pairing::lemma_add_same(v, all[12], all[13], all[14]);
    lemma_step(steps, inputs, all, 15);
    pairing::lemma_mul_same(v, all[8], all[11], all[15]);
    lemma_step(steps, inputs, all, 16);
    pairing::lemma_sum_all(v, all[15], all[16]);
    exact::lemma_numbers(v);
    assert forall|k: int| 0 <= k < n implies v(#[trigger] parts[0].data[k]) == lower_slope(
        v,
        slope,
        alpha.data[k],
        b.lb.data[k],
        b.ub.data[k],
    ) * slopes::positive(v(w.data[k])) + v(
        affine::relu_upper_slope(slope, b.lb.data[k], b.ub.data[k]),
    ) * slopes::negative(v(w.data[k])) by {
        let (l, u) = (b.lb.data[k], b.ub.data[k]);
        assert(all[7].data[k] == affine::relu_upper_slope(slope, l, u));
        assert(all[4].data[k] == affine::relu_open(l, u));
        assert(all[5].data[k] == affine::relu_fixed(slope, l));
        assert(v(all[6].data[k]) == lower_slope(v, slope, alpha.data[k], l, u));
        assert(v(all[9].data[k]) == slopes::positive(v(w.data[k])));
        assert(v(all[11].data[k]) == slopes::negative(v(w.data[k])));
    }
    let f = |k: int| v(all[15].data[k]);
    let h = |k: int|
        v(affine::relu_upper_offset(b.lb.data[k], b.ub.data[k])) * slopes::negative(v(w.data[k]));
    assert forall|k: int| 0 <= k < n implies #[trigger] f(k) == h(k) by {
        assert(all[8].data[k] == affine::relu_upper_offset(b.lb.data[k], b.ub.data[k]));
        assert(v(all[11].data[k]) == slopes::negative(v(w.data[k])));
    }
    sums::lemma_sum_le(f, h, n);
    sums::lemma_sum_le(h, f, n);
}

/// The relaxation of a rectifier is exact where the bounds of no element hold numbers of both
/// signs: nothing goes to the bias, and the weighed sum of the operand is that of the result.
#[verifier::spinoff_prover]
#[verifier::rlimit(40)]
pub proof fn lemma_relu_exact<S: Scalar>(
    v: spec_fn(S) -> real,
    slope: S,
    b: IBPV<S>,
    x: TensorV<S>,
    y: TensorV<S>,
    inputs: Seq<TensorV<S>>,
    parts: Seq<TensorV<S>>,
)
    requires
        exact::exact(v),
        inputs.len() > 1,
        support::weighable(inputs[0]),
        containment::inside(v, x, b),
        inputs[0].shape == x.shape,
        pairing::sizable(inputs[1]),
        inputs[1].shape == x.shape,
        is_rectified(v, slope, x, y),
        forall|k: int|
            0 <= k < x.data.len() ==> 0real <= v(#[trigger] b.lb.data[k]) || v(b.ub.data[k])
                <= 0real,
        vjp::applied::<S, Tensor<S>>((), affine::relu_rule(slope, b), inputs).1 == Ok::<
            Seq<TensorV<S>>,
            Fault,
        >(parts),
    ensures
        parts.len() == 2,
        parts[0].shape == x.shape,
        pairing::is_scalar(parts[1]),
        v(parts[1].data[0]) == 0real,
        pairing::pairing(v, parts[0], x) == pairing::pairing(v, inputs[0], y),
{
    let (w, n) = (inputs[0], inputs[0].data.len());
    lemma_relu_values(v, slope, b, inputs, parts);
    exact::lemma_numbers(v);
    let f = |k: int|
        v(affine::relu_upper_offset(b.lb.data[k], b.ub.data[k])) * slopes::negative(v(w.data[k]));
    assert forall|k: int| 0 <= k < n implies #[trigger] f(k) == 0real by {
        assert(0real <= v(b.lb.data[k]) || v(b.ub.data[k]) <= 0real);
        exact::lemma_units(slopes::negative(v(w.data[k])), 0real);
    }
    sums::lemma_sum_zero(f, n);
    let p = |k: int| v(parts[0].data[k]) * v(x.data[k]);
    let q = |k: int| v(w.data[k]) * v(y.data[k]);
    assert forall|k: int| 0 <= k < n implies #[trigger] p(k) == q(k) by {
        let (l, u) = (b.lb.data[k], b.ub.data[k]);
        assert(0real <= v(l) || v(u) <= 0real);
        assert(v(l) <= v(x.data[k]));
        assert(v(x.data[k]) <= v(u));
        let m = v(w.data[k]);
        exact::lemma_units(v(slope), 0real);
        lemma_exact_element(
            lower_slope(v, slope, inputs[1].data[k], l, u),
            v(affine::relu_upper_slope(slope, l, u)),
            slopes::positive(m),
            slopes::negative(m),
            v(x.data[k]),
            v(y.data[k]),
            v(slope),
        );
        assert(v(parts[0].data[k]) == lower_slope(v, slope, inputs[1].data[k], l, u)
            * slopes::positive(m) + v(affine::relu_upper_slope(slope, l, u)) * slopes::negative(m));
    }
    sums::lemma_sum_le(p, q, n);
    sums::lemma_sum_le(q, p, n);
}

// ---- constraints ----
/// Whether the multipliers of constraints are not negative, and the constraints with signs `s`
/// hold at `x`.
pub open spec fn constraints_hold<S>(
    v: spec_fn(S) -> real,
    beta: TensorV<S>,
    s: TensorV<S>,
    x: TensorV<S>,
) -> bool {
    &&& pairing::sizable(beta)
    &&& beta.shape == x.shape
    &&& reals::full(s)
    &&& s.shape == x.shape
    &&& forall|k: int|
        0 <= k < x.data.len() ==> 0real <= v(#[trigger] beta.data[k]) && 0real <= v(s.data[k]) * v(
            x.data[k],
        )
}

/// A weight from which multiples of the signs of constraints that hold have been taken off.
proof fn lemma_taken_off<S: Scalar>(
    v: spec_fn(S) -> real,
    p: TensorV<S>,
    q: TensorV<S>,
    beta: TensorV<S>,
    s: TensorV<S>,
    x: TensorV<S>,
)
    requires
        p.shape == x.shape,
        q.shape == x.shape,
        reals::full(p),
        reals::full(q),
        reals::full(x),
        constraints_hold(v, beta, s, x),
        forall|k: int|
            0 <= k < p.data.len() ==> v(#[trigger] p.data[k]) == v(q.data[k]) + -(v(beta.data[k])
                * v(s.data[k])),
    ensures
        pairing::spread(v, p, x) <= pairing::spread(v, q, x),
{
    pairing::lemma_spread_same(v, p, x);
    pairing::lemma_spread_same(v, q, x);
    let f = |k: int| v(p.data[k]) * v(x.data[k]);
    let g = |k: int| v(q.data[k]) * v(x.data[k]);
    assert forall|k: int| 0 <= k < x.data.len() implies #[trigger] f(k) <= g(k) by {
        let (m, t, a) = (v(beta.data[k]), v(s.data[k]), v(x.data[k]));
        assert(0real <= m && 0real <= t * a);
        assert(v(p.data[k]) == v(q.data[k]) + -(m * t));
        exact::lemma_distribute(a, v(q.data[k]), -(m * t));
        exact::lemma_regroup(m, t, a);
        exact::lemma_units(m * t, a);
        exact::lemma_scale_le(m, 0real, t * a);
        exact::lemma_units(m, t);
    }
    sums::lemma_sum_le(f, g, x.data.len());
}

/// The results of a program with constraints.
pub proof fn lemma_constrained_parts<S: Scalar>(
    v: spec_fn(S) -> real,
    rule: RuleV<S>,
    s: TensorV<S>,
    x: TensorV<S>,
    inputs: Seq<TensorV<S>>,
    parts: Seq<TensorV<S>>,
) -> (free: Seq<TensorV<S>>)
    requires
        exact::exact(v),
        inputs.len() == 3,
        constraints_hold(v, inputs[2], s, x),
        rule.outs.len() == 2,
        rule.steps.len() < 1000,
        forall|i: int|
            0 <= i < 2 ==> pairing::is_result(#[trigger] rule.outs[i], rule.steps.len() as int),
        vjp::applied::<S, Tensor<S>>((), crown::constrained(Ok(rule), s)->Ok_0, inputs).1 == Ok::<
            Seq<TensorV<S>>,
            Fault,
        >(parts),
    ensures
        vjp::applied::<S, Tensor<S>>((), rule, inputs).1 == Ok::<Seq<TensorV<S>>, Fault>(free),
        free.len() == 2,
        parts.len() == 2,
        parts[1] == free[1],
        pairing::sizable(free[0]) && free[0].shape == x.shape ==> {
            &&& pairing::sizable(parts[0])
            &&& parts[0].shape == x.shape
            &&& forall|k: int|
                0 <= k < parts[0].data.len() ==> v(#[trigger] parts[0].data[k]) == v(
                    free[0].data[k],
                ) + -(v(inputs[2].data[k]) * v(s.data[k]))
        },
{
    let whole = crown::constrained(Ok(rule), s)->Ok_0;
    let all = pairing::lemma_applied(whole, inputs, parts);
    let n = rule.steps.len() as int;
    assert forall|i: int| 0 <= i < n implies #[trigger] whole.steps[i] == rule.steps[i] by {}
    pairing::lemma_start_applies(rule, whole.steps, inputs);
    let free = vjp::applied::<S, Tensor<S>>((), rule, inputs).1->Ok_0;
    let base = pairing::lemma_applied(rule, inputs, free);
    lemma_prefix(rule.steps, whole.steps, inputs, base, all, n);
    assert(pairing::is_result(rule.outs[0], n));
    assert(pairing::is_result(rule.outs[1], n));
    assert(free[0] == pairing::named(rule.outs[0], inputs, base));
    assert(free[1] == pairing::named(rule.outs[1], inputs, base));
    assert(pairing::named(rule.outs[0], inputs, all) == free[0]) by {
        let j = rule.outs[0]->Out_0 as int;
        assert(base.subrange(0, n)[j] == all.subrange(0, n)[j]);
    }
    assert(pairing::named(rule.outs[1], inputs, all) == free[1]) by {
        let j = rule.outs[1]->Out_0 as int;
        assert(base.subrange(0, n)[j] == all.subrange(0, n)[j]);
    }
    assert(whole.outs[0] == Reg::Out((n + 3) as usize));
    assert(whole.outs[1] == rule.outs[1]);
    assert(whole.steps[n] == StepV::Load(s));
    assert(whole.steps[n + 1] == StepV::<S>::Bin(BinOpV::Mul, Reg::In(2), Reg::Out(n as usize)));
    assert(whole.steps[n + 2] == StepV::<S>::Un(UnOpV::Neg, Reg::Out((n + 1) as usize)));
    assert(whole.steps[n + 3] == StepV::<S>::Bin(
        BinOpV::Add,
        rule.outs[0],
        Reg::Out((n + 2) as usize),
    ));
    lemma_step(whole.steps, inputs, all, n);
    lemma_step(whole.steps, inputs, all, n + 1);
    lemma_step(whole.steps, inputs, all, n + 2);
    lemma_step(whole.steps, inputs, all, n + 3);
    if pairing::sizable(free[0]) && free[0].shape == x.shape {
        pairing::lemma_mul_same(v, inputs[2], s, all[n + 1]);
        pairing::lemma_neg(v, all[n + 1], all[n + 2]);
        pairing::lemma_add_same(v, free[0], all[n + 2], all[n + 3]);
    }
    free
}

/// A program with constraints carries weights where the program without them does.
pub proof fn lemma_constrained_carries<S: Scalar>(
    v: spec_fn(S) -> real,
    x: TensorV<S>,
    y: TensorV<S>,
    inputs: Seq<TensorV<S>>,
    s: TensorV<S>,
    free: Seq<TensorV<S>>,
    parts: Seq<TensorV<S>>,
)
    requires
        inputs.len() == 3,
        reals::full(x),
        support::dense(x.shape),
        constraints_hold(v, inputs[2], s, x),
        support::carries(v, free, seq![x], inputs[0], y),
        free[0].shape == x.shape,
        parts.len() == 2,
        parts[1] == free[1],
        pairing::sizable(parts[0]),
        parts[0].shape == x.shape,
        forall|k: int|
            0 <= k < parts[0].data.len() ==> v(#[trigger] parts[0].data[k]) == v(free[0].data[k])
                + -(v(inputs[2].data[k]) * v(s.data[k])),
    ensures
        support::carries(v, parts, seq![x], inputs[0], y),
{
    let xs = seq![x];
    assert(xs[0] == x);
    assert(support::part_fits(free[0], free[1], xs[0]));
    lemma_taken_off(v, parts[0], free[0], inputs[2], s, x);
    pairing::lemma_same_shape(x.shape);
    assert(support::carried(v, parts, xs, 0) == 0real);
    assert(support::carried(v, free, xs, 0) == 0real);
    assert(support::carried(v, parts, xs, 1) == 0real + pairing::spread(v, parts[0], x) + v(
        parts[1].data[0],
    ));
    assert(support::carried(v, free, xs, 1) == 0real + pairing::spread(v, free[0], x) + v(
        free[1].data[0],
    ));
    assert forall|i: int| 0 <= i < xs.len() implies support::part_fits(
        parts[2 * i],
        parts[2 * i + 1],
        #[trigger] xs[i],
    ) by {}
}

/// A program that starts like another runs like it at first.
pub proof fn lemma_prefix<S: Scalar>(
    short: Seq<StepV<S>>,
    long: Seq<StepV<S>>,
    inputs: Seq<TensorV<S>>,
    base: Seq<TensorV<S>>,
    all: Seq<TensorV<S>>,
    k: int,
)
    requires
        pairing::ran(short, inputs, base),
        pairing::ran(long, inputs, all),
        0 <= k <= short.len() <= long.len(),
        forall|i: int| 0 <= i < short.len() ==> #[trigger] long[i] == short[i],
    ensures
        base.subrange(0, k) == all.subrange(0, k),
    decreases k,
{
    if k > 0 {
        lemma_prefix(short, long, inputs, base, all, k - 1);
        assert(pairing::works(short, inputs, base, k - 1));
        assert(pairing::works(long, inputs, all, k - 1));
        assert(long[k - 1] == short[k - 1]);
        assert(base.subrange(0, k) =~= base.subrange(0, k - 1).push(base[k - 1]));
        assert(all.subrange(0, k) =~= all.subrange(0, k - 1).push(all[k - 1]));
    } else {
        assert(base.subrange(0, 0) =~= all.subrange(0, 0));
    }
}

} // verus!
