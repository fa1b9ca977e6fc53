//! Affine bounds are sound: in exact arithmetic, what the walk computes lies below the network on
//! all inputs in the box.

use vstd::prelude::*;
use crate::affine;
use crate::carry;
use crate::carry_conv;
use crate::carry_dot;
use crate::carry_moves;
use crate::carry_pad;
use crate::carry_places;
use crate::carry_pool;
use crate::carry_products;
use crate::carry_select;
use crate::containment;
use crate::crown;
use crate::crown::{ParamsV, StartV};
use crate::env;
use crate::eval;
use crate::exact;
use crate::interval::IBPV;
use crate::lines;
use crate::lines::Curve;
use crate::model;
use crate::model::{BinOpV, Fault, TensorV, UnOpV};
use crate::nn;
use crate::nn::{AtomV, EqnV, GraphV, PrimV};
use crate::pairing;
use crate::reals;
use crate::sandwich;
use crate::scalar;
use crate::scalar::Scalar;
use crate::sums;
use crate::support;
use crate::turning;
use crate::tensor::Tensor;
use crate::vjp;
use crate::vjp::RuleV;

verus! {

// ---- which relaxations are sound ----
/// Whether the lines of a function are sound on all elements of an interval.
pub open spec fn lines_hold<S: Scalar>(v: spec_fn(S) -> real, f: Curve<S>, b: IBPV<S>) -> bool {
    forall|k: int|
        0 <= k < b.lb.data.len() ==> sandwich::point_or_wide(
            v,
            #[trigger] b.lb.data[k],
            b.ub.data[k],
        ) && sandwich::bends_one_way(v, f, b.lb.data[k], b.ub.data[k])
}

/// Whether a function lies between its lines on all elements of an interval.
pub open spec fn lines_bound<S: Scalar>(v: spec_fn(S) -> real, f: Curve<S>, b: IBPV<S>) -> bool {
    forall|k: int, x: S|
        #![trigger b.lb.data[k], model::at_point(sandwich::drawn(f), x)]
        0 <= k < b.lb.data.len() && v(b.lb.data[k]) <= v(x) <= v(b.ub.data[k])
            ==> carry::between_lines(
            v,
            lines::curve_lines(f, b.lb.data[k], b.ub.data[k]),
            x,
            model::at_point(sandwich::drawn(f), x),
        )
}

/// The standard normal distribution function lies between its lines on intervals that lie on one
/// side of zero, and on those across zero whose chord serves for both lines.
pub proof fn lemma_normcdf_bound<S: Scalar>(v: spec_fn(S) -> real, b: IBPV<S>)
    requires
        exact::exact(v),
        exact::bell_shaped(v),
        forall|k: int|
            0 <= k < b.lb.data.len() ==> sandwich::point_or_wide(
                v,
                #[trigger] b.lb.data[k],
                b.ub.data[k],
            ) && (v(b.ub.data[k]) <= 0real || 0real <= v(b.lb.data[k]) || turning::chords_suffice(
                v,
                b.lb.data[k],
                b.ub.data[k],
            )),
    ensures
        lines_bound(v, Curve::NormalCdf, b),
{
    let f = Curve::<S>::NormalCdf;
    assert forall|k: int, x: S|
        #![trigger b.lb.data[k], model::at_point(sandwich::drawn(f), x)]
        0 <= k < b.lb.data.len() && v(b.lb.data[k]) <= v(x) <= v(
            b.ub.data[k],
        ) implies carry::between_lines(
        v,
        lines::curve_lines(f, b.lb.data[k], b.ub.data[k]),
        x,
        model::at_point(sandwich::drawn(f), x),
    ) by {
        turning::lemma_normcdf(v, b.lb.data[k], b.ub.data[k], x);
    }
}

/// The Gaussian error linear unit lies between its lines on all intervals.
pub proof fn lemma_gelu_bound<S: Scalar>(v: spec_fn(S) -> real, b: IBPV<S>)
    requires
        exact::exact(v),
        turning::unit_shaped(v),
    ensures
        lines_bound(v, Curve::Gelu, b),
{
    let f = Curve::<S>::Gelu;
    assert forall|k: int, x: S|
        #![trigger b.lb.data[k], model::at_point(sandwich::drawn(f), x)]
        0 <= k < b.lb.data.len() && v(b.lb.data[k]) <= v(x) <= v(
            b.ub.data[k],
        ) implies carry::between_lines(
        v,
        lines::curve_lines(f, b.lb.data[k], b.ub.data[k]),
        x,
        model::at_point(sandwich::drawn(f), x),
    ) by {
        turning::lemma_gelu_lines(v, b.lb.data[k], b.ub.data[k], x);
    }
}

/// Whether the lower slopes of a rectifier with the result `out` lie between zero and one.
pub open spec fn slopes_hold<S: Scalar>(
    v: spec_fn(S) -> real,
    p: ParamsV<S, TensorV<S>>,
    out: AtomV<S>,
    x: TensorV<S>,
) -> bool {
    env::resolved::<S, Tensor<S>>(p.alphas, out) matches Ok(alpha) ==> carry::unit_slopes(
        v,
        alpha,
        x,
    )
}

/// Whether the constraints on the input of an activation with the result `out` hold at `x`, and
/// their multipliers are not negative.
pub open spec fn splits_hold<S: Scalar>(
    v: spec_fn(S) -> real,
    p: ParamsV<S, TensorV<S>>,
    out: AtomV<S>,
    x: TensorV<S>,
) -> bool {
    p.splitting matches Some(s) ==> (env::resolved::<S, Tensor<S>>(s.betas, out) matches Ok(beta)
        ==> carry::constraints_hold(v, beta, crown::or_zeros(s.splits, out.name, x.shape), x))
}

/// Whether an operation on one operand, which has rank `n` and lies in `b`, can be relaxed soundly.
/// Of the functions that the error function makes, it is asked that they lie between their lines.
pub open spec fn unary_suits<S: Scalar>(
    v: spec_fn(S) -> real,
    op: UnOpV<S>,
    n: int,
    b: IBPV<S>,
) -> bool {
    match op {
        UnOpV::Reciprocal | UnOpV::Square | UnOpV::Sqrt | UnOpV::Exp | UnOpV::Elu(_) => lines_hold(
            v,
            crown::curve_of(op)->Some_0,
            b,
        ),
        UnOpV::NormalCdf | UnOpV::Gelu => lines_bound(v, crown::curve_of(op)->Some_0, b),
        UnOpV::LeakyRelu(slope) => 0real <= v(slope) <= 1real,
        UnOpV::ReduceSum(axes) => carry_moves::named_once(axes, n),
        UnOpV::Pad(p) => carry_pad::axes_apart(p.axes, n),
        UnOpV::Pool(window, _, _) => carry_pool::windows_count(window),
        _ => true,
    }
}

/// Whether the relaxation of an operation on one operand, which is `x` and lies in `b`, is sound.
pub open spec fn unary_holds<S: Scalar>(
    v: spec_fn(S) -> real,
    p: ParamsV<S, TensorV<S>>,
    op: UnOpV<S>,
    out: AtomV<S>,
    x: TensorV<S>,
    b: IBPV<S>,
) -> bool {
    &&& unary_suits(v, op, x.shape.len() as int, b)
    &&& op is Relu || op is LeakyRelu ==> slopes_hold(v, p, out, x)
    &&& op is Relu || op is LeakyRelu || op is Elu || op is Gelu ==> splits_hold(v, p, out, x)
}

/// Whether the relaxation of an equation is sound at the tensors of an environment.
pub open spec fn relaxes<S: Scalar>(
    v: spec_fn(S) -> real,
    e: Map<Seq<char>, TensorV<S>>,
    b: Map<Seq<char>, IBPV<S>>,
    p: ParamsV<S, TensorV<S>>,
    eqn: EqnV<S>,
) -> bool {
    match eqn.prim {
        PrimV::Un(op, a) => crown::bounds_of(b, a) matches Ok(c) ==> unary_holds(
            v,
            p,
            op,
            eqn.out,
            support::meant(e, a),
            c,
        ),
        PrimV::Bin(BinOpV::Dot, a, c) => a.shape.len() <= 2 && c.shape.len() <= 2,
        PrimV::Bin(BinOpV::Conv(stride), a, c) => carry_conv::tiles(a.shape, c.shape, stride),
        _ => true,
    }
}

// ---- single equations ----
/// What a rectifier computes.
proof fn lemma_rectified<S: Scalar>(
    v: spec_fn(S) -> real,
    op: UnOpV<S>,
    slope: S,
    x: TensorV<S>,
    y: TensorV<S>,
)
    requires
        exact::exact(v),
        reals::full(x),
        op == UnOpV::<S>::Relu && slope == scalar::zero::<S>() || op == UnOpV::LeakyRelu(slope),
        model::un_tensor(op, x) == Ok::<TensorV<S>, Fault>(y),
    ensures
        carry::is_rectified(v, slope, x, y),
{
    exact::lemma_numbers(v);
    assert forall|k: int| 0 <= k < y.data.len() implies v(#[trigger] y.data[k]) == (if 0real
        <= v(x.data[k]) {
        v(x.data[k])
    } else {
        v(slope) * v(x.data[k])
    }) by {
        exact::lemma_units(v(x.data[k]), v(x.data[k]));
        assert(y.data[k] == model::at_point(op, x.data[k]));
    }
}

/// What an elementwise function computes lies between its lines.
proof fn lemma_sandwiched<S: Scalar>(
    v: spec_fn(S) -> real,
    f: Curve<S>,
    b: IBPV<S>,
    x: TensorV<S>,
    y: TensorV<S>,
)
    requires
        exact::exact(v),
        containment::inside(v, x, b),
        lines_hold(v, f, b),
        model::un_tensor(sandwich::drawn(f), x) == Ok::<TensorV<S>, Fault>(y),
    ensures
        y.shape == x.shape,
        reals::full(y),
        carry::sandwiched(v, f, b, x, y),
{
    assert forall|k: int| 0 <= k < x.data.len() implies carry::between_lines(
        v,
        lines::curve_lines(f, b.lb.data[k], b.ub.data[k]),
        #[trigger] x.data[k],
        y.data[k],
    ) by {
        assert(v(b.lb.data[k]) <= v(x.data[k]));
        assert(v(x.data[k]) <= v(b.ub.data[k]));
        sandwich::lemma_curve(v, f, b.lb.data[k], b.ub.data[k], x.data[k]);
        assert(y.data[k] == model::at_point(sandwich::drawn(f), x.data[k]));
    }
}

/// What a function computes that lies between its lines.
proof fn lemma_bounded<S: Scalar>(
    v: spec_fn(S) -> real,
    f: Curve<S>,
    b: IBPV<S>,
    x: TensorV<S>,
    y: TensorV<S>,
)
    requires
        containment::inside(v, x, b),
        lines_bound(v, f, b),
        f == Curve::<S>::NormalCdf || f == Curve::<S>::Gelu,
        model::un_tensor(sandwich::drawn(f), x) == Ok::<TensorV<S>, Fault>(y),
    ensures
        y.shape == x.shape,
        reals::full(y),
        carry::sandwiched(v, f, b, x, y),
{
    assert forall|k: int| 0 <= k < x.data.len() implies carry::between_lines(
        v,
        lines::curve_lines(f, b.lb.data[k], b.ub.data[k]),
        #[trigger] x.data[k],
        y.data[k],
    ) by {
        assert(v(b.lb.data[k]) <= v(x.data[k]));
        assert(v(x.data[k]) <= v(b.ub.data[k]));
        assert(y.data[k] == model::at_point(sandwich::drawn(f), x.data[k]));
    }
}

/// The program of an activation carries weights, without constraints.
proof fn lemma_activation<S: Scalar>(
    v: spec_fn(S) -> real,
    p: ParamsV<S, TensorV<S>>,
    op: UnOpV<S>,
    out: AtomV<S>,
    x: TensorV<S>,
    y: TensorV<S>,
    b: IBPV<S>,
    rule: RuleV<S>,
    inputs: Seq<TensorV<S>>,
    parts: Seq<TensorV<S>>,
)
    requires
        exact::exact(v),
        containment::inside(v, x, b),
        op is Relu || op is LeakyRelu || op is Elu || op is Gelu,
        unary_holds(v, p, op, out, x, b),
        inputs.len() > 1,
        support::weighable(inputs[0]),
        inputs[0].shape == y.shape,
        env::resolved::<S, Tensor<S>>(p.alphas, out) == Ok::<TensorV<S>, Fault>(inputs[1]),
        model::un_tensor(op, x) == Ok::<TensorV<S>, Fault>(y),
        crown::activation_rule(op, b) == Ok::<RuleV<S>, Fault>(rule),
        vjp::applied::<S, Tensor<S>>((), rule, inputs).1 == Ok::<Seq<TensorV<S>>, Fault>(parts),
    ensures
        support::carries(v, parts, seq![x], inputs[0], y),
        pairing::sizable(parts[0]),
        parts[0].shape == x.shape,
{
    exact::lemma_numbers(v);
    match op {
        UnOpV::Relu => {
            lemma_rectified(v, op, scalar::zero::<S>(), x, y);
            carry::lemma_relu_carries(v, scalar::zero::<S>(), b, x, y, inputs, parts);
        },
        UnOpV::LeakyRelu(slope) => {
            lemma_rectified(v, op, slope, x, y);
            carry::lemma_relu_carries(v, slope, b, x, y, inputs, parts);
        },
        UnOpV::Elu(slope) => {
            let f = Curve::Elu(slope);
            lemma_sandwiched(v, f, b, x, y);
            carry::lemma_convex_carries(v, f, b, x, y, rule, inputs, parts);
        },
        UnOpV::Gelu => {
            let f = Curve::<S>::Gelu;
            lemma_bounded(v, f, b, x, y);
            carry::lemma_convex_carries(v, f, b, x, y, rule, inputs, parts);
        },
        _ => {},
    }
}

/// The program of an activation ends in its two results.
proof fn lemma_activation_ends<S: Scalar>(op: UnOpV<S>, b: IBPV<S>)
    ensures
        crown::activation_rule(op, b) matches Ok(rule) ==> {
            &&& rule.outs.len() == 2
            &&& rule.steps.len() < 1000
            &&& forall|i: int|
                0 <= i < 2 ==> pairing::is_result(#[trigger] rule.outs[i], rule.steps.len() as int)
        },
{
    reveal(affine::convex_rule);
    reveal(affine::relu_rule);
}

/// The program of an operation on one operand carries weights.
#[verifier::rlimit(60)]
proof fn lemma_unary_carries<S: Scalar>(
    v: spec_fn(S) -> real,
    e: Map<Seq<char>, TensorV<S>>,
    b: Map<Seq<char>, IBPV<S>>,
    p: ParamsV<S, TensorV<S>>,
    op: UnOpV<S>,
    a: AtomV<S>,
    out: AtomV<S>,
    w: TensorV<S>,
    y: TensorV<S>,
    c: IBPV<S>,
    rule: RuleV<S>,
    inputs: Seq<TensorV<S>>,
    parts: Seq<TensorV<S>>,
)
    requires
        exact::exact(v),
        support::shaped(e, a),
        crown::bounds_of(b, a) == Ok::<IBPV<S>, Fault>(c),
        containment::inside(v, support::meant(e, a), c),
        unary_holds(v, p, op, out, support::meant(e, a), c),
        support::weighable(w),
        w.shape == y.shape,
        model::un_tensor(op, support::meant(e, a)) == Ok::<TensorV<S>, Fault>(y),
        crown::unary_rule(op, a, out, w.shape, b, p) == Ok::<RuleV<S>, Fault>(rule),
        crown::crown_inputs::<S, Tensor<S>>(PrimV::Un(op, a), out, w, p) == Ok::<
            Seq<TensorV<S>>,
            Fault,
        >(inputs),
        vjp::applied::<S, Tensor<S>>((), rule, inputs).1 == Ok::<Seq<TensorV<S>>, Fault>(parts),
    ensures
        support::carries(v, parts, seq![support::meant(e, a)], w, y),
{
    let x = support::meant(e, a);
    match op {
        UnOpV::Neg => {
            carry_products::lemma_neg_carries(v, x, y, inputs, rule, parts);
        },
        UnOpV::Reciprocal | UnOpV::Square | UnOpV::Sqrt | UnOpV::Exp => {
            let f = crown::curve_of(op)->Some_0;
            lemma_sandwiched(v, f, c, x, y);
            carry::lemma_convex_carries(v, f, c, x, y, rule, inputs, parts);
        },
        UnOpV::NormalCdf => {
            let f = Curve::<S>::NormalCdf;
            lemma_bounded(v, f, c, x, y);
            carry::lemma_convex_carries(v, f, c, x, y, rule, inputs, parts);
        },
        UnOpV::Relu | UnOpV::LeakyRelu(_) | UnOpV::Elu(_) | UnOpV::Gelu => {
            match p.splitting {
                Some(s) if s.splits.dom().contains(out.name) => {
                    let base = crown::activation_rule(op, c)->Ok_0;
                    let signs = s.splits[out.name];
                    lemma_activation_ends(op, c);
                    let free = carry::lemma_constrained_parts(v, base, signs, x, inputs, parts);
                    lemma_activation(v, p, op, out, x, y, c, base, inputs, free);
                    carry::lemma_constrained_carries(v, x, y, inputs, signs, free, parts);
                },
                _ => {
                    lemma_activation(v, p, op, out, x, y, c, rule, inputs, parts);
                },
            }
        },
        UnOpV::Reshape(d) => {
            assert(c.lb.shape == x.shape);
            carry_moves::lemma_reshape_carries(v, d, x, y, inputs, parts);
        },
        UnOpV::ReduceSum(axes) => {
            carry_moves::lemma_reduce_carries(v, axes, x, y, inputs, parts);
        },
        UnOpV::ExpandDims(axes) => {
            carry_moves::lemma_expand_carries(v, axes, x, y, inputs, parts);
        },
        UnOpV::Pad(options) => {
            carry_pad::lemma_pad_carries(v, options, x, y, rule, w, parts);
        },
        UnOpV::Pool(window, stride, average) => {
            let base = vjp::pool_rule::<S>(y.shape, x.shape, window, stride, average)->Ok_0;
            carry_pool::lemma_pool_carries(
                v,
                window,
                stride,
                average,
                x,
                y,
                base,
                inputs,
                parts,
            );
        },
        UnOpV::MoveAxis(from, to) => {
            carry_places::lemma_move_carries(v, from, to, x, y, inputs, parts);
        },
        UnOpV::Slice(axis, start, end, step) => {
            let pad = vjp::unslice_pad::<S>(axis, start, step, y.shape, x.shape)->Ok_0;
            carry_places::lemma_slice_carries(
                v,
                axis,
                start,
                end,
                step,
                x,
                y,
                pad,
                inputs,
                parts,
            );
        },
        _ => {},
    }
}

/// The program of an operation on two operands carries weights.
proof fn lemma_binary_carries<S: Scalar>(
    v: spec_fn(S) -> real,
    e: Map<Seq<char>, TensorV<S>>,
    b: Map<Seq<char>, IBPV<S>>,
    op: BinOpV,
    a1: AtomV<S>,
    a2: AtomV<S>,
    w: TensorV<S>,
    z: TensorV<S>,
    c1: IBPV<S>,
    c2: IBPV<S>,
    rule: RuleV<S>,
    parts: Seq<TensorV<S>>,
)
    requires
        exact::exact(v),
        support::shaped(e, a1),
        support::shaped(e, a2),
        crown::bounds_of(b, a1) == Ok::<IBPV<S>, Fault>(c1),
        crown::bounds_of(b, a2) == Ok::<IBPV<S>, Fault>(c2),
        containment::inside(v, support::meant(e, a1), c1),
        containment::inside(v, support::meant(e, a2), c2),
        op is Dot ==> a1.shape.len() <= 2 && a2.shape.len() <= 2,
        !(op is Conv),
        support::weighable(w),
        w.shape == z.shape,
        model::bin_tensor(op, support::meant(e, a1), support::meant(e, a2)) == Ok::<
            TensorV<S>,
            Fault,
        >(z),
        crown::binary_rule(op, a1, a2, b) == Ok::<RuleV<S>, Fault>(rule),
        vjp::applied::<S, Tensor<S>>((), rule, seq![w]).1 == Ok::<Seq<TensorV<S>>, Fault>(parts),
    ensures
        support::carries(
            v,
            parts,
            seq![support::meant(e, a1), support::meant(e, a2)],
            w,
            z,
        ),
{
    let (x, y) = (support::meant(e, a1), support::meant(e, a2));
    let inputs = seq![w];
    match op {
        BinOpV::Add => {
            carry_products::lemma_add_carries(v, x, y, z, inputs, parts);
        },
        BinOpV::Mul => {
            carry_products::lemma_mul_pairing(v, x, y, z, w);
            carry_products::lemma_mul_carries(
                v,
                x,
                y,
                z,
                c1,
                c2,
                w.shape,
                inputs,
                rule,
                parts,
            );
        },
        BinOpV::Dot => {
            carry_dot::lemma_dot_carries(v, x, y, z, c1, c2, inputs, rule, parts);
        },
        _ => {},
    }
}

/// What an interval environment gives for an operand holds the operand.
pub proof fn lemma_operand_inside<S: Scalar>(
    v: spec_fn(S) -> real,
    e: Map<Seq<char>, TensorV<S>>,
    b: Map<Seq<char>, IBPV<S>>,
    a: AtomV<S>,
) -> (c: IBPV<S>)
    requires
        support::shaped(e, a),
        containment::all_inside(v, e, b),
    ensures
        crown::bounds_of(b, a) == Ok::<IBPV<S>, Fault>(c),
        containment::inside(v, support::meant(e, a), c),
{
    if a.value is None {
        assert(containment::inside(v, e[a.name], b[a.name]));
    }
    crown::bounds_of(b, a)->Ok_0
}

/// Whether an operand lies in the interval that an environment gives for it.
pub open spec fn operand_inside<S: Scalar>(
    v: spec_fn(S) -> real,
    e: Map<Seq<char>, TensorV<S>>,
    b: Map<Seq<char>, IBPV<S>>,
    a: AtomV<S>,
) -> bool {
    match crown::bounds_of(b, a) {
        Ok(c) => containment::inside(v, support::meant(e, a), c),
        Err(_) => false,
    }
}

/// Whether the operands of an operation lie in the intervals that an environment gives for them.
pub open spec fn operands_inside<S: Scalar>(
    v: spec_fn(S) -> real,
    e: Map<Seq<char>, TensorV<S>>,
    b: Map<Seq<char>, IBPV<S>>,
    p: PrimV<S>,
) -> bool {
    forall|i: int|
        0 <= i < nn::operands_of(p).len() ==> operand_inside(v, e, b, #[trigger] nn::operands_of(p)[i])
}

/// The operands of a graph whose variables lie in their intervals do so too.
pub proof fn lemma_operands_inside<S: Scalar>(
    v: spec_fn(S) -> real,
    e: Map<Seq<char>, TensorV<S>>,
    b: Map<Seq<char>, IBPV<S>>,
    input: AtomV<S>,
    eqns: Seq<EqnV<S>>,
)
    requires
        all_shaped(e, input, eqns),
        containment::all_inside(v, e, b),
    ensures
        forall|j: int| 0 <= j < eqns.len() ==> operands_inside(v, e, b, (#[trigger] eqns[j]).prim),
{
    assert forall|j: int| 0 <= j < eqns.len() implies operands_inside(
        v,
        e,
        b,
        (#[trigger] eqns[j]).prim,
    ) by {
        assert forall|i: int| 0 <= i < nn::operands_of(eqns[j].prim).len() implies operand_inside(
            v,
            e,
            b,
            #[trigger] nn::operands_of(eqns[j].prim)[i],
        ) by {
            let c = lemma_operand_inside(v, e, b, nn::operands_of(eqns[j].prim)[i]);
        }
    }
}

/// The program of an operation on one operand whose relaxation is sound carries one weight.
#[verifier::spinoff_prover]
#[verifier::rlimit(50)]
proof fn lemma_unary_weight<S: Scalar>(
    v: spec_fn(S) -> real,
    e: Map<Seq<char>, TensorV<S>>,
    b: Map<Seq<char>, IBPV<S>>,
    p: ParamsV<S, TensorV<S>>,
    eqn: EqnV<S>,
    w: TensorV<S>,
    rule: RuleV<S>,
    inputs: Seq<TensorV<S>>,
    parts: Seq<TensorV<S>>,
    op: UnOpV<S>,
    a: AtomV<S>,
)
    requires
        exact::exact(v),
        eqn.prim == PrimV::Un(op, a),
        forall|i: int|
            0 <= i < nn::operands_of(eqn.prim).len() ==> support::shaped(
                e,
                #[trigger] nn::operands_of(eqn.prim)[i],
            ),
        eval::prim_value::<S, Tensor<S>>((), e, eqn.prim).1 == Ok::<TensorV<S>, Fault>(
            e[eqn.out.name],
        ),
        operands_inside(v, e, b, eqn.prim),
        relaxes(v, e, b, p, eqn),
        support::weighable(w),
        w.shape == e[eqn.out.name].shape,
        crown::crown_rule(eqn.prim, eqn.out, w.shape, b, p) == Ok::<RuleV<S>, Fault>(rule),
        crown::crown_inputs::<S, Tensor<S>>(eqn.prim, eqn.out, w, p) == Ok::<
            Seq<TensorV<S>>,
            Fault,
        >(inputs),
        vjp::applied::<S, Tensor<S>>((), rule, inputs).1 == Ok::<Seq<TensorV<S>>, Fault>(parts),
    ensures
        support::carries(v, parts, support::operands(e, eqn.prim), w, e[eqn.out.name]),
{
    let y = e[eqn.out.name];
    let atoms = nn::operands_of(eqn.prim);
    assert(support::shaped(e, atoms[0]));
    assert(operand_inside(v, e, b, atoms[0]));
    let c = crown::bounds_of(b, a)->Ok_0;
    lemma_unary_carries(v, e, b, p, op, a, eqn.out, w, y, c, rule, inputs, parts);
    assert(support::operands(e, eqn.prim) =~= seq![support::meant(e, a)]);
}

/// The program of an operation on two operands whose relaxation is sound carries one weight.
#[verifier::spinoff_prover]
#[verifier::rlimit(50)]
proof fn lemma_binary_weight<S: Scalar>(
    v: spec_fn(S) -> real,
    e: Map<Seq<char>, TensorV<S>>,
    b: Map<Seq<char>, IBPV<S>>,
    p: ParamsV<S, TensorV<S>>,
    eqn: EqnV<S>,
    w: TensorV<S>,
    rule: RuleV<S>,
    inputs: Seq<TensorV<S>>,
    parts: Seq<TensorV<S>>,
    op: BinOpV,
    a1: AtomV<S>,
    a2: AtomV<S>,
)
    requires
        exact::exact(v),
        eqn.prim == PrimV::Bin(op, a1, a2),
        forall|i: int|
            0 <= i < nn::operands_of(eqn.prim).len() ==> support::shaped(
                e,
                #[trigger] nn::operands_of(eqn.prim)[i],
            ),
        eval::prim_value::<S, Tensor<S>>((), e, eqn.prim).1 == Ok::<TensorV<S>, Fault>(
            e[eqn.out.name],
        ),
        operands_inside(v, e, b, eqn.prim),
        relaxes(v, e, b, p, eqn),
        support::weighable(w),
        w.shape == e[eqn.out.name].shape,
        crown::crown_rule(eqn.prim, eqn.out, w.shape, b, p) == Ok::<RuleV<S>, Fault>(rule),
        crown::crown_inputs::<S, Tensor<S>>(eqn.prim, eqn.out, w, p) == Ok::<
            Seq<TensorV<S>>,
            Fault,
        >(inputs),
        vjp::applied::<S, Tensor<S>>((), rule, inputs).1 == Ok::<Seq<TensorV<S>>, Fault>(parts),
    ensures
        support::carries(v, parts, support::operands(e, eqn.prim), w, e[eqn.out.name]),
{
    let y = e[eqn.out.name];
    let atoms = nn::operands_of(eqn.prim);
    assert(support::shaped(e, atoms[0]));
    assert(support::shaped(e, atoms[1]));
    assert(operand_inside(v, e, b, atoms[0]));
    assert(operand_inside(v, e, b, atoms[1]));
    let (c1, c2) = (crown::bounds_of(b, a1)->Ok_0, crown::bounds_of(b, a2)->Ok_0);
    match op {
        BinOpV::Conv(stride) => {
            let (x, k) = (support::meant(e, a1), support::meant(e, a2));
            let base = vjp::conv_rule::<S>(x.shape, k.shape, stride)->Ok_0;
            carry_conv::lemma_conv_carries(v, stride, x, k, y, base, inputs, parts);
            assert(support::operands(e, eqn.prim) =~= seq![x]);
        },
        _ => {
            lemma_binary_carries(v, e, b, op, a1, a2, w, y, c1, c2, rule, parts);
            assert(support::operands(e, eqn.prim) =~= seq![
                support::meant(e, a1),
                support::meant(e, a2),
            ]);
        },
    }
}

/// The program of a selection carries one weight.
#[verifier::spinoff_prover]
#[verifier::rlimit(50)]
proof fn lemma_select_weight<S: Scalar>(
    v: spec_fn(S) -> real,
    e: Map<Seq<char>, TensorV<S>>,
    b: Map<Seq<char>, IBPV<S>>,
    p: ParamsV<S, TensorV<S>>,
    eqn: EqnV<S>,
    w: TensorV<S>,
    rule: RuleV<S>,
    inputs: Seq<TensorV<S>>,
    parts: Seq<TensorV<S>>,
    q: AtomV<S>,
    a1: AtomV<S>,
    a2: AtomV<S>,
)
    requires
        exact::exact(v),
        eqn.prim == PrimV::Select(q, a1, a2),
        forall|i: int|
            0 <= i < nn::operands_of(eqn.prim).len() ==> support::shaped(
                e,
                #[trigger] nn::operands_of(eqn.prim)[i],
            ),
        eval::prim_value::<S, Tensor<S>>((), e, eqn.prim).1 == Ok::<TensorV<S>, Fault>(
            e[eqn.out.name],
        ),
        operands_inside(v, e, b, eqn.prim),
        relaxes(v, e, b, p, eqn),
        support::weighable(w),
        w.shape == e[eqn.out.name].shape,
        crown::crown_rule(eqn.prim, eqn.out, w.shape, b, p) == Ok::<RuleV<S>, Fault>(rule),
        crown::crown_inputs::<S, Tensor<S>>(eqn.prim, eqn.out, w, p) == Ok::<
            Seq<TensorV<S>>,
            Fault,
        >(inputs),
        vjp::applied::<S, Tensor<S>>((), rule, inputs).1 == Ok::<Seq<TensorV<S>>, Fault>(parts),
    ensures
        support::carries(v, parts, support::operands(e, eqn.prim), w, e[eqn.out.name]),
{
    let y = e[eqn.out.name];
    let atoms = nn::operands_of(eqn.prim);
    assert(support::shaped(e, atoms[0]));
    assert(operand_inside(v, e, b, atoms[0]));
    assert(operand_inside(v, e, b, atoms[1]));
    assert(operand_inside(v, e, b, atoms[2]));
    assert(support::shaped(e, atoms[1]));
    assert(support::shaped(e, atoms[2]));
    let (t0, t1, t2) = (support::meant(e, q), support::meant(e, a1), support::meant(e, a2));
    let c0 = crown::bounds_of(b, q)->Ok_0;
    let (c1, c2) = (crown::bounds_of(b, a1)->Ok_0, crown::bounds_of(b, a2)->Ok_0);
    carry_select::lemma_where_carries(v, t0, t1, t2, y, c0, c1, c2, inputs, rule, parts);
    assert(support::operands(e, eqn.prim) =~= seq![t0, t1, t2]);
}

/// The program of an equation whose relaxation is sound carries one weight.
proof fn lemma_weight_carries<S: Scalar>(
    v: spec_fn(S) -> real,
    e: Map<Seq<char>, TensorV<S>>,
    b: Map<Seq<char>, IBPV<S>>,
    p: ParamsV<S, TensorV<S>>,
    eqn: EqnV<S>,
    w: TensorV<S>,
    rule: RuleV<S>,
    inputs: Seq<TensorV<S>>,
    parts: Seq<TensorV<S>>,
)
    requires
        exact::exact(v),
        forall|i: int|
            0 <= i < nn::operands_of(eqn.prim).len() ==> support::shaped(
                e,
                #[trigger] nn::operands_of(eqn.prim)[i],
            ),
        eval::prim_value::<S, Tensor<S>>((), e, eqn.prim).1 == Ok::<TensorV<S>, Fault>(
            e[eqn.out.name],
        ),
        operands_inside(v, e, b, eqn.prim),
        relaxes(v, e, b, p, eqn),
        support::weighable(w),
        w.shape == e[eqn.out.name].shape,
        crown::crown_rule(eqn.prim, eqn.out, w.shape, b, p) == Ok::<RuleV<S>, Fault>(rule),
        crown::crown_inputs::<S, Tensor<S>>(eqn.prim, eqn.out, w, p) == Ok::<
            Seq<TensorV<S>>,
            Fault,
        >(inputs),
        vjp::applied::<S, Tensor<S>>((), rule, inputs).1 == Ok::<Seq<TensorV<S>>, Fault>(parts),
    ensures
        support::carries(v, parts, support::operands(e, eqn.prim), w, e[eqn.out.name]),
{
    match eqn.prim {
        PrimV::Un(op, a) => {
            lemma_unary_weight(v, e, b, p, eqn, w, rule, inputs, parts, op, a);
        },
        PrimV::Bin(op, a1, a2) => {
            lemma_binary_weight(v, e, b, p, eqn, w, rule, inputs, parts, op, a1, a2);
        },
        PrimV::Select(q, a1, a2) => {
            lemma_select_weight(v, e, b, p, eqn, w, rule, inputs, parts, q, a1, a2);
        },
    }
}

/// The program of an equation whose relaxation is sound carries weights.
pub proof fn lemma_equation_carries<S: Scalar>(
    v: spec_fn(S) -> real,
    e: Map<Seq<char>, TensorV<S>>,
    b: Map<Seq<char>, IBPV<S>>,
    p: ParamsV<S, TensorV<S>>,
    input: Seq<char>,
    eqns: Seq<EqnV<S>>,
    j: int,
)
    requires
        exact::exact(v),
        0 <= j < eqns.len(),
        support::solved(e, input, eqns, j),
        operands_inside(v, e, b, eqns[j].prim),
        relaxes(v, e, b, p, eqns[j]),
    ensures
        support::eqn_carries(v, e, b, p, eqns[j]),
{
    let eqn = eqns[j];
    let y = e[eqn.out.name];
    let xs = support::operands(e, eqn.prim);
    assert forall|w: TensorV<S>|
        #![trigger crown::crown_inputs::<S, Tensor<S>>(eqn.prim, eqn.out, w, p)]
        support::weighable(w) && w.shape == y.shape implies match (
        crown::crown_rule(eqn.prim, eqn.out, w.shape, b, p),
        crown::crown_inputs::<S, Tensor<S>>(eqn.prim, eqn.out, w, p),
    ) {
        (Ok(rule), Ok(inputs)) => vjp::applied::<S, Tensor<S>>((), rule, inputs).1 matches Ok(parts)
            ==> support::carries(v, parts, xs, w, y),
        _ => true,
    } by {
        let r = crown::crown_rule(eqn.prim, eqn.out, w.shape, b, p);
        let i = crown::crown_inputs::<S, Tensor<S>>(eqn.prim, eqn.out, w, p);
        if r is Ok && i is Ok {
            let q = vjp::applied::<S, Tensor<S>>((), r->Ok_0, i->Ok_0).1;
            if q is Ok {
                lemma_weight_carries(v, e, b, p, eqn, w, r->Ok_0, i->Ok_0, q->Ok_0);
            }
        }
    }
}

// ---- whole graphs ----
/// Whether the equations of a graph with one input come in order: every variable has a name of
/// its own, and the operands of an equation are constants or variables before its result.
pub open spec fn ordered<S: Scalar>(input: AtomV<S>, eqns: Seq<EqnV<S>>) -> bool {
    &&& input.value is None
    &&& support::distinct(input.name, eqns)
    &&& forall|j: int| 0 <= j < eqns.len() ==> (#[trigger] eqns[j]).out.value is None
    &&& forall|j: int, i: int|
        0 <= j < eqns.len() && 0 <= i < nn::operands_of(eqns[j].prim).len() ==> support::in_scope(
            input.name,
            eqns,
            #[trigger] nn::operands_of(eqns[j].prim)[i],
            j,
        )
}

/// Whether the atoms of a graph stand for tensors of the shapes that they declare.
pub open spec fn all_shaped<S: Scalar>(
    e: Map<Seq<char>, TensorV<S>>,
    input: AtomV<S>,
    eqns: Seq<EqnV<S>>,
) -> bool {
    &&& support::shaped(e, input)
    &&& forall|j: int| 0 <= j < eqns.len() ==> support::shaped(e, (#[trigger] eqns[j]).out)
    &&& forall|j: int, i: int|
        0 <= j < eqns.len() && 0 <= i < nn::operands_of(eqns[j].prim).len() ==> support::shaped(
            e,
            #[trigger] nn::operands_of(eqns[j].prim)[i],
        )
}

/// Later equations do not change a variable that is none of their results.
pub(crate) proof fn lemma_forward_keeps<S: Scalar>(
    eqns: Seq<EqnV<S>>,
    e: Map<Seq<char>, TensorV<S>>,
    i: nat,
    x: Seq<char>,
)
    requires
        i <= eqns.len(),
        eval::forward::<S, Tensor<S>>((), eqns, e, i).1 is Ok,
        forall|j: int| i <= j < eqns.len() ==> (#[trigger] eqns[j]).out.name != x,
    ensures
        ({
            let f = eval::forward::<S, Tensor<S>>((), eqns, e, i).1->Ok_0;
            f.dom().contains(x) == e.dom().contains(x) && (e.dom().contains(x) ==> f[x] == e[x])
        }),
    decreases eqns.len() - i,
{
    if i < eqns.len() {
        let value = eval::prim_value::<S, Tensor<S>>((), e, eqns[i as int].prim).1->Ok_0;
        assert(eqns[i as int].out.name != x);
        lemma_forward_keeps(eqns, e.insert(eqns[i as int].out.name, value), i + 1, x);
    }
}

/// An operand that is in scope stands for the same tensor after all later equations.
pub proof fn lemma_operand_kept<S: Scalar>(
    input: Seq<char>,
    eqns: Seq<EqnV<S>>,
    e: Map<Seq<char>, TensorV<S>>,
    i: nat,
    a: AtomV<S>,
)
    requires
        i <= eqns.len(),
        support::distinct(input, eqns),
        support::in_scope(input, eqns, a, i as int),
        eval::forward::<S, Tensor<S>>((), eqns, e, i).1 is Ok,
    ensures
        env::resolved::<S, Tensor<S>>(eval::forward::<S, Tensor<S>>((), eqns, e, i).1->Ok_0, a)
            == env::resolved::<S, Tensor<S>>(e, a),
{
    if a.value is None {
        let m = choose|m: int|
            0 <= m <= i && #[trigger] support::variable(input, eqns, m) == a.name;
        assert forall|j: int| i <= j < eqns.len() implies (#[trigger] eqns[j]).out.name
            != a.name by {
            assert(support::variable(input, eqns, m) != support::variable(input, eqns, j + 1));
        }
        lemma_forward_keeps(eqns, e, i, a.name);
    }
}

/// An operation gives the same result in environments that agree on its operands.
proof fn lemma_same_operands<S: Scalar>(
    e: Map<Seq<char>, TensorV<S>>,
    f: Map<Seq<char>, TensorV<S>>,
    p: PrimV<S>,
)
    requires
        forall|m: int|
            0 <= m < nn::operands_of(p).len() ==> env::resolved::<S, Tensor<S>>(
                f,
                #[trigger] nn::operands_of(p)[m],
            ) == env::resolved::<S, Tensor<S>>(e, nn::operands_of(p)[m]),
    ensures
        eval::prim_value::<S, Tensor<S>>((), f, p) == eval::prim_value::<S, Tensor<S>>((), e, p),
{
    let atoms = nn::operands_of(p);
    match p {
        PrimV::Un(_, a) => {
            assert(atoms[0] == a);
        },
        PrimV::Bin(_, a, b) => {
            assert(atoms[0] == a && atoms[1] == b);
        },
        PrimV::Select(q, a, b) => {
            assert(atoms[0] == q && atoms[1] == a && atoms[2] == b);
        },
    }
}

/// After the evaluation of a graph in order, every equation from number `i` on holds.
proof fn lemma_forward_solves<S: Scalar>(
    input: AtomV<S>,
    eqns: Seq<EqnV<S>>,
    e: Map<Seq<char>, TensorV<S>>,
    i: nat,
)
    requires
        i <= eqns.len(),
        ordered(input, eqns),
        eval::forward::<S, Tensor<S>>((), eqns, e, i).1 is Ok,
    ensures
        ({
            let f = eval::forward::<S, Tensor<S>>((), eqns, e, i).1->Ok_0;
            forall|j: int|
                i <= j < eqns.len() ==> eval::prim_value::<S, Tensor<S>>(
                    (),
                    f,
                    (#[trigger] eqns[j]).prim,
                ).1 == Ok::<TensorV<S>, Fault>(f[eqns[j].out.name])
        }),
    decreases eqns.len() - i,
{
    if i < eqns.len() {
        let eqn = eqns[i as int];
        let f = eval::forward::<S, Tensor<S>>((), eqns, e, i).1->Ok_0;
        let value = eval::prim_value::<S, Tensor<S>>((), e, eqn.prim).1->Ok_0;
        let next = e.insert(eqn.out.name, value);
        lemma_forward_solves(input, eqns, next, i + 1);
        let atoms = nn::operands_of(eqn.prim);
        assert forall|m: int| 0 <= m < atoms.len() implies env::resolved::<S, Tensor<S>>(
            f,
            #[trigger] atoms[m],
        ) == env::resolved::<S, Tensor<S>>(e, atoms[m]) by {
            assert(support::in_scope(input.name, eqns, nn::operands_of(eqns[i as int].prim)[m], i as int));
            lemma_operand_kept(input.name, eqns, e, i, atoms[m]);
        }
        lemma_same_operands(e, f, eqn.prim);
        assert forall|j: int| i + 1 <= j < eqns.len() implies (#[trigger] eqns[j]).out.name
            != eqn.out.name by {
            assert(support::variable(input.name, eqns, (i + 1) as int) != support::variable(
                input.name,
                eqns,
                j + 1,
            ));
        }
        lemma_forward_keeps(eqns, next, i + 1, eqn.out.name);
    }
}

/// The environment that the evaluation of a graph on one input leaves solves the graph.
pub proof fn lemma_evaluation_solves<S: Scalar>(
    g: GraphV<S>,
    x: TensorV<S>,
    e: Map<Seq<char>, TensorV<S>>,
)
    requires
        g.invars.len() == 1,
        ordered(g.invars[0], g.equations),
        eval::environment::<S, Tensor<S>>((), g, seq![x]).1 == Ok::<
            Map<Seq<char>, TensorV<S>>,
            Fault,
        >(e),
        all_shaped(e, g.invars[0], g.equations),
    ensures
        support::solves(e, g.invars[0], g.equations),
        e[g.invars[0].name] == x,
{
    let (input, eqns) = (g.invars[0], g.equations);
    let given = eval::bound(g.invars, seq![x], 1);
    reveal_with_fuel(eval::bound, 2);
    assert(given == Map::<Seq<char>, TensorV<S>>::empty().insert(input.name, x));
    lemma_forward_solves(input, eqns, given, 0);
    assert forall|j: int| 0 <= j < eqns.len() implies #[trigger] support::solved(
        e,
        input.name,
        eqns,
        j,
    ) by {
        assert(support::shaped(e, eqns[j].out));
    }
    assert forall|j: int| 0 <= j < eqns.len() implies (#[trigger] eqns[j]).out.name
        != input.name by {
        assert(support::variable(input.name, eqns, 0) != support::variable(
            input.name,
            eqns,
            j + 1,
        ));
    }
    lemma_forward_keeps(eqns, given, 0, input.name);
}

/// The affine function that the walk computes lies below the variable that the walk started from:
/// evaluate a graph on an input such that all operands lie in the given bounds; then the affine
/// function at that input does not exceed the sum of the elements of that variable.
pub proof fn lemma_crown_sound<S: Scalar>(
    v: spec_fn(S) -> real,
    g: GraphV<S>,
    x: TensorV<S>,
    e: Map<Seq<char>, TensorV<S>>,
    b: Map<Seq<char>, IBPV<S>>,
    p: ParamsV<S, TensorV<S>>,
    start: StartV,
)
    requires
        exact::exact(v),
        g.invars.len() == 1,
        ordered(g.invars[0], g.equations),
        eval::environment::<S, Tensor<S>>((), g, seq![x]).1 == Ok::<
            Map<Seq<char>, TensorV<S>>,
            Fault,
        >(e),
        all_shaped(e, g.invars[0], g.equations),
        crown::start_of(g, start) matches Some((out, k)) ==> {
            &&& out.value is None
            &&& support::shaped(e, out)
            &&& support::in_scope(g.invars[0].name, g.equations, out, k as int)
        },
        forall|j: int|
            0 <= j < g.equations.len() ==> operands_inside(v, e, b, (#[trigger] g.equations[j]).prim),
        forall|j: int|
            0 <= j < g.equations.len() ==> relaxes(v, e, b, p, #[trigger] g.equations[j]),
        crown::lower_bound::<S, Tensor<S>>((), g, b, p, start).1 is Ok,
    ensures
        ({
            let bound = crown::lower_bound::<S, Tensor<S>>((), g, b, p, start).1->Ok_0.0;
            let out = (crown::start_of(g, start)->Some_0).0;
            &&& bound.weights.shape == x.shape
            &&& support::weighable(bound.weights)
            &&& pairing::is_scalar(bound.biases)
            &&& pairing::pairing(v, bound.weights, x) + v(bound.biases.data[0]) <= support::total(
                v,
                e[out.name],
            )
        }),
{
    let eqns = g.equations;
    lemma_evaluation_solves(g, x, e);
    assert forall|j: int| 0 <= j < eqns.len() implies support::eqn_carries(
        v,
        e,
        b,
        p,
        #[trigger] eqns[j],
    ) by {
        assert(support::solved(e, g.invars[0].name, eqns, j));
        lemma_equation_carries(v, e, b, p, g.invars[0].name, eqns, j);
    }
    support::lemma_walk_sound(v, g, e, b, p, start);
}

// ---- boxes ----
/// What a weight makes of the end of an interval that it meets.
proof fn lemma_met_end(w: real, l: real, u: real, x: real, p: real, q: real)
    requires
        l <= x <= u,
        p == (if w <= 0real {
            0real
        } else {
            w
        }),
        q == w + -p,
    ensures
        p * l + q * u <= w * x,
{
    exact::lemma_units(l, u);
    exact::lemma_units(u, l);
    if w <= 0real {
        exact::lemma_scale_ge(w, x, u);
    } else {
        exact::lemma_scale_le(w, l, x);
    }
}

/// What the program of the least value of an affine function computes.
#[verifier::rlimit(60)]
proof fn lemma_concretized<S: Scalar>(
    v: spec_fn(S) -> real,
    a: affine::AffineV<TensorV<S>>,
    lb: TensorV<S>,
    ub: TensorV<S>,
) -> (all: Seq<TensorV<S>>)
    requires
        exact::exact(v),
        pairing::sizable(a.weights),
        pairing::is_scalar(a.biases),
        reals::full(lb),
        reals::full(ub),
        lb.shape == a.weights.shape,
        ub.shape == a.weights.shape,
        affine::concretized::<S, Tensor<S>>((), a, lb, ub).1 is Ok,
    ensures
        ({
            let r = affine::concretized::<S, Tensor<S>>((), a, lb, ub).1->Ok_0;
            let n = a.weights.data.len();
            let (p, q) = (all[3], all[6]);
            &&& pairing::is_scalar(r)
            &&& v(r.data[0]) == v(a.biases.data[0]) + sums::sum(|k: int| v(p.data[k]), n)
                + sums::sum(|k: int| v(q.data[k]), n)
            &&& forall|k: int|
                0 <= k < n ==> v(#[trigger] p.data[k]) == v(all[0].data[k]) * v(lb.data[k])
            &&& forall|k: int|
                0 <= k < n ==> v(#[trigger] q.data[k]) == v(all[2].data[k]) * v(ub.data[k])
            &&& forall|k: int|
                0 <= k < n ==> v(#[trigger] all[0].data[k]) == (if v(a.weights.data[k]) <= 0real {
                    0real
                } else {
                    v(a.weights.data[k])
                })
            &&& forall|k: int|
                0 <= k < n ==> v(#[trigger] all[2].data[k]) == v(a.weights.data[k]) + -v(
                    all[0].data[k],
                )
        }),
{
    let inputs = seq![a.weights, a.biases, lb, ub];
    let steps = affine::concretize_steps::<S>();
    let all = crate::value::run_steps::<S, Tensor<S>>((), steps, inputs).1->Ok_0;
    let w = a.weights;
    pairing::lemma_performed(steps, inputs, all);
    carry::lemma_step(steps, inputs, all, 0);
    pairing::lemma_relu(v, w, all[0]);
    carry::lemma_step(steps, inputs, all, 1);
    pairing::lemma_neg(v, all[0], all[1]);
    carry::lemma_step(steps, inputs, all, 2);
    pairing::lemma_add_same(v, w, all[1], all[2]);
    carry::lemma_step(steps, inputs, all, 3);
    pairing::lemma_mul_same(v, all[0], lb, all[3]);
    carry::lemma_step(steps, inputs, all, 4);
    pairing::lemma_sum_all(v, all[3], all[4]);
    carry::lemma_step(steps, inputs, all, 5);
    pairing::lemma_add_scalars(v, a.biases, all[4], all[5]);
    carry::lemma_step(steps, inputs, all, 6);
    pairing::lemma_mul_same(v, all[2], ub, all[6]);
    carry::lemma_step(steps, inputs, all, 7);
    pairing::lemma_sum_all(v, all[6], all[7]);
    carry::lemma_step(steps, inputs, all, 8);
    pairing::lemma_add_scalars(v, all[5], all[7], all[8]);
    all
}

/// What positive and negative parts of a weight meet at the corner.
proof fn lemma_met_corner(w: real, l: real, u: real, p: real, q: real)
    requires
        p == (if w <= 0real {
            0real
        } else {
            w
        }),
        q == w + -p,
    ensures
        p * l + q * u == w * (if 0real < w {
            l
        } else {
            u
        }),
{
    exact::lemma_units(l, u);
    exact::lemma_units(u, l);
}

/// The corner of a box where an affine function is least attains the least value of the function
/// on the box.
pub proof fn lemma_corner_attains<S: Scalar>(
    v: spec_fn(S) -> real,
    a: affine::AffineV<TensorV<S>>,
    lb: TensorV<S>,
    ub: TensorV<S>,
)
    requires
        exact::exact(v),
        pairing::sizable(a.weights),
        pairing::is_scalar(a.biases),
        reals::full(lb),
        reals::full(ub),
        lb.shape == a.weights.shape,
        ub.shape == a.weights.shape,
        affine::concretized::<S, Tensor<S>>((), a, lb, ub).1 is Ok,
    ensures
        ({
            let r = affine::concretized::<S, Tensor<S>>((), a, lb, ub).1->Ok_0;
            let x = affine::least_corner(a.weights, lb, ub);
            v(r.data[0]) == pairing::pairing(v, a.weights, x) + v(a.biases.data[0])
        }),
{
    let all = lemma_concretized(v, a, lb, ub);
    let (w, p, q) = (a.weights, all[3], all[6]);
    let x = affine::least_corner(w, lb, ub);
    let n = w.data.len();
    let (low, high) = (|k: int| v(p.data[k]), |k: int| v(q.data[k]));
    let both = |k: int| low(k) + high(k);
    let at = |k: int| v(w.data[k]) * v(x.data[k]);
    exact::lemma_numbers(v);
    sums::lemma_sum_plus(low, high, both, n);
    assert forall|k: int| 0 <= k < n implies #[trigger] both(k) == at(k) by {
        lemma_met_corner(
            v(w.data[k]),
            v(lb.data[k]),
            v(ub.data[k]),
            v(all[0].data[k]),
            v(all[2].data[k]),
        );
    }
    sums::lemma_sum_same(both, at, n);
}

/// The least value of an affine function on a box, which is what is reported as a bound, does not
/// exceed its value at any point of the box.
pub proof fn lemma_least_on_box<S: Scalar>(
    v: spec_fn(S) -> real,
    a: affine::AffineV<TensorV<S>>,
    lb: TensorV<S>,
    ub: TensorV<S>,
    x: TensorV<S>,
)
    requires
        exact::exact(v),
        pairing::sizable(a.weights),
        pairing::is_scalar(a.biases),
        a.weights.shape == x.shape,
        containment::below(v, lb, x),
        containment::below(v, x, ub),
        affine::concretized::<S, Tensor<S>>((), a, lb, ub).1 is Ok,
    ensures
        ({
            let r = affine::concretized::<S, Tensor<S>>((), a, lb, ub).1->Ok_0;
            &&& pairing::is_scalar(r)
            &&& v(r.data[0]) <= pairing::pairing(v, a.weights, x) + v(a.biases.data[0])
        }),
{
    let all = lemma_concretized(v, a, lb, ub);
    let (w, p, q) = (a.weights, all[3], all[6]);
    let n = w.data.len();
    let (low, high) = (|k: int| v(p.data[k]), |k: int| v(q.data[k]));
    let both = |k: int| low(k) + high(k);
    let at = |k: int| v(w.data[k]) * v(x.data[k]);
    sums::lemma_sum_plus(low, high, both, n);
    assert forall|k: int| 0 <= k < n implies #[trigger] both(k) <= at(k) by {
        assert(v(lb.data[k]) <= v(x.data[k]));
        assert(v(x.data[k]) <= v(ub.data[k]));
        lemma_met_end(
            v(w.data[k]),
            v(lb.data[k]),
            v(ub.data[k]),
            v(x.data[k]),
            v(all[0].data[k]),
            v(all[2].data[k]),
        );
    }
    sums::lemma_sum_le(both, at, n);
}

} // verus!
