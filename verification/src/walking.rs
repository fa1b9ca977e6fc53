//! Bounds of graphs of layers, curves, products and sums can be had.

use vstd::prelude::*;
use crate::affine;
use crate::carry;
use crate::carry_moves;
use crate::containment;
use crate::crown;
use crate::crown::{ParamsV, StartV, WalkV};
use crate::env;
use crate::eval;
use crate::exact;
use crate::interval;
use crate::interval::{IBPTensor, IBPV};
use crate::layer_success;
use crate::layer_walk;
use crate::layer_walk::{fills, point};
use crate::layered;
use crate::lines;
use crate::lines::Curve;
use crate::model;
use crate::model::{BinOpV, Fault, TensorV, UnOpV};
use crate::nn;
use crate::nn::{AtomV, EqnV, GraphV, PrimV};
use crate::node_verdicts;
use crate::pairing;
use crate::reals;
use crate::scalar;
use crate::scalar::Scalar;
use crate::shape;
use crate::shaping;
use crate::shaping::Shaped;
use crate::soundness;
use crate::support;
use crate::tensor::Tensor;
use crate::value::{Reg, StepV};
use crate::vjp;
use crate::vjp::RuleV;

verus! {

// ---- graphs ----
/// Whether an operation can be walked through, with a result of the given shape: a negation, an
/// activation, a curve, a sum along axes that are named once, a sum or a product that is
/// broadcast, or a contraction of numbers, vectors and matrices.
pub open spec fn walkable_step<S>(p: PrimV<S>, out: Seq<usize>) -> bool {
    match p {
        PrimV::Un(op, a) => match op {
            UnOpV::Neg
            | UnOpV::Relu
            | UnOpV::LeakyRelu(_)
            | UnOpV::Elu(_)
            | UnOpV::Gelu
            | UnOpV::Reciprocal
            | UnOpV::Square
            | UnOpV::Sqrt
            | UnOpV::Exp
            | UnOpV::NormalCdf => out == a.shape,
            UnOpV::ReduceSum(axes) => {
                let n = a.shape.len();
                &&& model::axes_ok(axes, n as int)
                &&& carry_moves::named_once(axes, n as int)
                &&& out == model::drop_axes(a.shape, axes, n as int, n)
            },
            _ => false,
        },
        PrimV::Bin(op, a, b) => match op {
            BinOpV::Add | BinOpV::Mul => shape::broadcast(a.shape, b.shape) == Some(out),
            BinOpV::Dot => {
                &&& a.shape.len() <= 2
                &&& b.shape.len() <= 2
                &&& model::dot_shape(a.shape, b.shape) == Ok::<Seq<usize>, Fault>(out)
            },
            _ => false,
        },
        _ => false,
    }
}

/// Whether equation `j` can be walked through: its operands and its result are declared.
pub open spec fn walkable_eqn<S>(input: AtomV<S>, eqns: Seq<EqnV<S>>, j: int) -> bool {
    let (p, out) = (eqns[j].prim, eqns[j].out);
    &&& out.value is None
    &&& layered::well_shaped(out)
    &&& walkable_step(p, out.shape)
    &&& forall|i: int|
        0 <= i < nn::operands_of(p).len() ==> layered::well_shaped(
            #[trigger] nn::operands_of(p)[i],
        ) && layered::declared(input, eqns, nn::operands_of(p)[i], j)
}

/// Whether a graph with one input and one output can be walked through.
pub open spec fn walkable<S>(g: GraphV<S>) -> bool {
    let eqns = g.equations;
    &&& g.invars.len() == 1
    &&& g.outvars.len() == 1
    &&& eqns.len() > 0
    &&& g.outvars[0] == eqns[eqns.len() - 1].out
    &&& g.invars[0].value is None
    &&& layered::well_shaped(g.invars[0])
    &&& support::distinct(g.invars[0].name, eqns)
    &&& forall|j: int| 0 <= j < eqns.len() ==> #[trigger] walkable_eqn(g.invars[0], eqns, j)
}

/// Whether a curve among the operations can be relaxed on the bounds of its operand.
pub open spec fn in_domain<S: Scalar>(e: Map<Seq<char>, IBPV<S>>, p: PrimV<S>) -> bool {
    p matches PrimV::Un(op, a) ==> (crown::curve_of(op) matches Some(f) ==> (crown::bounds_of(e, a)
        matches Ok(x) ==> affine::all_relaxable(f, x)))
}

/// Whether every activation has slopes.
pub open spec fn all_sloped<S>(eqns: Seq<EqnV<S>>, p: Map<Seq<char>, TensorV<S>>) -> bool {
    forall|j: int|
        0 <= j < eqns.len() && nn::is_activation((#[trigger] eqns[j]).prim) ==> p.dom().contains(
            eqns[j].out.name,
        ) && fills(p[eqns[j].out.name], eqns[j].out.shape)
}

/// Networks of layers can be walked through.
pub proof fn lemma_layers_walkable<S>(g: GraphV<S>)
    requires
        layered::layered(g),
    ensures
        walkable(g),
{
    let eqns = g.equations;
    assert forall|j: int| 0 <= j < eqns.len() implies #[trigger] walkable_eqn(
        g.invars[0],
        eqns,
        j,
    ) by {
        assert(layered::layer_eqn(g.invars[0], eqns, j));
    }
}

// ---- programs ----
/// A program with a weight and a bias for one operand.
proof fn lemma_one_operand<S: Scalar>(
    rule: RuleV<S>,
    ins: Seq<TensorV<S>>,
    si: Seq<Seq<usize>>,
    ss: Seq<Seq<usize>>,
    a: AtomV<S>,
    i: nat,
    j: nat,
)
    requires
        shaping::shaped_by(rule.steps, si, ss),
        layer_success::rooms(rule.steps, ss),
        shaping::all_ok::<S, Tensor<S>>((), ins, si),
        i < ss.len() <= usize::MAX,
        j < ss.len(),
        rule.outs == seq![Reg::Out(i as usize), Reg::Out(j as usize)],
        ss[i as int] == a.shape,
        a.shape.len() <= isize::MAX,
        ss[j as int] == point(),
    ensures
        vjp::applied::<S, Tensor<S>>((), rule, ins).1 matches Ok(parts) && layer_walk::parts_ok::<
            S,
            Tensor<S>,
        >((), parts, seq![a]),
{
    layer_success::lemma_applied_succeeds(rule, ins, si, ss);
    shaping::lemma_applied_shapes::<S, Tensor<S>>((), rule, ins, si, ss);
    assert(shaping::out_shapes(rule.outs, si, ss) =~= seq![a.shape, point()]);
    pairing::lemma_same_shape(a.shape);
    let parts = vjp::applied::<S, Tensor<S>>((), rule, ins).1->Ok_0;
    assert(<Tensor<S> as Shaped<S>>::ok((), parts[0]) && <Tensor<S> as Shaped<S>>::ok((), parts[1]));
    assert(layer_walk::part_ok::<S, Tensor<S>>((), parts, seq![a], 0));
}

/// The shapes of the results of the program of a curve.
pub open spec fn curve_shapes(s: Seq<usize>) -> Seq<Seq<usize>> {
    let z = point();
    seq![s, s, s, s, s, s, s, s, s, s, s, z, s, z, z]
}

/// The coefficients of lines have the shape of the interval.
proof fn lemma_line_tensor<S: Scalar>(
    f: Curve<S>,
    x: IBPV<S>,
    part: spec_fn(lines::Lines<S>) -> S,
)
    requires
        layered::spans(x, x.lb.shape),
        support::dense(x.lb.shape),
    ensures
        fills(affine::line_tensor(f, x, part), x.lb.shape),
{
}

/// The program of a curve.
#[verifier::spinoff_prover]
#[verifier::rlimit(60)]
proof fn lemma_curve_program<S: Scalar>(
    f: Curve<S>,
    x: IBPV<S>,
    rule: RuleV<S>,
    si: Seq<Seq<usize>>,
)
    requires
        si.len() >= 1,
        si[0] == x.lb.shape,
        layered::spans(x, x.lb.shape),
        support::dense(x.lb.shape),
        x.lb.shape.len() <= isize::MAX,
        affine::convex_rule(f, x) == Ok::<RuleV<S>, Fault>(rule),
    ensures
        shaping::shaped_by(rule.steps, si, curve_shapes(x.lb.shape)),
        rule.outs == seq![Reg::Out(9), Reg::Out(14)],
{
    reveal(affine::convex_rule);
    let s = x.lb.shape;
    let steps = rule.steps;
    let ss = curve_shapes(s);
    layer_walk::lemma_meets(s);
    lemma_line_tensor(f, x, |n: lines::Lines<S>| n.ls);
    lemma_line_tensor(f, x, |n: lines::Lines<S>| n.lo);
    lemma_line_tensor(f, x, |n: lines::Lines<S>| n.us);
    lemma_line_tensor(f, x, |n: lines::Lines<S>| n.uo);
    assert(shaping::step_shaped(steps, si, ss, 0));
    assert(shaping::step_shaped(steps, si, ss, 1));
    assert(shaping::step_shaped(steps, si, ss, 2));
    assert(shaping::step_shaped(steps, si, ss, 3));
    assert(shaping::step_shaped(steps, si, ss, 4));
    assert(shaping::step_shaped(steps, si, ss, 5));
    assert(shaping::step_shaped(steps, si, ss, 6));
    assert(shaping::step_shaped(steps, si, ss, 7));
    assert(shaping::step_shaped(steps, si, ss, 8));
    assert(shaping::step_shaped(steps, si, ss, 9));
    assert(shaping::step_shaped(steps, si, ss, 10));
    assert(shaping::step_shaped(steps, si, ss, 11));
    assert(shaping::step_shaped(steps, si, ss, 12));
    assert(shaping::step_shaped(steps, si, ss, 13));
    assert(shaping::step_shaped(steps, si, ss, 14));
    assert forall|i: int| 0 <= i < 15 implies #[trigger] shaping::step_shaped(steps, si, ss, i) by {
        if i == 0 {
            assert(shaping::step_shaped(steps, si, ss, 0));
        } else if i == 1 {
            assert(shaping::step_shaped(steps, si, ss, 1));
        } else if i == 2 {
            assert(shaping::step_shaped(steps, si, ss, 2));
        } else if i == 3 {
            assert(shaping::step_shaped(steps, si, ss, 3));
        } else if i == 4 {
            assert(shaping::step_shaped(steps, si, ss, 4));
        } else if i == 5 {
            assert(shaping::step_shaped(steps, si, ss, 5));
        } else if i == 6 {
            assert(shaping::step_shaped(steps, si, ss, 6));
        } else if i == 7 {
            assert(shaping::step_shaped(steps, si, ss, 7));
        } else if i == 8 {
            assert(shaping::step_shaped(steps, si, ss, 8));
        } else if i == 9 {
            assert(shaping::step_shaped(steps, si, ss, 9));
        } else if i == 10 {
            assert(shaping::step_shaped(steps, si, ss, 10));
        } else if i == 11 {
            assert(shaping::step_shaped(steps, si, ss, 11));
        } else if i == 12 {
            assert(shaping::step_shaped(steps, si, ss, 12));
        } else if i == 13 {
            assert(shaping::step_shaped(steps, si, ss, 13));
        } else if i == 14 {
            assert(shaping::step_shaped(steps, si, ss, 14));
        }
    }
}

/// The program of a curve succeeds where the curve can be relaxed.
proof fn lemma_curve_succeeds<S: Scalar>(
    f: Curve<S>,
    x: IBPV<S>,
    ins: Seq<TensorV<S>>,
    si: Seq<Seq<usize>>,
    a: AtomV<S>,
)
    requires
        layered::well_shaped(a),
        layered::spans(x, a.shape),
        affine::all_relaxable(f, x),
        shaping::all_ok::<S, Tensor<S>>((), ins, si),
        si.len() >= 1,
        si[0] == a.shape,
    ensures
        affine::convex_rule(f, x) matches Ok(rule) && (vjp::applied::<S, Tensor<S>>(
            (),
            rule,
            ins,
        ).1 matches Ok(parts) && layer_walk::parts_ok::<S, Tensor<S>>((), parts, seq![a])),
{
    reveal(affine::convex_rule);
    let rule = affine::convex_rule(f, x)->Ok_0;
    let ss = curve_shapes(a.shape);
    lemma_curve_program(f, x, rule, si);
    layer_walk::lemma_point_fits();
    assert forall|i: int| 0 <= i < ss.len() implies shape::fits(#[trigger] ss[i]) by {
        if i == 11 || i == 13 || i == 14 {
            assert(ss[i] == point());
        } else {
            assert(ss[i] == a.shape);
        }
    }
    layer_success::lemma_rooms(rule.steps, ss);
    lemma_one_operand(rule, ins, si, ss, a, 9, 14);
}

/// The program of a rectifier succeeds: its weight has the shape of the operand.
pub proof fn lemma_rectifier_succeeds<S: Scalar>(
    slope: S,
    x: IBPV<S>,
    ins: Seq<TensorV<S>>,
    a: AtomV<S>,
)
    requires
        layered::well_shaped(a),
        layered::spans(x, a.shape),
        ins.len() == 2,
        fills(ins[0], a.shape),
        fills(ins[1], a.shape),
    ensures
        vjp::applied::<S, Tensor<S>>((), affine::relu_rule(slope, x), ins).1 matches Ok(parts)
            && layer_walk::parts_ok::<S, Tensor<S>>((), parts, seq![a]),
{
    let s = a.shape;
    let rule = affine::relu_rule(slope, x);
    assert(rule.outs == seq![Reg::Out(14), Reg::Out(16)] && rule.steps.len() == 17) by {
        reveal(affine::relu_rule);
    }
    let (si, ss) = (seq![s, s], layer_walk::relu_shapes(s));
    layer_walk::lemma_relu_program(slope, x, si);
    layer_walk::lemma_relu_fit(s);
    assert(shaping::all_ok::<S, Tensor<S>>((), ins, si));
    layer_success::lemma_rooms(rule.steps, ss);
    lemma_one_operand(rule, ins, si, ss, a, 14, 16);
}

/// The program of a sum along axes succeeds.
proof fn lemma_reduce_succeeds<S: Scalar>(axes: Seq<isize>, a: AtomV<S>, w: TensorV<S>)
    requires
        layered::well_shaped(a),
        fills(w, w.shape),
        walkable_step(PrimV::Un(UnOpV::ReduceSum(axes), a), w.shape),
    ensures
        ({
            let rule = crown::without_bias(
                vjp::moving_rule(UnOpV::<S>::ReduceSum(axes), w.shape, a.shape),
            );
            rule matches Ok(r) && (vjp::applied::<S, Tensor<S>>((), r, seq![w]).1 matches Ok(parts)
                && layer_walk::parts_ok::<S, Tensor<S>>((), parts, seq![a]))
        }),
{
    let s = a.shape;
    let rule = crown::without_bias(
        vjp::moving_rule(UnOpV::<S>::ReduceSum(axes), w.shape, s),
    )->Ok_0;
    let steps = rule.steps;
    let q = carry_moves::flattened(s, axes, 0);
    let (si, ss) = (seq![w.shape], seq![q, s, s, point()]);
    carry_moves::lemma_put_back::<S>(s, axes);
    assert(model::drop_axes(s, axes, s.len() as int, s.len()).len() + axes.len() == s.len()) by {
        carry_moves::lemma_drop_all(s, axes);
        carry_moves::lemma_kept::<S>(s, axes, s.len() as int, s.len(), 0);
    }
    assert(shape::expands_to(q, s));
    pairing::lemma_expands_broadcast(q, s);
    layer_walk::lemma_meets(s);
    layer_walk::lemma_point_fits();
    assert(steps[0] == StepV::<S>::Un(UnOpV::ExpandDims(axes), Reg::In(0)));
    assert(steps[1] == vjp::load_zeros::<S>(s));
    assert(steps[2] == StepV::<S>::Bin(BinOpV::Add, Reg::Out(0), Reg::Out(1)));
    assert(steps[3] == vjp::load_number(scalar::zero::<S>()));
    assert(shaping::step_shaped(steps, si, ss, 0));
    assert(shaping::step_shaped(steps, si, ss, 1));
    assert(shaping::step_shaped(steps, si, ss, 2));
    assert(shaping::step_shaped(steps, si, ss, 3));
    assert forall|i: int| 0 <= i < 4 implies #[trigger] shaping::step_shaped(steps, si, ss, i) by {
        if i == 0 {
            assert(shaping::step_shaped(steps, si, ss, 0));
        } else if i == 1 {
            assert(shaping::step_shaped(steps, si, ss, 1));
        } else if i == 2 {
            assert(shaping::step_shaped(steps, si, ss, 2));
        } else if i == 3 {
            assert(shaping::step_shaped(steps, si, ss, 3));
        }
    }
    assert(layer_success::rooms(steps, ss)) by {
        assert forall|i: int|
            0 <= i < steps.len() && ((#[trigger] steps[i]) is Bin || steps[i]
                is Select) implies shape::fits(ss[i]) by {
            assert(i == 2);
        }
    }
    assert(shaping::all_ok::<S, Tensor<S>>((), seq![w], si));
    lemma_one_operand(rule, seq![w], si, ss, a, 2, 3);
}

/// The shapes of the results of the program of a product of values of shapes `a` and `b`.
pub open spec fn times_shapes(a: Seq<usize>, b: Seq<usize>, o: Seq<usize>) -> Seq<Seq<usize>> {
    let z = point();
    seq![o, o, o, b, o, b, o, o, a, o, o, o, z, o, o, z, z, z]
}

/// The program of a product.
#[verifier::spinoff_prover]
#[verifier::rlimit(80)]
proof fn lemma_times_program<S: Scalar>(x: IBPV<S>, y: IBPV<S>, rule: RuleV<S>, o: Seq<usize>)
    requires
        layered::spans(x, x.lb.shape),
        layered::spans(y, y.lb.shape),
        support::dense(x.lb.shape),
        support::dense(y.lb.shape),
        support::dense(o),
        o.len() <= isize::MAX,
        shape::broadcast(x.lb.shape, y.lb.shape) == Some(o),
        affine::mul_rule(x, y) == Ok::<RuleV<S>, Fault>(rule),
    ensures
        shaping::shaped_by(rule.steps, seq![o], times_shapes(x.lb.shape, y.lb.shape, o)),
        rule.outs == seq![Reg::Out(7), Reg::Out(16), Reg::Out(9), Reg::Out(17)],
{
    reveal(affine::mul_rule);
    let (a, b) = (x.lb.shape, y.lb.shape);
    let steps = rule.steps;
    let (si, ss) = (seq![o], times_shapes(a, b, o));
    layer_walk::lemma_meets(o);
    layer_walk::lemma_meets(a);
    shape::lemma_broadcast_expands(a, b);
    pairing::lemma_expands_broadcast(a, o);
    pairing::lemma_expands_broadcast(b, o);
    let (low, high) = (affine::minus_product(x.lb, y.lb)->Ok_0, affine::minus_product(
        x.lb,
        y.ub,
    )->Ok_0);
    let n = model::un_tensor(UnOpV::Neg, x.lb)->Ok_0;
    Tensor::<S>::law_binary((), BinOpV::Mul, n, y.lb);
    Tensor::<S>::law_binary((), BinOpV::Mul, n, y.ub);
    assert(fills(low, o) && fills(high, o));
    assert(shaping::step_shaped(steps, si, ss, 0));
    assert(shaping::step_shaped(steps, si, ss, 1));
    assert(shaping::step_shaped(steps, si, ss, 2));
    assert(shaping::step_shaped(steps, si, ss, 3));
    assert(shaping::step_shaped(steps, si, ss, 4));
    assert(shaping::step_shaped(steps, si, ss, 5));
    assert(shaping::step_shaped(steps, si, ss, 6));
    assert(shaping::step_shaped(steps, si, ss, 7));
    assert(shaping::step_shaped(steps, si, ss, 8));
    assert(shaping::step_shaped(steps, si, ss, 9));
    assert(shaping::step_shaped(steps, si, ss, 10));
    assert(shaping::step_shaped(steps, si, ss, 11));
    assert(shaping::step_shaped(steps, si, ss, 12));
    assert(shaping::step_shaped(steps, si, ss, 13));
    assert(shaping::step_shaped(steps, si, ss, 14));
    assert(shaping::step_shaped(steps, si, ss, 15));
    assert(shaping::step_shaped(steps, si, ss, 16));
    assert(shaping::step_shaped(steps, si, ss, 17));
    assert forall|i: int| 0 <= i < 18 implies #[trigger] shaping::step_shaped(steps, si, ss, i) by {
        if i == 0 {
            assert(shaping::step_shaped(steps, si, ss, 0));
        } else if i == 1 {
            assert(shaping::step_shaped(steps, si, ss, 1));
        } else if i == 2 {
            assert(shaping::step_shaped(steps, si, ss, 2));
        } else if i == 3 {
            assert(shaping::step_shaped(steps, si, ss, 3));
        } else if i == 4 {
            assert(shaping::step_shaped(steps, si, ss, 4));
        } else if i == 5 {
            assert(shaping::step_shaped(steps, si, ss, 5));
        } else if i == 6 {
            assert(shaping::step_shaped(steps, si, ss, 6));
        } else if i == 7 {
            assert(shaping::step_shaped(steps, si, ss, 7));
        } else if i == 8 {
            assert(shaping::step_shaped(steps, si, ss, 8));
        } else if i == 9 {
            assert(shaping::step_shaped(steps, si, ss, 9));
        } else if i == 10 {
            assert(shaping::step_shaped(steps, si, ss, 10));
        } else if i == 11 {
            assert(shaping::step_shaped(steps, si, ss, 11));
        } else if i == 12 {
            assert(shaping::step_shaped(steps, si, ss, 12));
        } else if i == 13 {
            assert(shaping::step_shaped(steps, si, ss, 13));
        } else if i == 14 {
            assert(shaping::step_shaped(steps, si, ss, 14));
        } else if i == 15 {
            assert(shaping::step_shaped(steps, si, ss, 15));
        } else if i == 16 {
            assert(shaping::step_shaped(steps, si, ss, 16));
        } else if i == 17 {
            assert(shaping::step_shaped(steps, si, ss, 17));
        }
    }
}

/// The program of a product succeeds: both weights have the shape of the result.
#[verifier::spinoff_prover]
#[verifier::rlimit(80)]
pub proof fn lemma_times_succeeds<S: Scalar>(
    x: IBPV<S>,
    y: IBPV<S>,
    a: AtomV<S>,
    b: AtomV<S>,
    w: TensorV<S>,
)
    requires
        layered::well_shaped(a),
        layered::well_shaped(b),
        layered::spans(x, a.shape),
        layered::spans(y, b.shape),
        fills(w, w.shape),
        shape::fits(w.shape),
        shape::broadcast(a.shape, b.shape) == Some(w.shape),
    ensures
        affine::mul_rule(x, y) matches Ok(rule) && (vjp::applied::<S, Tensor<S>>(
            (),
            rule,
            seq![w],
        ).1 matches Ok(parts) && layer_walk::parts_ok::<S, Tensor<S>>((), parts, seq![a, b])),
{
    let o = w.shape;
    assert(affine::mul_rule(x, y) is Ok) by {
        reveal(affine::mul_rule);
    }
    let rule = affine::mul_rule(x, y)->Ok_0;
    let (ins, si, ss) = (seq![w], seq![o], times_shapes(a.shape, b.shape, o));
    lemma_times_program(x, y, rule, o);
    layer_walk::lemma_point_fits();
    assert forall|i: int| 0 <= i < ss.len() implies shape::fits(#[trigger] ss[i]) by {
        if i == 3 || i == 5 {
            assert(ss[i] == b.shape);
        } else if i == 8 {
            assert(ss[i] == a.shape);
        } else if i == 12 || i >= 15 {
            assert(ss[i] == point());
        } else {
            assert(ss[i] == o);
        }
    }
    assert(shaping::all_ok::<S, Tensor<S>>((), ins, si));
    layer_success::lemma_rooms(rule.steps, ss);
    layer_success::lemma_applied_succeeds(rule, ins, si, ss);
    shaping::lemma_applied_shapes::<S, Tensor<S>>((), rule, ins, si, ss);
    assert(shaping::out_shapes(rule.outs, si, ss) =~= seq![o, point(), o, point()]);
    shape::lemma_broadcast_expands(a.shape, b.shape);
    let parts = vjp::applied::<S, Tensor<S>>((), rule, ins).1->Ok_0;
    layer_walk::lemma_two_parts::<S, Tensor<S>>((), parts, a, b, o, o);
}

/// The program of a contraction of numbers, vectors and matrices succeeds, one operand of which may
/// be a number.
pub proof fn lemma_contraction_succeeds<S: Scalar>(
    x: IBPV<S>,
    y: IBPV<S>,
    a: AtomV<S>,
    b: AtomV<S>,
    w: TensorV<S>,
)
    requires
        layered::well_shaped(a),
        layered::well_shaped(b),
        layered::spans(x, a.shape),
        layered::spans(y, b.shape),
        fills(w, w.shape),
        shape::fits(w.shape),
        walkable_step(PrimV::Bin(BinOpV::Dot, a, b), w.shape),
    ensures
        affine::dot_rule(x, y) matches Ok(rule) && (vjp::applied::<S, Tensor<S>>(
            (),
            rule,
            seq![w],
        ).1 matches Ok(parts) && layer_walk::parts_ok::<S, Tensor<S>>((), parts, seq![a, b])),
{
    if a.shape.len() == 0 || b.shape.len() == 0 {
        layer_walk::lemma_meets(a.shape);
        layer_walk::lemma_meets(b.shape);
        if a.shape.len() == 0 {
            assert(a.shape =~= point());
        } else {
            assert(b.shape =~= point());
        }
        lemma_times_succeeds(x, y, a, b, w);
        reveal(affine::dot_rule);
    } else {
        layer_success::lemma_dot_succeeds(x, y, w, w.shape);
        let rule = affine::dot_rule(x, y)->Ok_0;
        let ss = layer_walk::lemma_dot_parts(x, y, rule, w.shape);
        assert(shaping::all_ok::<S, Tensor<S>>((), seq![w], seq![w.shape]));
        shaping::lemma_applied_shapes::<S, Tensor<S>>((), rule, seq![w], seq![w.shape], ss);
        pairing::lemma_same_shape(a.shape);
        pairing::lemma_same_shape(b.shape);
        let parts = vjp::applied::<S, Tensor<S>>((), rule, seq![w]).1->Ok_0;
        layer_walk::lemma_two_parts::<S, Tensor<S>>((), parts, a, b, a.shape, b.shape);
    }
}

// ---- walks ----
/// Whether the program of an operation can be had, and succeeds on a weight.
pub open spec fn passes<S: Scalar>(
    eqn: EqnV<S>,
    w: TensorV<S>,
    e: Map<Seq<char>, IBPV<S>>,
    p: ParamsV<S, TensorV<S>>,
) -> bool {
    let rule = crown::crown_rule(eqn.prim, eqn.out, w.shape, e, p);
    let ins = crown::crown_inputs::<S, Tensor<S>>(eqn.prim, eqn.out, w, p);
    &&& rule is Ok
    &&& ins is Ok
    &&& vjp::applied::<S, Tensor<S>>((), rule->Ok_0, ins->Ok_0).1 matches Ok(parts)
        && layer_walk::parts_ok::<S, Tensor<S>>((), parts, nn::operands_of(eqn.prim))
}

/// The program of an operation on one operand succeeds.
#[verifier::spinoff_prover]
#[verifier::rlimit(60)]
proof fn lemma_unary_passes<S: Scalar>(
    eqn: EqnV<S>,
    op: UnOpV<S>,
    a: AtomV<S>,
    w: TensorV<S>,
    e: Map<Seq<char>, IBPV<S>>,
    p: ParamsV<S, TensorV<S>>,
)
    requires
        eqn.prim == PrimV::Un(op, a),
        eqn.out.value is None,
        walkable_step(eqn.prim, eqn.out.shape),
        layered::well_shaped(a),
        fills(w, eqn.out.shape),
        crown::bounds_of(e, a) matches Ok(x) && layered::spans(x, a.shape),
        in_domain(e, eqn.prim),
        p.splitting is None,
        nn::is_activation(eqn.prim) ==> p.alphas.dom().contains(eqn.out.name) && fills(
            p.alphas[eqn.out.name],
            eqn.out.shape,
        ),
    ensures
        passes(eqn, w, e, p),
{
    let x = crown::bounds_of(e, a)->Ok_0;
    assert(nn::operands_of(eqn.prim) =~= seq![a]);
    match op {
        UnOpV::Neg => {
            let rule = crown::crown_rule(eqn.prim, eqn.out, w.shape, e, p)->Ok_0;
            layer_success::lemma_neg_succeeds(rule, w);
            layer_walk::lemma_neg_parts::<S, Tensor<S>>((), rule, w, a);
        },
        UnOpV::ReduceSum(axes) => {
            lemma_reduce_succeeds(axes, a, w);
        },
        UnOpV::Relu | UnOpV::LeakyRelu(_) | UnOpV::Elu(_) | UnOpV::Gelu => {
            let ins = seq![w, p.alphas[eqn.out.name]];
            assert(crown::crown_inputs::<S, Tensor<S>>(eqn.prim, eqn.out, w, p)->Ok_0 =~= ins);
            let si = seq![a.shape, a.shape];
            assert(shaping::all_ok::<S, Tensor<S>>((), ins, si));
            match op {
                UnOpV::Relu => lemma_rectifier_succeeds(scalar::zero::<S>(), x, ins, a),
                UnOpV::LeakyRelu(slope) => lemma_rectifier_succeeds(slope, x, ins, a),
                UnOpV::Elu(slope) => lemma_curve_succeeds(Curve::Elu(slope), x, ins, si, a),
                _ => lemma_curve_succeeds(Curve::<S>::Gelu, x, ins, si, a),
            }
        },
        _ => {
            let f = crown::curve_of(op)->Some_0;
            assert(shaping::all_ok::<S, Tensor<S>>((), seq![w], seq![a.shape]));
            lemma_curve_succeeds(f, x, seq![w], seq![a.shape], a);
        },
    }
}

/// The program of an operation on two operands succeeds.
proof fn lemma_binary_passes<S: Scalar>(
    eqn: EqnV<S>,
    op: BinOpV,
    a: AtomV<S>,
    b: AtomV<S>,
    w: TensorV<S>,
    e: Map<Seq<char>, IBPV<S>>,
    p: ParamsV<S, TensorV<S>>,
)
    requires
        eqn.prim == PrimV::Bin(op, a, b),
        walkable_step(eqn.prim, eqn.out.shape),
        layered::well_shaped(a),
        layered::well_shaped(b),
        layered::well_shaped(eqn.out),
        fills(w, eqn.out.shape),
        crown::bounds_of(e, a) matches Ok(x) && layered::spans(x, a.shape),
        crown::bounds_of(e, b) matches Ok(y) && layered::spans(y, b.shape),
    ensures
        passes(eqn, w, e, p),
{
    let (x, y) = (crown::bounds_of(e, a)->Ok_0, crown::bounds_of(e, b)->Ok_0);
    assert(nn::operands_of(eqn.prim) =~= seq![a, b]);
    match op {
        BinOpV::Add => {
            let rule = crown::crown_rule(eqn.prim, eqn.out, w.shape, e, p)->Ok_0;
            layer_success::lemma_sum_succeeds(rule, w, a, b);
            assert(shaping::all_ok::<S, Tensor<S>>((), seq![w], seq![w.shape]));
            layer_walk::lemma_sum_parts::<S, Tensor<S>>((), rule, seq![w], w.shape, a, b);
        },
        BinOpV::Mul => lemma_times_succeeds(x, y, a, b, w),
        _ => lemma_contraction_succeeds(x, y, a, b, w),
    }
}

/// The bounds of an operand have its shape.
proof fn lemma_operand_bounds<S: Scalar>(
    e: Map<Seq<char>, IBPV<S>>,
    input: AtomV<S>,
    eqns: Seq<EqnV<S>>,
    a: AtomV<S>,
    j: int,
)
    requires
        layered::spans_hold(e, input, eqns, j),
        layered::well_shaped(a),
        layered::declared(input, eqns, a, j),
    ensures
        crown::bounds_of(e, a) matches Ok(x) && layered::spans(x, a.shape),
{
    if a.value is None {
        let i = choose|i: int|
            0 <= i <= j && #[trigger] support::variable(input.name, eqns, i) == a.name
                && layered::shape_at(input, eqns, i) == a.shape;
        assert(e.dom().contains(support::variable(input.name, eqns, i)));
    }
}

/// A walk through one equation succeeds and leads to weights of the shapes of their variables.
proof fn lemma_stepped_succeeds<S: Scalar>(
    at: WalkV<S, TensorV<S>>,
    g: GraphV<S>,
    e: Map<Seq<char>, IBPV<S>>,
    p: ParamsV<S, TensorV<S>>,
    j: int,
)
    requires
        0 <= j < g.equations.len(),
        walkable(g),
        layered::spans_hold(e, g.invars[0], g.equations, g.equations.len() - 1),
        in_domain(e, g.equations[j].prim),
        layer_walk::walk_ok::<S, Tensor<S>>((), at, g.invars[0], g.equations),
        all_sloped(g.equations, p.alphas),
        p.splitting is None,
    ensures
        crown::stepped::<S, Tensor<S>>((), at, g.equations[j], e, p).1 matches Ok(next)
            && layer_walk::walk_ok::<S, Tensor<S>>((), next, g.invars[0], g.equations),
{
    let (input, eqns) = (g.invars[0], g.equations);
    let eqn = eqns[j];
    let (prim, out) = (eqn.prim, eqn.out);
    assert(walkable_eqn(input, eqns, j));
    if at.weights.dom().contains(out.name) {
        assert(support::variable(input.name, eqns, j + 1) == out.name);
        let w = at.weights[out.name];
        assert(fills(w, out.shape));
        let atoms = nn::operands_of(prim);
        assert(layered::spans_hold(e, input, eqns, j));
        lemma_operand_bounds(e, input, eqns, atoms[0], j);
        match prim {
            PrimV::Un(op, a) => lemma_unary_passes(eqn, op, a, w, e, p),
            PrimV::Bin(op, a, b) => {
                lemma_operand_bounds(e, input, eqns, atoms[1], j);
                lemma_binary_passes(eqn, op, a, b, w, e, p);
            },
            _ => {},
        }
        let rule = crown::crown_rule(prim, out, w.shape, e, p)->Ok_0;
        let ins = crown::crown_inputs::<S, Tensor<S>>(prim, out, w, p)->Ok_0;
        let parts = vjp::applied::<S, Tensor<S>>((), rule, ins).1->Ok_0;
        layer_success::lemma_absorbed_all_succeeds(at, atoms, parts, atoms.len(), input, eqns, j);
        layer_walk::lemma_absorbed_all_ok::<S, Tensor<S>>(
            (),
            at,
            atoms,
            parts,
            atoms.len(),
            input,
            eqns,
            j,
        );
    }
}

/// A walk through the first `k` equations succeeds.
proof fn lemma_walked_succeeds<S: Scalar>(
    at: WalkV<S, TensorV<S>>,
    g: GraphV<S>,
    e: Map<Seq<char>, IBPV<S>>,
    p: ParamsV<S, TensorV<S>>,
    k: nat,
)
    requires
        k <= g.equations.len(),
        walkable(g),
        layered::spans_hold(e, g.invars[0], g.equations, g.equations.len() - 1),
        forall|j: int|
            0 <= j < g.equations.len() ==> in_domain(e, (#[trigger] g.equations[j]).prim),
        layer_walk::walk_ok::<S, Tensor<S>>((), at, g.invars[0], g.equations),
        all_sloped(g.equations, p.alphas),
        p.splitting is None,
    ensures
        crown::walked::<S, Tensor<S>>((), at, g.equations, k, e, p).1 matches Ok(end)
            && layer_walk::walk_ok::<S, Tensor<S>>((), end, g.invars[0], g.equations),
    decreases k,
{
    if k > 0 {
        lemma_stepped_succeeds(at, g, e, p, k - 1);
        let next = crown::stepped::<S, Tensor<S>>((), at, g.equations[k - 1], e, p).1->Ok_0;
        lemma_walked_succeeds(next, g, e, p, (k - 1) as nat);
    }
}

/// The walk through a graph that can be walked through succeeds, where its variables have bounds
/// of their shapes on which its curves can be relaxed, and its activations have slopes: it leads
/// to weights of the shape of the input and to one number.
pub proof fn lemma_walk_succeeds<S: Scalar>(
    g: GraphV<S>,
    e: Map<Seq<char>, IBPV<S>>,
    alphas: Map<Seq<char>, TensorV<S>>,
    start: StartV,
)
    requires
        walkable(g),
        layered::spans_hold(e, g.invars[0], g.equations, g.equations.len() - 1),
        forall|j: int|
            0 <= j < g.equations.len() ==> in_domain(e, (#[trigger] g.equations[j]).prim),
        all_sloped(g.equations, alphas),
        start is Last || start is Output,
    ensures
        crown::lower_bound::<S, Tensor<S>>(
            (),
            g,
            e,
            ParamsV { alphas, splitting: None },
            start,
        ).1 matches Ok((bound, _)) && fills(bound.weights, g.invars[0].shape) && fills(
            bound.biases,
            point(),
        ),
{
    let (input, eqns) = (g.invars[0], g.equations);
    let p = ParamsV::<S, TensorV<S>> { alphas, splitting: None };
    let n = eqns.len() as int;
    let out = eqns[n - 1].out;
    assert(walkable_eqn(input, eqns, n - 1));
    let at = crown::departed::<S, Tensor<S>>(out);
    layer_walk::lemma_meets(out.shape);
    assert(layer_walk::walk_ok::<S, Tensor<S>>((), at, input, eqns)) by {
        assert(support::variable(input.name, eqns, n) == out.name);
        assert forall|i: int|
            #![trigger support::variable(input.name, eqns, i)]
            0 <= i <= n && at.weights.dom().contains(support::variable(input.name, eqns, i)) implies {
            let w = at.weights[support::variable(input.name, eqns, i)];
            <Tensor<S> as Shaped<S>>::ok((), w) && w.shape == layered::shape_at(input, eqns, i)
        } by {
            if i < n {
                assert(support::variable(input.name, eqns, i) != support::variable(
                    input.name,
                    eqns,
                    n,
                ));
            }
        }
    }
    lemma_walked_succeeds(at, g, e, p, eqns.len());
    let end = crown::walked::<S, Tensor<S>>((), at, eqns, eqns.len(), e, p).1->Ok_0;
    assert(support::variable(input.name, eqns, 0) == input.name);
}

/// The walk through a network of layers whose variables have bounds of their shapes, and whose
/// rectifiers have slopes of theirs, succeeds: it leads to weights of the shape of the input.
pub proof fn lemma_layers_walk<S: Scalar>(
    g: GraphV<S>,
    e: Map<Seq<char>, IBPV<S>>,
    alphas: Map<Seq<char>, TensorV<S>>,
    start: StartV,
)
    requires
        layered::layered(g),
        layered::spans_hold(e, g.invars[0], g.equations, g.equations.len() - 1),
        all_sloped(g.equations, alphas),
        start is Last || start is Output,
    ensures
        crown::lower_bound::<S, Tensor<S>>(
            (),
            g,
            e,
            ParamsV { alphas, splitting: None },
            start,
        ).1 matches Ok((bound, _)) && fills(bound.weights, g.invars[0].shape) && fills(
            bound.biases,
            point(),
        ),
{
    lemma_layers_walkable(g);
    assert forall|j: int| 0 <= j < g.equations.len() implies in_domain(
        e,
        (#[trigger] g.equations[j]).prim,
    ) by {
        assert(layered::layer_eqn(g.invars[0], g.equations, j));
    }
    lemma_walk_succeeds(g, e, alphas, start);
}

// ---- bounds ----
/// The walk through a graph that can be walked through leads to an affine function below its
/// output: evaluate the graph on an input such that all operands lie in bounds of their shapes;
/// then the affine function at that input does not exceed the sum of the elements of the output.
pub proof fn lemma_walk_bounds<S: Scalar>(
    v: spec_fn(S) -> real,
    g: GraphV<S>,
    x: TensorV<S>,
    f: Map<Seq<char>, TensorV<S>>,
    e: Map<Seq<char>, IBPV<S>>,
    alphas: Map<Seq<char>, TensorV<S>>,
    start: StartV,
)
    requires
        exact::exact(v),
        walkable(g),
        layered::spans_hold(e, g.invars[0], g.equations, g.equations.len() - 1),
        forall|j: int|
            0 <= j < g.equations.len() ==> in_domain(e, (#[trigger] g.equations[j]).prim),
        all_sloped(g.equations, alphas),
        start is Last || start is Output,
        eval::environment::<S, Tensor<S>>((), g, seq![x]).1 == Ok::<
            Map<Seq<char>, TensorV<S>>,
            Fault,
        >(f),
        soundness::all_shaped(f, g.invars[0], g.equations),
        forall|j: int|
            0 <= j < g.equations.len() ==> soundness::operands_inside(
                v,
                f,
                e,
                (#[trigger] g.equations[j]).prim,
            ),
        forall|j: int|
            0 <= j < g.equations.len() ==> soundness::relaxes(
                v,
                f,
                e,
                ParamsV { alphas, splitting: None },
                #[trigger] g.equations[j],
            ),
    ensures
        crown::lower_bound::<S, Tensor<S>>(
            (),
            g,
            e,
            ParamsV { alphas, splitting: None },
            start,
        ).1 matches Ok((bound, _)) && fills(bound.weights, x.shape) && fills(bound.biases, point())
            && pairing::pairing(v, bound.weights, x) + v(bound.biases.data[0]) <= support::total(
            v,
            f[g.outvars[0].name],
        ),
{
    let (input, eqns) = (g.invars[0], g.equations);
    let n = eqns.len() as int;
    let out = eqns[n - 1].out;
    lemma_walk_succeeds(g, e, alphas, start);
    assert(walkable_eqn(input, eqns, n - 1));
    assert(support::variable(input.name, eqns, n) == out.name);
    assert(soundness::ordered(input, eqns)) by {
        assert forall|j: int| 0 <= j < n implies (#[trigger] eqns[j]).out.value is None by {
            assert(walkable_eqn(input, eqns, j));
        }
        assert forall|j: int, i: int|
            0 <= j < n && 0 <= i < nn::operands_of(eqns[j].prim).len() implies support::in_scope(
            input.name,
            eqns,
            #[trigger] nn::operands_of(eqns[j].prim)[i],
            j,
        ) by {
            assert(walkable_eqn(input, eqns, j));
            let a = nn::operands_of(eqns[j].prim)[i];
            assert(layered::declared(input, eqns, a, j));
        }
    }
    let p = ParamsV::<S, TensorV<S>> { alphas, splitting: None };
    soundness::lemma_crown_sound(v, g, x, f, e, p, start);
}

/// The relaxation of a rectifier on an operand in bounds of its shape: the program succeeds, what
/// it computes stays below the weighed result, and where the bounds of no element hold numbers of
/// both signs, nothing goes to the bias and the weighed sum is that of the result.
pub proof fn lemma_rectifier_bounds<S: Scalar>(
    v: spec_fn(S) -> real,
    slope: S,
    b: IBPV<S>,
    x: TensorV<S>,
    y: TensorV<S>,
    ins: Seq<TensorV<S>>,
    a: AtomV<S>,
)
    requires
        exact::exact(v),
        layered::well_shaped(a),
        layered::spans(b, a.shape),
        containment::inside(v, x, b),
        ins.len() == 2,
        fills(ins[0], a.shape),
        fills(ins[1], a.shape),
        carry::unit_slopes(v, ins[1], x),
        0real <= v(slope) <= 1real,
        carry::is_rectified(v, slope, x, y),
    ensures
        vjp::applied::<S, Tensor<S>>((), affine::relu_rule(slope, b), ins).1 matches Ok(parts) && {
            &&& layer_walk::parts_ok::<S, Tensor<S>>((), parts, seq![a])
            &&& support::carries(v, parts, seq![x], ins[0], y)
            &&& (forall|k: int|
                0 <= k < x.data.len() ==> 0real <= v(#[trigger] b.lb.data[k]) || v(b.ub.data[k])
                    <= 0real) ==> v(parts[1].data[0]) == 0real && pairing::pairing(v, parts[0], x)
                == pairing::pairing(v, ins[0], y)
        },
{
    lemma_rectifier_succeeds(slope, b, ins, a);
    let parts = vjp::applied::<S, Tensor<S>>((), affine::relu_rule(slope, b), ins).1->Ok_0;
    carry::lemma_relu_carries(v, slope, b, x, y, ins, parts);
    if forall|k: int|
        0 <= k < x.data.len() ==> 0real <= v(#[trigger] b.lb.data[k]) || v(b.ub.data[k]) <= 0real {
        carry::lemma_relu_exact(v, slope, b, x, y, ins, parts);
    }
}

// ---- intervals ----
/// An operation on two tensors succeeds and fills the shape of the result.
proof fn lemma_pair_fills<S: Scalar>(
    op: BinOpV,
    a: AtomV<S>,
    b: AtomV<S>,
    x: TensorV<S>,
    y: TensorV<S>,
    o: Seq<usize>,
)
    requires
        walkable_step(PrimV::Bin(op, a, b), o),
        shape::fits(o),
        x.shape == a.shape,
        y.shape == b.shape,
        reals::full(x),
        reals::full(y),
    ensures
        model::bin_tensor(op, x, y) matches Ok(t) && t.shape == o && reals::full(t),
{
}

/// The bounds of an operation can be had and have the shape of the result.
#[verifier::spinoff_prover]
#[verifier::rlimit(60)]
proof fn lemma_step_span<S: Scalar>(
    e: Map<Seq<char>, IBPV<S>>,
    input: AtomV<S>,
    eqns: Seq<EqnV<S>>,
    j: int,
)
    requires
        0 <= j < eqns.len(),
        walkable_eqn(input, eqns, j),
        layered::spans_hold(e, input, eqns, j),
    ensures
        eval::prim_value::<S, IBPTensor<S>>((), e, eqns[j].prim).1 matches Ok(y) && layered::spans(
            y,
            eqns[j].out.shape,
        ),
{
    let (prim, o) = (eqns[j].prim, eqns[j].out.shape);
    let atoms = nn::operands_of(prim);
    lemma_operand_bounds(e, input, eqns, atoms[0], j);
    match prim {
        PrimV::Un(op, a) => {
            assert(atoms[0] == a);
            let x = crown::bounds_of(e, a)->Ok_0;
            if let UnOpV::ReduceSum(axes) = op {
                let n = a.shape.len();
                reals::lemma_sum_axes_full(x.lb, axes, n as int, n);
                reals::lemma_sum_axes_full(x.ub, axes, n as int, n);
            } else {
                containment::lemma_pointwise_bounds(op, x);
            }
        },
        PrimV::Bin(op, a, b) => {
            assert(atoms[0] == a && atoms[1] == b);
            lemma_operand_bounds(e, input, eqns, atoms[1], j);
            let (x, y) = (crown::bounds_of(e, a)->Ok_0, crown::bounds_of(e, b)->Ok_0);
            lemma_pair_fills(op, a, b, x.lb, y.lb, o);
            lemma_pair_fills(op, a, b, x.lb, y.ub, o);
            lemma_pair_fills(op, a, b, x.ub, y.lb, o);
            lemma_pair_fills(op, a, b, x.ub, y.ub, o);
            lemma_pair_fills(op, a, b, x.lb, interval::middle(y.ub, y.lb), o);
            lemma_pair_fills(
                op,
                a,
                b,
                interval::magnitudes(x.lb),
                interval::radius(y.ub, y.lb),
                o,
            );
            lemma_pair_fills(op, a, b, interval::middle(x.lb, x.ub), y.lb, o);
            lemma_pair_fills(
                op,
                a,
                b,
                interval::radius(x.ub, x.lb),
                interval::magnitudes(y.lb),
                o,
            );
        },
        _ => {},
    }
}

/// The bounds of the variables from equation `i` on.
proof fn lemma_forward_spans<S: Scalar>(g: GraphV<S>, e: Map<Seq<char>, IBPV<S>>, i: nat)
    requires
        walkable(g),
        i <= g.equations.len(),
        layered::spans_hold(e, g.invars[0], g.equations, i as int),
    ensures
        eval::forward::<S, IBPTensor<S>>((), g.equations, e, i).1 matches Ok(f)
            && layered::spans_hold(f, g.invars[0], g.equations, g.equations.len() as int),
    decreases g.equations.len() - i,
{
    let (input, eqns) = (g.invars[0], g.equations);
    if i < eqns.len() {
        assert(walkable_eqn(input, eqns, i as int));
        lemma_step_span(e, input, eqns, i as int);
        let y = eval::prim_value::<S, IBPTensor<S>>((), e, eqns[i as int].prim).1->Ok_0;
        layered::lemma_one_more_span(e, input, eqns, i as int, y);
        lemma_forward_spans(g, e.insert(eqns[i as int].out.name, y), i + 1);
    }
}

/// Interval bounds of all variables of a graph that can be walked through can be had on every box
/// of the shape of its input, and have the shapes of the variables.
pub proof fn lemma_box_bounds<S: Scalar>(g: GraphV<S>, region: IBPV<S>)
    requires
        walkable(g),
        layered::spans(region, g.invars[0].shape),
    ensures
        eval::environment::<S, IBPTensor<S>>((), g, seq![region]).1 matches Ok(e)
            && layered::spans_hold(e, g.invars[0], g.equations, g.equations.len() as int),
{
    let (input, eqns) = (g.invars[0], g.equations);
    let given = eval::bound(g.invars, seq![region], 1);
    reveal_with_fuel(eval::bound, 2);
    assert(layered::spans_hold(given, input, eqns, 0)) by {
        assert(support::variable(input.name, eqns, 0) == input.name);
    }
    lemma_forward_spans(g, given, 0);
}

// ---- evaluation ----
/// What an operand stands for fills its shape.
proof fn lemma_operand_value<S: Scalar>(
    f: Map<Seq<char>, TensorV<S>>,
    input: AtomV<S>,
    eqns: Seq<EqnV<S>>,
    a: AtomV<S>,
    j: int,
)
    requires
        layered::shapes_hold(f, input, eqns, j),
        layered::well_shaped(a),
        layered::declared(input, eqns, a, j),
    ensures
        env::resolved::<S, Tensor<S>>(f, a) matches Ok(t) && fills(t, a.shape),
{
    if a.value is None {
        let i = choose|i: int|
            0 <= i <= j && #[trigger] support::variable(input.name, eqns, i) == a.name
                && layered::shape_at(input, eqns, i) == a.shape;
        assert(f.dom().contains(support::variable(input.name, eqns, i)));
    }
}

/// An operation can be evaluated and fills the shape of its result.
proof fn lemma_step_value<S: Scalar>(
    f: Map<Seq<char>, TensorV<S>>,
    input: AtomV<S>,
    eqns: Seq<EqnV<S>>,
    j: int,
)
    requires
        0 <= j < eqns.len(),
        walkable_eqn(input, eqns, j),
        layered::shapes_hold(f, input, eqns, j),
    ensures
        eval::prim_value::<S, Tensor<S>>((), f, eqns[j].prim).1 matches Ok(t) && t.shape
            == eqns[j].out.shape && reals::full(t),
{
    let (prim, o) = (eqns[j].prim, eqns[j].out.shape);
    let atoms = nn::operands_of(prim);
    lemma_operand_value(f, input, eqns, atoms[0], j);
    match prim {
        PrimV::Un(op, a) => {
            assert(atoms[0] == a);
            let x = env::resolved::<S, Tensor<S>>(f, a)->Ok_0;
            if let UnOpV::ReduceSum(axes) = op {
                let n = a.shape.len();
                reals::lemma_sum_axes_full(x, axes, n as int, n);
            }
        },
        PrimV::Bin(op, a, b) => {
            assert(atoms[0] == a && atoms[1] == b);
            lemma_operand_value(f, input, eqns, atoms[1], j);
            let (x, y) = (
                env::resolved::<S, Tensor<S>>(f, a)->Ok_0,
                env::resolved::<S, Tensor<S>>(f, b)->Ok_0,
            );
            lemma_pair_fills(op, a, b, x, y, o);
        },
        _ => {},
    }
}

/// The equations from number `i` on can be evaluated.
proof fn lemma_forward_values<S: Scalar>(g: GraphV<S>, f: Map<Seq<char>, TensorV<S>>, i: nat)
    requires
        walkable(g),
        i <= g.equations.len(),
        layered::shapes_hold(f, g.invars[0], g.equations, i as int),
    ensures
        eval::forward::<S, Tensor<S>>((), g.equations, f, i).1 matches Ok(r)
            && layered::shapes_hold(r, g.invars[0], g.equations, g.equations.len() as int),
    decreases g.equations.len() - i,
{
    let (input, eqns) = (g.invars[0], g.equations);
    if i < eqns.len() {
        let j = i as int;
        assert(walkable_eqn(input, eqns, j));
        lemma_step_value(f, input, eqns, j);
        let t = eval::prim_value::<S, Tensor<S>>((), f, eqns[j].prim).1->Ok_0;
        let r = f.insert(eqns[j].out.name, t);
        assert forall|k: int|
            #![trigger support::variable(input.name, eqns, k)]
            0 <= k <= j + 1 implies {
            let name = support::variable(input.name, eqns, k);
            &&& r.dom().contains(name)
            &&& r[name].shape == layered::shape_at(input, eqns, k)
            &&& reals::full(r[name])
        } by {
            assert(support::variable(input.name, eqns, j + 1) == eqns[j].out.name);
            if k <= j {
                assert(support::variable(input.name, eqns, k) != support::variable(
                    input.name,
                    eqns,
                    j + 1,
                ));
            }
        }
        lemma_forward_values(g, r, i + 1);
    }
}

/// A graph that can be walked through can be evaluated on every input of the shape of its own,
/// and all variables get tensors of their shapes.
pub proof fn lemma_evaluates<S: Scalar>(g: GraphV<S>, x: TensorV<S>)
    requires
        walkable(g),
        x.shape == g.invars[0].shape,
        reals::full(x),
    ensures
        eval::environment::<S, Tensor<S>>((), g, seq![x]).1 matches Ok(f) && soundness::all_shaped(
            f,
            g.invars[0],
            g.equations,
        ),
{
    let (input, eqns) = (g.invars[0], g.equations);
    let given = eval::bound(g.invars, seq![x], 1);
    reveal_with_fuel(eval::bound, 2);
    assert(layered::shapes_hold(given, input, eqns, 0)) by {
        assert(support::variable(input.name, eqns, 0) == input.name);
    }
    lemma_forward_values(g, given, 0);
    let f = eval::forward::<S, Tensor<S>>((), eqns, given, 0).1->Ok_0;
    assert(support::variable(input.name, eqns, 0) == input.name);
    assert forall|j: int| 0 <= j < eqns.len() implies support::shaped(
        f,
        (#[trigger] eqns[j]).out,
    ) by {
        assert(walkable_eqn(input, eqns, j));
        assert(support::variable(input.name, eqns, j + 1) == eqns[j].out.name);
    }
    assert forall|j: int, i: int|
        0 <= j < eqns.len() && 0 <= i < nn::operands_of(eqns[j].prim).len() implies support::shaped(
        f,
        #[trigger] nn::operands_of(eqns[j].prim)[i],
    ) by {
        assert(walkable_eqn(input, eqns, j));
        assert(layered::shapes_hold(f, input, eqns, j));
        lemma_operand_value(f, input, eqns, nn::operands_of(eqns[j].prim)[i], j);
    }
}

/// On every input of a box, the affine function that the walk leads to lies below the output: of a
/// graph that can be walked through, whose curves can be relaxed on the interval bounds `e` of the
/// box, and soundly so, and whose activations have slopes between zero and one.
pub proof fn lemma_box_walk<S: Scalar>(
    v: spec_fn(S) -> real,
    g: GraphV<S>,
    region: IBPV<S>,
    e: Map<Seq<char>, IBPV<S>>,
    x: TensorV<S>,
    f: Map<Seq<char>, TensorV<S>>,
    alphas: Map<Seq<char>, TensorV<S>>,
    start: StartV,
)
    requires
        exact::exact(v),
        walkable(g),
        layered::spans(region, g.invars[0].shape),
        containment::inside(v, x, region),
        containment::all_bounded(v, g.equations, node_verdicts::given(g, region), 0),
        eval::environment::<S, IBPTensor<S>>((), g, seq![region]).1 == Ok::<
            Map<Seq<char>, IBPV<S>>,
            Fault,
        >(e),
        eval::environment::<S, Tensor<S>>((), g, seq![x]).1 == Ok::<
            Map<Seq<char>, TensorV<S>>,
            Fault,
        >(f),
        forall|j: int|
            0 <= j < g.equations.len() ==> in_domain(e, (#[trigger] g.equations[j]).prim),
        all_sloped(g.equations, alphas),
        forall|j: int|
            0 <= j < g.equations.len() ==> soundness::relaxes(
                v,
                f,
                e,
                ParamsV { alphas, splitting: None },
                #[trigger] g.equations[j],
            ),
        start is Last || start is Output,
    ensures
        crown::lower_bound::<S, Tensor<S>>(
            (),
            g,
            e,
            ParamsV { alphas, splitting: None },
            start,
        ).1 matches Ok((bound, _)) && fills(bound.weights, x.shape) && fills(bound.biases, point())
            && pairing::pairing(v, bound.weights, x) + v(bound.biases.data[0]) <= support::total(
            v,
            f[g.outvars[0].name],
        ),
{
    let (input, eqns) = (g.invars[0], g.equations);
    lemma_box_bounds(g, region);
    lemma_evaluates(g, x);
    let given = node_verdicts::given(g, region);
    let own = Map::<Seq<char>, TensorV<S>>::empty().insert(input.name, x);
    reveal_with_fuel(eval::bound, 2);
    assert(eval::bound(g.invars, seq![region], 1) == given);
    assert(eval::bound(g.invars, seq![x], 1) == own);
    assert(containment::all_inside(v, own, given)) by {
        assert(own.dom() =~= given.dom());
    }
    assert forall|j: int| 0 <= j < eqns.len() implies containment::solid(
        (#[trigger] eqns[j]).prim,
    ) by {
        assert(walkable_eqn(input, eqns, j));
    }
    containment::lemma_forward_inside(v, eqns, own, given, 0);
    soundness::lemma_operands_inside(v, f, e, input, eqns);
    lemma_walk_bounds(v, g, x, f, e, alphas, start);
}

} // verus!
