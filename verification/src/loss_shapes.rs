//! Gradients of traced computations have the shapes of the inputs.

use vstd::prelude::*;
use crate::carry_moves;
use crate::env;
use crate::eval;
use crate::grad;
use crate::layer_walk::fills;
use crate::model::{BinOpV, Fault, TensorV, UnOpV};
use crate::nn;
use crate::nn::{AtomV, GraphV, PrimV};
use crate::pairing;
use crate::scalar::Scalar;
use crate::shape;
use crate::shaping;
use crate::shaping::Shaped;
use crate::slope_bounds;
use crate::support;
use crate::tensor::Tensor;
use crate::text;
use crate::tracer;
use crate::tracer::BuilderV;
use crate::value::{Reg, StepV};
use crate::vjp;
use crate::vjp::RuleV;

verus! {

// ---- names ----
/// Whether the inputs of a graph have names of their own.
pub open spec fn named_apart<S>(ins: Seq<AtomV<S>>) -> bool {
    forall|i: int, j: int|
        0 <= i < j < ins.len() ==> (#[trigger] ins[i]).name != (#[trigger] ins[j]).name
}

/// The result of an equation is not named like an input.
proof fn lemma_beside<S>(b: BuilderV<S>, i: int, j: int)
    requires
        shaping::all_plain(b),
        0 <= i < b.invars.len(),
        0 <= j < b.equations.len(),
    ensures
        b.invars[i].name != b.equations[j].out.name,
{
    let names = tracer::atom_names(b.invars);
    assert(shaping::eqn_plain(b, j));
    slope_bounds::lemma_generated_number((tracer::first_number(names) + j) as nat);
    slope_bounds::lemma_number_above(names, names.len(), i);
}

/// Generated names are told apart by their numbers.
pub proof fn lemma_generated(k: nat, l: nat)
    requires
        tracer::generated(k) == tracer::generated(l),
    ensures
        k == l,
{
    let (a, b) = (tracer::generated(k), tracer::generated(l));
    let n = "a"@.len() as int;
    assert(text::digits(k) =~= a.subrange(n, a.len() as int));
    assert(text::digits(l) =~= b.subrange(n, b.len() as int));
    text::lemma_digits_injective(k, l);
}

// ---- values ----
/// Whether the inputs and the results of the first `n` equations have tensors of their shapes.
pub open spec fn env_ok<S>(e: Map<Seq<char>, TensorV<S>>, b: BuilderV<S>, n: int) -> bool {
    &&& forall|i: int|
        0 <= i < b.invars.len() ==> e.dom().contains((#[trigger] b.invars[i]).name) && fills(
            e[b.invars[i].name],
            b.invars[i].shape,
        )
    &&& forall|j: int|
        0 <= j < n ==> e.dom().contains((#[trigger] b.equations[j]).out.name) && fills(
            e[b.equations[j].out.name],
            b.equations[j].out.shape,
        )
}

/// What a known atom stands for.
proof fn lemma_known_value<S: Scalar>(
    e: Map<Seq<char>, TensorV<S>>,
    b: BuilderV<S>,
    a: AtomV<S>,
    n: int,
)
    requires
        0 <= n <= b.equations.len(),
        env_ok(e, b, n),
        shaping::known(b, a, n),
        support::dense(a.shape),
    ensures
        env::resolved::<S, Tensor<S>>(e, a) matches Ok(t) && fills(t, a.shape),
{
    if a.value is None {
        if exists|i: int| 0 <= i < b.invars.len() && #[trigger] b.invars[i] == a {
            let i = choose|i: int| 0 <= i < b.invars.len() && #[trigger] b.invars[i] == a;
            assert(e.dom().contains(b.invars[i].name));
        } else {
            let j = choose|j: int| 0 <= j < n && (#[trigger] b.equations[j]).out == a;
            assert(e.dom().contains(b.equations[j].out.name));
        }
    }
}

/// A recorded operation, evaluated.
proof fn lemma_loss_value<S: Scalar>(e: Map<Seq<char>, TensorV<S>>, b: BuilderV<S>, j: int)
    requires
        0 <= j < b.equations.len(),
        env_ok(e, b, j),
        shaping::eqn_plain(b, j),
    ensures
        eval::prim_value::<S, Tensor<S>>((), e, b.equations[j].prim).1 matches Ok(t) ==> fills(
            t,
            b.equations[j].out.shape,
        ),
{
    let p = b.equations[j].prim;
    let w = nn::operands_of(p);
    lemma_known_value(e, b, w[0], j);
    match p {
        PrimV::Un(op, a) => {
            Tensor::<S>::law_unary((), op, env::resolved::<S, Tensor<S>>(e, a)->Ok_0);
        },
        PrimV::Bin(op, a, c) => {
            lemma_known_value(e, b, w[1], j);
            Tensor::<S>::law_binary(
                (),
                op,
                env::resolved::<S, Tensor<S>>(e, a)->Ok_0,
                env::resolved::<S, Tensor<S>>(e, c)->Ok_0,
            );
        },
        PrimV::Select(q, a, c) => {
            lemma_known_value(e, b, w[1], j);
            lemma_known_value(e, b, w[2], j);
            Tensor::<S>::law_select(
                (),
                env::resolved::<S, Tensor<S>>(e, q)->Ok_0,
                env::resolved::<S, Tensor<S>>(e, a)->Ok_0,
                env::resolved::<S, Tensor<S>>(e, c)->Ok_0,
            );
        },
    }
}

/// One more result.
proof fn lemma_one_more_value<S: Scalar>(
    e: Map<Seq<char>, TensorV<S>>,
    b: BuilderV<S>,
    j: int,
    t: TensorV<S>,
)
    requires
        0 <= j < b.equations.len(),
        shaping::all_plain(b),
        named_apart(b.invars),
        env_ok(e, b, j),
        fills(t, b.equations[j].out.shape),
    ensures
        env_ok(e.insert(b.equations[j].out.name, t), b, j + 1),
{
    let name = b.equations[j].out.name;
    let f = e.insert(name, t);
    assert(shaping::eqn_plain(b, j));
    assert forall|i: int| 0 <= i < b.invars.len() implies f.dom().contains(
        (#[trigger] b.invars[i]).name,
    ) && fills(f[b.invars[i].name], b.invars[i].shape) by {
        lemma_beside(b, i, j);
    }
    assert forall|k: int| 0 <= k < j + 1 implies f.dom().contains(
        (#[trigger] b.equations[k]).out.name,
    ) && fills(f[b.equations[k].out.name], b.equations[k].out.shape) by {
        assert(shaping::eqn_plain(b, k));
        if k < j && b.equations[k].out.name == name {
            let first = tracer::first_number(tracer::atom_names(b.invars));
            lemma_generated((first + k) as nat, (first + j) as nat);
        }
    }
}

/// The equations from number `j` on, evaluated.
proof fn lemma_loss_forward<S: Scalar>(e: Map<Seq<char>, TensorV<S>>, b: BuilderV<S>, j: nat)
    requires
        j <= b.equations.len(),
        shaping::all_plain(b),
        named_apart(b.invars),
        env_ok(e, b, j as int),
    ensures
        eval::forward::<S, Tensor<S>>((), b.equations, e, j).1 matches Ok(f) ==> env_ok(
            f,
            b,
            b.equations.len() as int,
        ),
    decreases b.equations.len() - j,
{
    if j < b.equations.len() {
        assert(shaping::eqn_plain(b, j as int));
        lemma_loss_value(e, b, j as int);
        if let Ok(t) = eval::prim_value::<S, Tensor<S>>((), e, b.equations[j as int].prim).1 {
            lemma_one_more_value(e, b, j as int, t);
            lemma_loss_forward(e.insert(b.equations[j as int].out.name, t), b, j + 1);
        }
    }
}

// ---- cotangents ----
/// Whether a cotangent of a value of shape `s` can be taken back to it.
pub open spec fn goes_back<S>(t: TensorV<S>, s: Seq<usize>) -> bool {
    &&& fills(t, t.shape)
    &&& t.shape.len() <= isize::MAX
    &&& shape::expands_to(s, t.shape)
}

/// Whether the cotangents of the operands of an operation can be taken back to them.
pub open spec fn all_return<S>(ts: Seq<TensorV<S>>, atoms: Seq<AtomV<S>>) -> bool {
    &&& ts.len() == atoms.len()
    &&& forall|i: int| 0 <= i < ts.len() ==> goes_back(#[trigger] ts[i], atoms[i].shape)
}

/// The results of a product program.
proof fn lemma_products<S: Scalar>(
    rule: RuleV<S>,
    ins: Seq<TensorV<S>>,
    si: Seq<Seq<usize>>,
    ss: Seq<Seq<usize>>,
    atoms: Seq<AtomV<S>>,
    ts: Seq<TensorV<S>>,
)
    requires
        shaping::shaped_by(rule.steps, si, ss),
        shaping::all_ok::<S, Tensor<S>>((), ins, si),
        rule.outs.len() == atoms.len(),
        forall|i: int|
            0 <= i < atoms.len() ==> {
                let s = #[trigger] shaping::out_shapes(rule.outs, si, ss)[i];
                s.len() <= isize::MAX && shape::expands_to(atoms[i].shape, s)
            },
        vjp::applied::<S, Tensor<S>>((), rule, ins).1 == Ok::<Seq<TensorV<S>>, Fault>(ts),
    ensures
        all_return(ts, atoms),
{
    shaping::lemma_applied_shapes::<S, Tensor<S>>((), rule, ins, si, ss);
    let os = shaping::out_shapes(rule.outs, si, ss);
    assert forall|i: int| 0 <= i < ts.len() implies goes_back(#[trigger] ts[i], atoms[i].shape) by {
        assert(Tensor::<S>::ok((), ts[i]));
        assert(os[i].len() <= isize::MAX);
    }
}

/// The shapes of the results of the product program of a contraction.
pub open spec fn contraction_shapes(a: Seq<usize>, b: Seq<usize>, o: Seq<usize>) -> Seq<Seq<usize>> {
    let n = a.last();
    let left = if b.len() == 1 {
        seq![o.push(1), seq![1, n], a]
    } else {
        seq![seq![b[1], n], a]
    };
    let right = if a.len() == 1 {
        seq![seq![n, 1], seq![1usize] + o, b]
    } else {
        seq![seq![n, a[0]], b]
    };
    left + right
}

/// The product program of a contraction.
#[verifier::spinoff_prover]
#[verifier::rlimit(60)]
proof fn lemma_contraction_program<S: Scalar>(a: Seq<usize>, b: Seq<usize>, o: Seq<usize>)
    requires
        shaping::bin_plain(BinOpV::Dot, a, b) == Some(o),
        support::dense(a),
        support::dense(b),
    ensures
        ({
            let rule = vjp::dot_rule::<S>(a, b);
            let ss = contraction_shapes(a, b, o);
            &&& shaping::shaped_by(rule.steps, seq![o, a, b], ss)
            &&& shaping::out_shapes(rule.outs, seq![o, a, b], ss) == seq![a, b]
        }),
{
    let rule = vjp::dot_rule::<S>(a, b);
    let steps = rule.steps;
    let si = seq![o, a, b];
    let ss = contraction_shapes(a, b, o);
    let n = a.last();
    if b.len() == 1 {
        shaping::lemma_expand_plain::<S>(o, (-1) as isize);
        assert(o.insert(o.len() as int, 1) =~= o.push(1));
        shaping::lemma_expand_plain::<S>(b, 0);
        assert(b.insert(0, 1) =~= seq![1, n]);
        assert(steps[0] == StepV::<S>::Un(UnOpV::ExpandDims(seq![(-1) as isize]), Reg::In(0)));
        assert(steps[1] == StepV::<S>::Un(UnOpV::ExpandDims(seq![0isize]), Reg::In(2)));
        assert(steps[2] == StepV::<S>::Bin(BinOpV::Dot, Reg::Out(0), Reg::Out(1)));
        assert(o.push(1).drop_last().push(n) =~= a);
        assert(shaping::step_shaped(steps, si, ss, 0));
        assert(shaping::step_shaped(steps, si, ss, 1));
        assert(shaping::step_shaped(steps, si, ss, 2));
        if a.len() == 1 {
            shaping::lemma_expand_plain::<S>(a, (-1) as isize);
            assert(a.insert(1, 1) =~= seq![n, 1]);
            shaping::lemma_expand_plain::<S>(o, 0);
            assert(o.insert(0, 1) =~= seq![1usize] + o);
            assert(steps[3] == StepV::<S>::Un(UnOpV::ExpandDims(seq![(-1) as isize]), Reg::In(1)));
            assert(steps[4] == StepV::<S>::Un(UnOpV::ExpandDims(seq![0isize]), Reg::In(0)));
            assert(steps[5] == StepV::<S>::Bin(BinOpV::Dot, Reg::Out(3), Reg::Out(4)));
            assert(seq![n, 1].drop_last() =~= b);
            assert(shaping::step_shaped(steps, si, ss, 3));
            assert(shaping::step_shaped(steps, si, ss, 4));
            assert(shaping::step_shaped(steps, si, ss, 5));
            lemma_each(steps, si, ss, 6);
        } else {
            assert(steps[3] == StepV::<S>::Un(
                UnOpV::MoveAxis((-1) as isize, (-2) as isize),
                Reg::In(1),
            ));
            assert(steps[4] == StepV::<S>::Bin(BinOpV::Dot, Reg::Out(3), Reg::In(0)));
            assert(seq![a[1], a[0]].drop_last() =~= b);
            assert(shaping::step_shaped(steps, si, ss, 3));
            assert(shaping::step_shaped(steps, si, ss, 4));
            lemma_each(steps, si, ss, 5);
        }
    } else {
        assert(steps[0] == StepV::<S>::Un(
            UnOpV::MoveAxis((-1) as isize, (-2) as isize),
            Reg::In(2),
        ));
        assert(steps[1] == StepV::<S>::Bin(BinOpV::Dot, Reg::In(0), Reg::Out(0)));
        assert(o.drop_last().push(n) =~= a);
        assert(shaping::step_shaped(steps, si, ss, 0));
        assert(shaping::step_shaped(steps, si, ss, 1));
        if a.len() == 1 {
            shaping::lemma_expand_plain::<S>(a, (-1) as isize);
            assert(a.insert(1, 1) =~= seq![n, 1]);
            shaping::lemma_expand_plain::<S>(o, 0);
            assert(o.insert(0, 1) =~= seq![1usize] + o);
            assert(steps[2] == StepV::<S>::Un(UnOpV::ExpandDims(seq![(-1) as isize]), Reg::In(1)));
            assert(steps[3] == StepV::<S>::Un(UnOpV::ExpandDims(seq![0isize]), Reg::In(0)));
            assert(steps[4] == StepV::<S>::Bin(BinOpV::Dot, Reg::Out(2), Reg::Out(3)));
            assert(seq![n, 1].drop_last().push(b[1]) =~= b);
            assert(shaping::step_shaped(steps, si, ss, 2));
            assert(shaping::step_shaped(steps, si, ss, 3));
            assert(shaping::step_shaped(steps, si, ss, 4));
            lemma_each(steps, si, ss, 5);
        } else {
            assert(steps[2] == StepV::<S>::Un(
                UnOpV::MoveAxis((-1) as isize, (-2) as isize),
                Reg::In(1),
            ));
            assert(steps[3] == StepV::<S>::Bin(BinOpV::Dot, Reg::Out(2), Reg::In(0)));
            assert(seq![a[1], a[0]].drop_last().push(b[1]) =~= b);
            assert(shaping::step_shaped(steps, si, ss, 2));
            assert(shaping::step_shaped(steps, si, ss, 3));
            lemma_each(steps, si, ss, 4);
        }
    }
    assert(shaping::out_shapes(rule.outs, si, ss) =~= seq![a, b]);
}

/// The steps of a short program.
proof fn lemma_each<S>(
    steps: Seq<StepV<S>>,
    si: Seq<Seq<usize>>,
    ss: Seq<Seq<usize>>,
    n: int,
)
    requires
        4 <= n <= 6,
        steps.len() == n,
        ss.len() == n,
        shaping::step_shaped(steps, si, ss, 0),
        shaping::step_shaped(steps, si, ss, 1),
        shaping::step_shaped(steps, si, ss, 2),
        shaping::step_shaped(steps, si, ss, 3),
        n > 4 ==> shaping::step_shaped(steps, si, ss, 4),
        n > 5 ==> shaping::step_shaped(steps, si, ss, 5),
    ensures
        shaping::shaped_by(steps, si, ss),
{
    assert forall|i: int| 0 <= i < n implies #[trigger] shaping::step_shaped(steps, si, ss, i) by {
        if i == 0 {
        } else if i == 1 {
        } else if i == 2 {
        } else if i == 3 {
        } else if i == 4 {
        } else {
            assert(i == 5);
        }
    }
}

/// The product program of such an operation on a value of shape `s`, with a result of shape `o`.
pub open spec fn unary_products<S: Scalar>(op: UnOpV<S>, s: Seq<usize>, o: Seq<usize>) -> RuleV<S> {
    match op {
        UnOpV::Neg => vjp::single(seq![StepV::Un(UnOpV::Neg, Reg::In(0))]),
        UnOpV::Relu => vjp::single(
            seq![vjp::load_zeros(o), StepV::Select(Reg::In(1), Reg::In(0), Reg::Out(0))],
        ),
        UnOpV::ReduceSum(axes) => vjp::single(
            seq![
                StepV::Un(UnOpV::ExpandDims(axes), Reg::In(0)),
                vjp::load_zeros(s),
                StepV::Bin(BinOpV::Add, Reg::Out(0), Reg::Out(1)),
            ],
        ),
        UnOpV::ExpandDims(axes) => vjp::single(seq![StepV::Un(UnOpV::ReduceSum(axes), Reg::In(0))]),
        UnOpV::MoveAxis(a, b) => vjp::single(seq![StepV::Un(UnOpV::MoveAxis(b, a), Reg::In(0))]),
        _ => vjp::single(seq![]),
    }
}

/// The shapes of its results.
pub open spec fn unary_shapes<S>(op: UnOpV<S>, s: Seq<usize>) -> Seq<Seq<usize>> {
    match op {
        UnOpV::Relu => seq![s, s],
        UnOpV::ReduceSum(axes) => seq![carry_moves::flattened(s, axes, 0), s, s],
        _ => seq![s],
    }
}

/// The product program of a sum along axes.
proof fn lemma_reduce_program<S: Scalar>(axes: Seq<isize>, s: Seq<usize>, si: Seq<Seq<usize>>)
    requires
        support::dense(s),
        si.len() > 0,
        shaping::un_plain::<S>(UnOpV::ReduceSum(axes), s) == Some(si[0]),
    ensures
        shaping::shaped_by(
            unary_products::<S>(UnOpV::ReduceSum(axes), s, si[0]).steps,
            si,
            unary_shapes::<S>(UnOpV::ReduceSum(axes), s),
        ),
{
    let steps = unary_products::<S>(UnOpV::ReduceSum(axes), s, si[0]).steps;
    let fl = carry_moves::flattened(s, axes, 0);
    let ss = unary_shapes::<S>(UnOpV::ReduceSum(axes), s);
    carry_moves::lemma_put_back::<S>(s, axes);
    carry_moves::lemma_drop_all(s, axes);
    carry_moves::lemma_kept::<S>(s, axes, s.len() as int, s.len(), 0);
    assert(shape::expands_to(fl, s));
    pairing::lemma_expands_broadcast(fl, s);
    assert(shaping::step_shaped(steps, si, ss, 0));
    assert(shaping::step_shaped(steps, si, ss, 1));
    assert(shaping::step_shaped(steps, si, ss, 2));
}

/// The product program of an operation on one value.
proof fn lemma_unary_program<S: Scalar>(op: UnOpV<S>, s: Seq<usize>, si: Seq<Seq<usize>>)
    requires
        support::dense(s),
        si.len() > 0,
        shaping::un_plain(op, s) == Some(si[0]),
        op is Relu ==> si.len() > 1 && si[1] == s,
    ensures
        shaping::shaped_by(unary_products(op, s, si[0]).steps, si, unary_shapes(op, s)),
        shaping::out_shapes(unary_products(op, s, si[0]).outs, si, unary_shapes(op, s)) == seq![s],
{
    let rule = unary_products(op, s, si[0]);
    let (steps, ss) = (rule.steps, unary_shapes(op, s));
    match op {
        UnOpV::Relu => {
            assert(shaping::step_shaped(steps, si, ss, 0));
            assert(shaping::step_shaped(steps, si, ss, 1));
        },
        UnOpV::ReduceSum(axes) => {
            lemma_reduce_program::<S>(axes, s, si);
        },
        UnOpV::ExpandDims(axes) => {
            carry_moves::lemma_take_out::<S>(s, axes);
            assert(shaping::step_shaped(steps, si, ss, 0));
        },
        UnOpV::MoveAxis(_, _) => {
            assert(seq![si[0][1], si[0][0]] =~= s);
            assert(shaping::step_shaped(steps, si, ss, 0));
        },
        _ => {
            assert(shaping::step_shaped(steps, si, ss, 0));
        },
    }
    assert(shaping::out_shapes(rule.outs, si, ss) =~= seq![s]);
}

/// Which program it is.
proof fn lemma_unary_rule<S: Scalar>(op: UnOpV<S>, a: AtomV<S>, si: Seq<Seq<usize>>)
    requires
        si.len() > 0,
        shaping::un_plain(op, a.shape) == Some(si[0]),
        op is ReduceSum ==> si.len() > 1 && si[1] == a.shape,
    ensures
        vjp::vjp_rule(PrimV::Un(op, a), si) matches Ok(rule) ==> rule == unary_products(
            op,
            a.shape,
            si[0],
        ) && forall|i: int| 0 <= i < si.len() ==> (#[trigger] si[i]).len() <= isize::MAX,
{
}

/// The cotangents of the operand of an operation on one value.
proof fn lemma_unary_products<S: Scalar>(
    op: UnOpV<S>,
    a: AtomV<S>,
    t: TensorV<S>,
    v: Seq<TensorV<S>>,
    rule: RuleV<S>,
    ts: Seq<TensorV<S>>,
)
    requires
        support::dense(a.shape),
        shaping::un_plain(op, a.shape) == Some(t.shape),
        fills(t, t.shape),
        match op {
            UnOpV::Relu | UnOpV::ReduceSum(_) => v.len() == 1 && fills(v[0], a.shape),
            _ => v.len() == 0,
        },
        rule == unary_products(op, a.shape, t.shape),
        t.shape.len() <= isize::MAX,
        op is ReduceSum ==> a.shape.len() <= isize::MAX,
        vjp::applied::<S, Tensor<S>>((), rule, seq![t] + v).1 == Ok::<Seq<TensorV<S>>, Fault>(ts),
    ensures
        all_return(ts, seq![a]),
{
    let ins = seq![t] + v;
    let si = vjp::shapes_of::<S, Tensor<S>>(ins);
    pairing::lemma_same_shape(a.shape);
    lemma_unary_program(op, a.shape, si);
    assert(shaping::all_ok::<S, Tensor<S>>((), ins, si));
    lemma_products(rule, ins, si, unary_shapes(op, a.shape), seq![a], ts);
}

/// The product program of such an operation on values of shapes `a` and `b`.
pub open spec fn binary_products<S>(op: BinOpV, a: Seq<usize>, b: Seq<usize>) -> RuleV<S> {
    match op {
        BinOpV::Add => RuleV { steps: seq![], outs: seq![Reg::In(0), Reg::In(0)] },
        BinOpV::Mul => RuleV {
            steps: seq![
                StepV::Bin(BinOpV::Mul, Reg::In(0), Reg::In(2)),
                StepV::Bin(BinOpV::Mul, Reg::In(1), Reg::In(0)),
            ],
            outs: seq![Reg::Out(0), Reg::Out(1)],
        },
        _ => vjp::dot_rule(a, b),
    }
}

/// Which program it is.
proof fn lemma_binary_rule<S: Scalar>(op: BinOpV, a: AtomV<S>, b: AtomV<S>, si: Seq<Seq<usize>>)
    requires
        si.len() > 0,
        shaping::bin_plain(op, a.shape, b.shape) is Some,
        op is Dot ==> si.len() > 2 && si[1] == a.shape && si[2] == b.shape,
    ensures
        vjp::vjp_rule(PrimV::Bin(op, a, b), si) matches Ok(rule) ==> rule == binary_products::<S>(
            op,
            a.shape,
            b.shape,
        ) && forall|i: int| 0 <= i < si.len() ==> (#[trigger] si[i]).len() <= isize::MAX,
{
}

/// The cotangents of the operands of an operation on two values.
proof fn lemma_binary_products<S: Scalar>(
    op: BinOpV,
    a: AtomV<S>,
    b: AtomV<S>,
    t: TensorV<S>,
    v: Seq<TensorV<S>>,
    rule: RuleV<S>,
    ts: Seq<TensorV<S>>,
)
    requires
        support::dense(a.shape),
        support::dense(b.shape),
        shaping::bin_plain(op, a.shape, b.shape) == Some(t.shape),
        fills(t, t.shape),
        if op is Add {
            v.len() == 0
        } else {
            v.len() == 2 && fills(v[0], a.shape) && fills(v[1], b.shape)
        },
        rule == binary_products::<S>(op, a.shape, b.shape),
        t.shape.len() <= isize::MAX,
        vjp::applied::<S, Tensor<S>>((), rule, seq![t] + v).1 == Ok::<Seq<TensorV<S>>, Fault>(ts),
    ensures
        all_return(ts, seq![a, b]),
{
    if op is Add {
        lemma_sum_products(a, b, t, v, rule, ts);
    } else if op is Mul {
        lemma_product_products(a, b, t, v, rule, ts);
    } else {
        lemma_contraction_products(a, b, t, v, rule, ts);
    }
}

/// The cotangents of the operands of a sum.
proof fn lemma_sum_products<S: Scalar>(
    a: AtomV<S>,
    b: AtomV<S>,
    t: TensorV<S>,
    v: Seq<TensorV<S>>,
    rule: RuleV<S>,
    ts: Seq<TensorV<S>>,
)
    requires
        shape::broadcast(a.shape, b.shape) == Some(t.shape),
        fills(t, t.shape),
        v.len() == 0,
        rule.steps == Seq::<StepV<S>>::empty(),
        rule.outs == seq![Reg::In(0), Reg::In(0)],
        t.shape.len() <= isize::MAX,
        vjp::applied::<S, Tensor<S>>((), rule, seq![t] + v).1 == Ok::<Seq<TensorV<S>>, Fault>(ts),
    ensures
        all_return(ts, seq![a, b]),
{
    let o = t.shape;
    let ins = seq![t] + v;
    let (si, ss) = (seq![o], Seq::<Seq<usize>>::empty());
    assert(shaping::all_ok::<S, Tensor<S>>((), ins, si));
    shape::lemma_broadcast_expands(a.shape, b.shape);
    assert(shaping::out_shapes(rule.outs, si, ss) =~= seq![o, o]);
    lemma_products(rule, ins, si, ss, seq![a, b], ts);
}

/// The cotangents of the operands of a product.
proof fn lemma_product_products<S: Scalar>(
    a: AtomV<S>,
    b: AtomV<S>,
    t: TensorV<S>,
    v: Seq<TensorV<S>>,
    rule: RuleV<S>,
    ts: Seq<TensorV<S>>,
)
    requires
        support::dense(a.shape),
        support::dense(b.shape),
        shape::broadcast(a.shape, b.shape) == Some(t.shape),
        fills(t, t.shape),
        v.len() == 2,
        fills(v[0], a.shape),
        fills(v[1], b.shape),
        rule.steps == seq![
            StepV::<S>::Bin(BinOpV::Mul, Reg::In(0), Reg::In(2)),
            StepV::Bin(BinOpV::Mul, Reg::In(1), Reg::In(0)),
        ],
        rule.outs == seq![Reg::Out(0), Reg::Out(1)],
        t.shape.len() <= isize::MAX,
        vjp::applied::<S, Tensor<S>>((), rule, seq![t] + v).1 == Ok::<Seq<TensorV<S>>, Fault>(ts),
    ensures
        all_return(ts, seq![a, b]),
{
    let o = t.shape;
    let ins = seq![t] + v;
    let (si, ss) = (seq![o, a.shape, b.shape], seq![o, o]);
    assert(shaping::all_ok::<S, Tensor<S>>((), ins, si));
    shape::lemma_broadcast_expands(a.shape, b.shape);
    pairing::lemma_expands_broadcast(a.shape, o);
    pairing::lemma_expands_broadcast(b.shape, o);
    assert(shaping::step_shaped(rule.steps, si, ss, 0));
    assert(shaping::step_shaped(rule.steps, si, ss, 1));
    assert(shaping::out_shapes(rule.outs, si, ss) =~= seq![o, o]);
    lemma_products(rule, ins, si, ss, seq![a, b], ts);
}

/// The cotangents of the operands of a contraction.
proof fn lemma_contraction_products<S: Scalar>(
    a: AtomV<S>,
    b: AtomV<S>,
    t: TensorV<S>,
    v: Seq<TensorV<S>>,
    rule: RuleV<S>,
    ts: Seq<TensorV<S>>,
)
    requires
        support::dense(a.shape),
        support::dense(b.shape),
        shaping::bin_plain(BinOpV::Dot, a.shape, b.shape) == Some(t.shape),
        fills(t, t.shape),
        v.len() == 2,
        fills(v[0], a.shape),
        fills(v[1], b.shape),
        rule == vjp::dot_rule::<S>(a.shape, b.shape),
        vjp::applied::<S, Tensor<S>>((), rule, seq![t] + v).1 == Ok::<Seq<TensorV<S>>, Fault>(ts),
    ensures
        all_return(ts, seq![a, b]),
{
    let o = t.shape;
    let ins = seq![t] + v;
    let si = seq![o, a.shape, b.shape];
    let ss = contraction_shapes(a.shape, b.shape, o);
    pairing::lemma_same_shape(a.shape);
    pairing::lemma_same_shape(b.shape);
    assert(shaping::all_ok::<S, Tensor<S>>((), ins, si));
    lemma_contraction_program::<S>(a.shape, b.shape, o);
    lemma_products(rule, ins, si, ss, seq![a, b], ts);
}

/// The cotangents of the operands of a selection.
proof fn lemma_select_products<S: Scalar>(
    q: AtomV<S>,
    a: AtomV<S>,
    b: AtomV<S>,
    t: TensorV<S>,
    v: Seq<TensorV<S>>,
    rule: RuleV<S>,
    ts: Seq<TensorV<S>>,
)
    requires
        support::dense(a.shape),
        shaping::select_plain(q.shape, a.shape, b.shape) == Some(t.shape),
        fills(t, t.shape),
        v.len() == 1,
        fills(v[0], a.shape),
        rule.steps == seq![
            vjp::load_zeros::<S>(t.shape),
            StepV::Select(Reg::In(1), Reg::In(0), Reg::Out(0)),
            StepV::Select(Reg::In(1), Reg::Out(0), Reg::In(0)),
        ],
        rule.outs == seq![Reg::Out(0), Reg::Out(1), Reg::Out(2)],
        t.shape.len() <= isize::MAX,
        vjp::applied::<S, Tensor<S>>((), rule, seq![t] + v).1 == Ok::<Seq<TensorV<S>>, Fault>(ts),
    ensures
        all_return(ts, seq![q, a, b]),
{
    let s = t.shape;
    let ins = seq![t] + v;
    let (si, ss) = (seq![s, s], seq![s, s, s]);
    pairing::lemma_same_shape(s);
    assert(shaping::all_ok::<S, Tensor<S>>((), ins, si));
    assert(shaping::step_shaped(rule.steps, si, ss, 0));
    assert(shaping::step_shaped(rule.steps, si, ss, 1));
    assert(shaping::step_shaped(rule.steps, si, ss, 2));
    assert(shaping::out_shapes(rule.outs, si, ss) =~= seq![s, s, s]);
    lemma_products(rule, ins, si, ss, seq![q, a, b], ts);
}

/// The cotangents of the operands of a recorded operation can be taken back to them.
#[verifier::rlimit(40)]
proof fn lemma_eqn_products<S: Scalar>(
    e: Map<Seq<char>, TensorV<S>>,
    cot: Map<Seq<char>, TensorV<S>>,
    b: BuilderV<S>,
    j: int,
    ts: Seq<TensorV<S>>,
)
    requires
        0 <= j < b.equations.len(),
        env_ok(e, b, b.equations.len() as int),
        shaping::eqn_plain(b, j),
        cot.dom().contains(b.equations[j].out.name),
        fills(cot[b.equations[j].out.name], b.equations[j].out.shape),
        vjp::vjp_values::<S, Tensor<S>>(
            (),
            b.equations[j].prim,
            b.equations[j].out,
            e,
            cot,
        ).1 == Ok::<Seq<TensorV<S>>, Fault>(ts),
    ensures
        all_return(ts, nn::operands_of(b.equations[j].prim)),
{
    let (p, out) = (b.equations[j].prim, b.equations[j].out);
    let w = nn::operands_of(p);
    let t = cot[out.name];
    let needs = vjp::vjp_needs(p, out)->Ok_0;
    reveal_with_fuel(vjp::resolved_all, 4);
    let v = vjp::resolved_all::<S, Tensor<S>>(e, needs, needs.len())->Ok_0;
    let si = vjp::shapes_of::<S, Tensor<S>>(seq![t] + v);
    let rule = vjp::vjp_rule(p, si)->Ok_0;
    assert(env_ok(e, b, j));
    assert(e.dom().contains(b.equations[j].out.name));
    lemma_known_value(e, b, w[0], j);
    match p {
        PrimV::Un(op, a) => {
            lemma_unary_rule(op, a, si);
            assert(si[0] == t.shape && t.shape.len() <= isize::MAX);
            lemma_unary_products(op, a, t, v, rule, ts);
            assert(w =~= seq![a]);
        },
        PrimV::Bin(op, a, c) => {
            lemma_known_value(e, b, w[1], j);
            lemma_binary_rule(op, a, c, si);
            assert(si[0] == t.shape && t.shape.len() <= isize::MAX);
            lemma_binary_products(op, a, c, t, v, rule, ts);
            assert(w =~= seq![a, c]);
        },
        PrimV::Select(q, a, c) => {
            assert(si[0] == t.shape && si[1] == t.shape && t.shape.len() <= isize::MAX);
            lemma_select_products(q, a, c, t, v, rule, ts);
            assert(w =~= seq![q, a, c]);
        },
    }
}

// ---- accumulation ----
/// Whether the cotangents that variables have fill their shapes.
pub open spec fn cot_ok<S>(cot: Map<Seq<char>, TensorV<S>>, b: BuilderV<S>) -> bool {
    &&& forall|i: int|
        0 <= i < b.invars.len() && cot.dom().contains((#[trigger] b.invars[i]).name) ==> fills(
            cot[b.invars[i].name],
            b.invars[i].shape,
        )
    &&& forall|j: int|
        0 <= j < b.equations.len() && cot.dom().contains((#[trigger] b.equations[j]).out.name)
            ==> fills(cot[b.equations[j].out.name], b.equations[j].out.shape)
}

/// A variable of a graph has one shape.
proof fn lemma_one_shape<S: Scalar>(b: BuilderV<S>, a: AtomV<S>)
    requires
        shaping::all_plain(b),
        named_apart(b.invars),
        a.value is None,
        shaping::known(b, a, b.equations.len() as int),
    ensures
        forall|i: int|
            0 <= i < b.invars.len() && (#[trigger] b.invars[i]).name == a.name ==> b.invars[i].shape
                == a.shape,
        forall|j: int|
            0 <= j < b.equations.len() && (#[trigger] b.equations[j]).out.name == a.name
                ==> b.equations[j].out.shape == a.shape,
{
    if exists|i: int| 0 <= i < b.invars.len() && #[trigger] b.invars[i] == a {
        let k = choose|i: int| 0 <= i < b.invars.len() && #[trigger] b.invars[i] == a;
        assert forall|i: int| 0 <= i < b.invars.len() && (#[trigger] b.invars[i]).name
            == a.name implies b.invars[i].shape == a.shape by {
            if i < k {
                assert(b.invars[i].name != b.invars[k].name);
            } else if k < i {
                assert(b.invars[k].name != b.invars[i].name);
            }
        }
        assert forall|j: int| 0 <= j < b.equations.len() && (#[trigger] b.equations[j]).out.name
            == a.name implies b.equations[j].out.shape == a.shape by {
            assert(shaping::eqn_plain(b, j));
            lemma_beside(b, k, j);
        }
    } else {
        let k = choose|k: int| 0 <= k < b.equations.len() && (#[trigger] b.equations[k]).out == a;
        assert(shaping::eqn_plain(b, k));
        assert forall|i: int| 0 <= i < b.invars.len() && (#[trigger] b.invars[i]).name
            == a.name implies b.invars[i].shape == a.shape by {
            lemma_beside(b, i, k);
        }
        assert forall|j: int| 0 <= j < b.equations.len() && (#[trigger] b.equations[j]).out.name
            == a.name implies b.equations[j].out.shape == a.shape by {
            assert(shaping::eqn_plain(b, j));
            let first = tracer::first_number(tracer::atom_names(b.invars));
            lemma_generated((first + j) as nat, (first + k) as nat);
        }
    }
}

/// One operand gets a cotangent.
proof fn lemma_accumulated_ok<S: Scalar>(
    cot: Map<Seq<char>, TensorV<S>>,
    b: BuilderV<S>,
    a: AtomV<S>,
    t: TensorV<S>,
)
    requires
        shaping::all_plain(b),
        named_apart(b.invars),
        shaping::known(b, a, b.equations.len() as int),
        cot_ok(cot, b),
        goes_back(t, a.shape),
    ensures
        grad::accumulated(cot, a, t) matches Ok(m) ==> cot_ok(m, b),
{
    if a.value is None {
        shaping::lemma_unbroadcast_shape::<S, Tensor<S>>((), t, a.shape);
        lemma_one_shape(b, a);
        pairing::lemma_same_shape(a.shape);
        if let Ok(u) = vjp::unbroadcasted::<S, Tensor<S>>((), t, a.shape).1 {
            assert(fills(u, a.shape));
            if cot.dom().contains(a.name) {
                let c = cot[a.name];
                assert(fills(c, a.shape)) by {
                    if exists|i: int| 0 <= i < b.invars.len() && #[trigger] b.invars[i] == a {
                        let i = choose|i: int|
                            0 <= i < b.invars.len() && #[trigger] b.invars[i] == a;
                        assert(b.invars[i].name == a.name);
                    } else {
                        let k = choose|k: int|
                            0 <= k < b.equations.len() && (#[trigger] b.equations[k]).out == a;
                        assert(b.equations[k].out.name == a.name);
                    }
                }
                Tensor::<S>::law_binary((), BinOpV::Add, c, u);
            }
        }
    }
}

/// The first `k` operands get cotangents.
proof fn lemma_accumulated_all_ok<S: Scalar>(
    cot: Map<Seq<char>, TensorV<S>>,
    b: BuilderV<S>,
    atoms: Seq<AtomV<S>>,
    ts: Seq<TensorV<S>>,
    k: nat,
)
    requires
        shaping::all_plain(b),
        named_apart(b.invars),
        forall|i: int|
            0 <= i < atoms.len() ==> shaping::known(
                b,
                #[trigger] atoms[i],
                b.equations.len() as int,
            ),
        cot_ok(cot, b),
        all_return(ts, atoms),
        k <= atoms.len(),
    ensures
        grad::accumulated_all(cot, atoms, ts, k) matches Ok(m) ==> cot_ok(m, b),
    decreases k,
{
    if k > 0 {
        lemma_accumulated_all_ok(cot, b, atoms, ts, (k - 1) as nat);
        if let Ok(m) = grad::accumulated_all(cot, atoms, ts, (k - 1) as nat) {
            assert(goes_back(ts[k - 1], atoms[k - 1].shape));
            lemma_accumulated_ok(m, b, atoms[k - 1], ts[k - 1]);
        }
    }
}

/// What is known of the first equations is known of all.
proof fn lemma_known_more<S: Scalar>(b: BuilderV<S>, a: AtomV<S>, j: int)
    requires
        0 <= j <= b.equations.len(),
        shaping::known(b, a, j),
    ensures
        shaping::known(b, a, b.equations.len() as int),
{
    if a.value is None && !exists|i: int| 0 <= i < b.invars.len() && #[trigger] b.invars[i] == a {
        let k = choose|k: int| 0 <= k < j && (#[trigger] b.equations[k]).out == a;
        assert(b.equations[k].out == a);
    }
}

/// Cotangents go back through the first `k` equations.
proof fn lemma_backward_ok<S: Scalar>(
    e: Map<Seq<char>, TensorV<S>>,
    cot: Map<Seq<char>, TensorV<S>>,
    b: BuilderV<S>,
    k: nat,
)
    requires
        k <= b.equations.len(),
        shaping::all_plain(b),
        named_apart(b.invars),
        env_ok(e, b, b.equations.len() as int),
        cot_ok(cot, b),
    ensures
        grad::backward(b.equations, e, cot, k) matches Ok(m) ==> cot_ok(m, b),
    decreases k,
{
    if k > 0 {
        let j = k - 1;
        let eqn = b.equations[j];
        assert(shaping::eqn_plain(b, j));
        if !cot.dom().contains(eqn.out.name) {
            lemma_backward_ok(e, cot, b, j as nat);
        } else if let Ok(ts) = vjp::vjp_values::<S, Tensor<S>>(
            (),
            eqn.prim,
            eqn.out,
            e,
            cot,
        ).1 {
            let atoms = nn::operands_of(eqn.prim);
            lemma_eqn_products(e, cot, b, j, ts);
            assert forall|i: int| 0 <= i < atoms.len() implies shaping::known(
                b,
                #[trigger] atoms[i],
                b.equations.len() as int,
            ) by {
                lemma_known_more(b, atoms[i], j);
            }
            lemma_accumulated_all_ok(cot, b, atoms, ts, atoms.len());
            if let Ok(m) = grad::accumulated_all(cot, atoms, ts, atoms.len()) {
                lemma_backward_ok(e, m, b, j as nat);
            }
        }
    }
}

/// The gradients of the first `k` inputs.
proof fn lemma_gradients_ok<S: Scalar>(cot: Map<Seq<char>, TensorV<S>>, b: BuilderV<S>, k: nat)
    requires
        k <= b.invars.len(),
        shaping::all_plain(b),
        cot_ok(cot, b),
    ensures
        grad::gradients(b.invars, cot, k) matches Ok(gs) ==> gs.len() == k && forall|i: int|
            0 <= i < k ==> fills(#[trigger] gs[i], b.invars[i].shape),
    decreases k,
{
    if k > 0 {
        lemma_gradients_ok(cot, b, (k - 1) as nat);
        assert(support::dense(b.invars[k - 1].shape));
    }
}

/// The gradients of a traced computation have the shapes of its inputs.
pub proof fn lemma_loss_gradients<S: Scalar>(
    b: BuilderV<S>,
    out: tracer::TracerV<S>,
    inputs: Seq<TensorV<S>>,
)
    requires
        shaping::all_plain(b),
        shaping::placed(b, out),
        named_apart(b.invars),
        inputs.len() == b.invars.len(),
        forall|i: int| 0 <= i < inputs.len() ==> fills(#[trigger] inputs[i], b.invars[i].shape),
    ensures
        grad::loss_gradients(
            GraphV { invars: b.invars, outvars: seq![out.atom], equations: b.equations },
            inputs,
            None,
        ) matches Ok(gs) ==> gs.len() == b.invars.len() && forall|i: int|
            0 <= i < gs.len() ==> fills(#[trigger] gs[i], b.invars[i].shape),
{
    let g = GraphV { invars: b.invars, outvars: seq![out.atom], equations: b.equations };
    let given = eval::bound(b.invars, inputs, inputs.len());
    lemma_bound_ok(b, inputs, inputs.len());
    lemma_loss_forward(given, b, 0);
    reveal_with_fuel(grad::seeds, 2);
    if let Ok(e) = eval::environment::<S, Tensor<S>>((), g, inputs).1 {
        if let Ok(start) = grad::seeds(g.outvars, e, None, 1) {
            assert(cot_ok(start, b)) by {
                if out.atom.value is None {
                    lemma_one_shape(b, out.atom);
                }
            }
            lemma_backward_ok(e, start, b, b.equations.len());
            if let Ok(cot) = grad::backward(b.equations, e, start, b.equations.len()) {
                lemma_gradients_ok(cot, b, b.invars.len());
            }
        }
    }
}

/// The first `k` inputs.
proof fn lemma_bound_ok<S: Scalar>(b: BuilderV<S>, inputs: Seq<TensorV<S>>, k: nat)
    requires
        k <= inputs.len(),
        named_apart(b.invars),
        inputs.len() == b.invars.len(),
        forall|i: int| 0 <= i < inputs.len() ==> fills(#[trigger] inputs[i], b.invars[i].shape),
    ensures
        forall|i: int|
            0 <= i < k ==> {
                let e = eval::bound(b.invars, inputs, k);
                e.dom().contains((#[trigger] b.invars[i]).name) && fills(
                    e[b.invars[i].name],
                    b.invars[i].shape,
                )
            },
    decreases k,
{
    if k > 0 {
        lemma_bound_ok(b, inputs, (k - 1) as nat);
        assert(fills(inputs[k - 1], b.invars[k - 1].shape));
        assert forall|i: int| 0 <= i < k implies ({
            let e = eval::bound(b.invars, inputs, k);
            e.dom().contains((#[trigger] b.invars[i]).name) && fills(
                e[b.invars[i].name],
                b.invars[i].shape,
            )
        }) by {
            if i < k - 1 {
                assert(b.invars[i].name != b.invars[k - 1].name);
            }
        }
    }
}

} // verus!
