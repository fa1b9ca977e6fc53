//! Programs of bound propagation succeed.

use vstd::prelude::*;
use crate::affine;
use crate::crown;
use crate::crown::WalkV;
use crate::interval::IBPV;
use crate::layer_walk;
use crate::layer_walk::{all_fits, fills, point};
use crate::layered;
use crate::model;
use crate::model::{BinOpV, Fault, TensorV, UnOpV};
use crate::nn::{AtomV, EqnV};
use crate::pairing;
use crate::scalar;
use crate::scalar::Scalar;
use crate::shape;
use crate::shaping;
use crate::shaping::Shaped;
use crate::support;
use crate::tensor::Tensor;
use crate::value;
use crate::value::{Reg, StepV};
use crate::vjp;
use crate::vjp::RuleV;

verus! {

// ---- programs ----
/// Whether the steps of a program that check the size of their result have results that fit.
pub open spec fn rooms<S>(steps: Seq<StepV<S>>, ss: Seq<Seq<usize>>) -> bool {
    forall|i: int|
        0 <= i < steps.len() && ((#[trigger] steps[i]) is Bin || steps[i] is Select) ==> shape::fits(
            ss[i],
        )
}

/// An operation on one tensor succeeds.
proof fn lemma_un_succeeds<S: Scalar>(op: UnOpV<S>, x: TensorV<S>)
    requires
        shaping::un_plain(op, x.shape) is Some,
    ensures
        model::un_tensor(op, x) is Ok,
{
}

/// An operation on two tensors succeeds where its result fits the machine.
proof fn lemma_bin_succeeds<S: Scalar>(op: BinOpV, x: TensorV<S>, y: TensorV<S>)
    requires
        shaping::bin_plain(op, x.shape, y.shape) is Some,
        shape::fits(shaping::bin_plain(op, x.shape, y.shape)->0),
    ensures
        model::bin_tensor(op, x, y) is Ok,
{
    let (a, b) = (x.shape, y.shape);
    if op is Dot && b.len() == 2 {
        assert(a.drop_last() + b.subrange(0, 0) + seq![b.last()] =~= a.drop_last().push(b[1]));
    }
}

/// One step of a program succeeds.
#[verifier::spinoff_prover]
#[verifier::rlimit(40)]
proof fn lemma_step_succeeds<S: Scalar>(
    s: StepV<S>,
    ins: Seq<TensorV<S>>,
    done: Seq<TensorV<S>>,
    si: Seq<Seq<usize>>,
    sd: Seq<Seq<usize>>,
)
    requires
        shaping::all_ok::<S, Tensor<S>>((), ins, si),
        shaping::all_ok::<S, Tensor<S>>((), done, sd),
        shaping::step_plain(s, si, sd) is Some,
        s is Bin || s is Select ==> shape::fits(shaping::step_plain(s, si, sd)->0),
    ensures
        value::step::<S, Tensor<S>>((), s, ins, done).1 is Ok,
{
    match s {
        StepV::Bin(op, r, q) => {
            let (x, y) = (value::fetched(r, ins, done)->0, value::fetched(q, ins, done)->0);
            assert(value::fetched(r, si, sd) == Some(x.shape));
            assert(value::fetched(q, si, sd) == Some(y.shape));
            lemma_bin_succeeds(op, x, y);
        },
        StepV::Select(p, r, q) => {
            let (c, x, y) = (
                value::fetched(p, ins, done)->0,
                value::fetched(r, ins, done)->0,
                value::fetched(q, ins, done)->0,
            );
            assert(value::fetched(p, si, sd) == Some(c.shape));
            assert(value::fetched(r, si, sd) == Some(x.shape));
            assert(value::fetched(q, si, sd) == Some(y.shape));
            pairing::lemma_same_shape(x.shape);
        },
        StepV::SumAll(r) => {
            let x = value::fetched(r, ins, done)->0;
            assert(value::fetched(r, si, sd) == Some(x.shape));
            shaping::lemma_all_axes(x.shape);
            lemma_un_succeeds(UnOpV::ReduceSum(value::all_axes(x.shape.len())), x);
        },
        StepV::Un(op, r) => {
            let x = value::fetched(r, ins, done)->0;
            assert(value::fetched(r, si, sd) == Some(x.shape));
            lemma_un_succeeds(op, x);
        },
        _ => {},
    }
}

/// The rest of a program succeeds.
proof fn lemma_play_succeeds<S: Scalar>(
    steps: Seq<StepV<S>>,
    ins: Seq<TensorV<S>>,
    done: Seq<TensorV<S>>,
    si: Seq<Seq<usize>>,
    ss: Seq<Seq<usize>>,
)
    requires
        shaping::shaped_by(steps, si, ss),
        rooms(steps, ss),
        shaping::all_ok::<S, Tensor<S>>((), ins, si),
        done.len() <= steps.len(),
        shaping::all_ok::<S, Tensor<S>>((), done, ss.subrange(0, done.len() as int)),
    ensures
        value::play::<S, Tensor<S>>((), steps, ins, done).1 matches Ok(all) && all.len()
            == steps.len(),
    decreases steps.len() - done.len(),
{
    let n = done.len() as int;
    if n < steps.len() {
        let s = steps[n];
        let sd = ss.subrange(0, n);
        assert(shaping::step_shaped(steps, si, ss, n));
        shaping::lemma_looks_back(s, si, ss, n);
        lemma_step_succeeds(s, ins, done, si, sd);
        shaping::lemma_step_shape::<S, Tensor<S>>((), s, ins, done, si, sd);
        let y = value::step::<S, Tensor<S>>((), s, ins, done).1->Ok_0;
        assert(shaping::all_ok::<S, Tensor<S>>((), done.push(y), ss.subrange(0, n + 1)));
        lemma_play_succeeds(steps, ins, done.push(y), si, ss);
    }
}

/// A program succeeds where the shapes of its results fit the machine.
pub proof fn lemma_run_succeeds<S: Scalar>(
    steps: Seq<StepV<S>>,
    ins: Seq<TensorV<S>>,
    si: Seq<Seq<usize>>,
    ss: Seq<Seq<usize>>,
)
    requires
        shaping::shaped_by(steps, si, ss),
        rooms(steps, ss),
        shaping::all_ok::<S, Tensor<S>>((), ins, si),
    ensures
        value::run_steps::<S, Tensor<S>>((), steps, ins).1 matches Ok(all) && all.len()
            == steps.len(),
{
    assert(ss.subrange(0, 0) =~= Seq::<Seq<usize>>::empty());
    lemma_play_succeeds(steps, ins, Seq::empty(), si, ss);
}

/// Results are picked from where they are.
proof fn lemma_picked_succeeds<S>(
    outs: Seq<Reg>,
    ins: Seq<TensorV<S>>,
    done: Seq<TensorV<S>>,
    k: nat,
)
    requires
        k <= outs.len(),
        forall|i: int| 0 <= i < outs.len() ==> value::fetched(#[trigger] outs[i], ins, done) is Some,
    ensures
        vjp::picked_all(outs, ins, done, k) matches Ok(v) && v.len() == k,
    decreases k,
{
    if k > 0 {
        lemma_picked_succeeds(outs, ins, done, (k - 1) as nat);
        assert(value::fetched(outs[k - 1], ins, done) is Some);
    }
}

/// A program with places succeeds.
pub proof fn lemma_applied_succeeds<S: Scalar>(
    rule: RuleV<S>,
    ins: Seq<TensorV<S>>,
    si: Seq<Seq<usize>>,
    ss: Seq<Seq<usize>>,
)
    requires
        shaping::shaped_by(rule.steps, si, ss),
        rooms(rule.steps, ss),
        shaping::all_ok::<S, Tensor<S>>((), ins, si),
        forall|i: int|
            0 <= i < rule.outs.len() ==> shaping::behind(
                #[trigger] rule.outs[i],
                rule.steps.len() as int,
            ) && (rule.outs[i] matches Reg::In(k) ==> k < ins.len()),
    ensures
        vjp::applied::<S, Tensor<S>>((), rule, ins).1 matches Ok(v) && v.len() == rule.outs.len(),
{
    lemma_run_succeeds(rule.steps, ins, si, ss);
    let done = value::run_steps::<S, Tensor<S>>((), rule.steps, ins).1->Ok_0;
    lemma_picked_succeeds(rule.outs, ins, done, rule.outs.len());
}

/// Shapes that all fit leave room.
pub proof fn lemma_rooms<S>(steps: Seq<StepV<S>>, ss: Seq<Seq<usize>>)
    requires
        all_fits(ss),
        ss.len() == steps.len(),
    ensures
        rooms(steps, ss),
{
}

// ---- walks ----
/// An operand takes over a weight.
proof fn lemma_absorbed_succeeds<S: Scalar>(
    at: WalkV<S, TensorV<S>>,
    a: AtomV<S>,
    w: TensorV<S>,
    b: TensorV<S>,
    input: AtomV<S>,
    eqns: Seq<EqnV<S>>,
    j: int,
)
    requires
        layer_walk::walk_ok::<S, Tensor<S>>((), at, input, eqns),
        0 <= j <= eqns.len(),
        layered::well_shaped(a),
        layered::declared(input, eqns, a, j),
        fills(w, w.shape),
        w.shape.len() <= isize::MAX,
        shape::expands_to(a.shape, w.shape),
        fills(b, point()),
    ensures
        crown::absorbed::<S, Tensor<S>>((), at, a, w, b).1 is Ok,
{
    let s = a.shape;
    layer_walk::lemma_meets(s);
    layer_walk::lemma_point_fits();
    let ss = shaping::lemma_chain_shapes::<S>(w.shape, s);
    let ops = vjp::unbroadcast_ops::<S>(w.shape, s)->Ok_0;
    let steps = vjp::chain(ops, Reg::In(0), 0);
    assert(shaping::all_ok::<S, Tensor<S>>((), seq![w], seq![w.shape]));
    assert(rooms(steps, ss)) by {
        assert forall|i: int|
            0 <= i < steps.len() && ((#[trigger] steps[i]) is Bin || steps[i]
                is Select) implies shape::fits(ss[i]) by {
            assert(steps[i] is Un);
        }
    }
    lemma_run_succeeds(steps, seq![w], seq![w.shape], ss);
    shaping::lemma_unbroadcast_shape::<S, Tensor<S>>((), w, s);
    let in_w = vjp::unbroadcasted::<S, Tensor<S>>((), w, s).1->Ok_0;
    <Tensor<S> as Shaped<S>>::law_binary((), BinOpV::Add, at.bias, b);
    let bias = model::bin_tensor(BinOpV::Add, at.bias, b)->Ok_0;
    match a.value {
        Some(k) => {
            let ins = seq![k, in_w, bias];
            let (si, st) = (seq![s, s, point()], seq![s, point(), point()]);
            layer_walk::lemma_absorb_program::<S>(s);
            assert(shaping::all_ok::<S, Tensor<S>>((), ins, si));
            assert forall|i: int| 0 <= i < 3 implies shape::fits(#[trigger] st[i]) by {
                if i == 0 {
                    assert(st[0] == s);
                } else {
                    assert(st[i] == point());
                }
            }
            lemma_rooms(crown::absorb_steps::<S>(), st);
            lemma_run_succeeds(crown::absorb_steps::<S>(), ins, si, st);
        },
        None => {
            if at.weights.dom().contains(a.name) {
                let k = choose|k: int|
                    0 <= k <= j && #[trigger] support::variable(input.name, eqns, k) == a.name
                        && layered::shape_at(input, eqns, k) == a.shape;
                assert(at.weights[a.name].shape == s);
            }
        },
    }
}

/// The first `k` operands take over their parts.
pub proof fn lemma_absorbed_all_succeeds<S: Scalar>(
    at: WalkV<S, TensorV<S>>,
    atoms: Seq<AtomV<S>>,
    parts: Seq<TensorV<S>>,
    k: nat,
    input: AtomV<S>,
    eqns: Seq<EqnV<S>>,
    j: int,
)
    requires
        layer_walk::walk_ok::<S, Tensor<S>>((), at, input, eqns),
        support::distinct(input.name, eqns),
        0 <= j <= eqns.len(),
        k <= atoms.len(),
        forall|i: int|
            0 <= i < atoms.len() ==> layered::well_shaped(#[trigger] atoms[i])
                && layered::declared(input, eqns, atoms[i], j),
        layer_walk::parts_ok::<S, Tensor<S>>((), parts, atoms),
    ensures
        crown::absorbed_all::<S, Tensor<S>>((), at, atoms, parts, k).1 is Ok,
    decreases k,
{
    if k > 0 {
        let i = k - 1;
        lemma_absorbed_all_succeeds(at, atoms, parts, i as nat, input, eqns, j);
        layer_walk::lemma_absorbed_all_ok::<S, Tensor<S>>(
            (),
            at,
            atoms,
            parts,
            i as nat,
            input,
            eqns,
            j,
        );
        let next = crown::absorbed_all::<S, Tensor<S>>((), at, atoms, parts, i as nat).1->Ok_0;
        assert(layer_walk::part_ok::<S, Tensor<S>>((), parts, atoms, i));
        assert(layered::well_shaped(atoms[i]));
        lemma_absorbed_succeeds(next, atoms[i], parts[2 * i], parts[2 * i + 1], input, eqns, j);
    }
}

/// The program of a contraction can be had and succeeds.
#[verifier::spinoff_prover]
#[verifier::rlimit(80)]
pub proof fn lemma_dot_succeeds<S: Scalar>(
    x: IBPV<S>,
    y: IBPV<S>,
    w: TensorV<S>,
    out: Seq<usize>,
)
    requires
        layered::spans(x, x.lb.shape),
        layered::spans(y, y.lb.shape),
        support::dense(x.lb.shape),
        support::dense(y.lb.shape),
        1 <= x.lb.shape.len() <= 2,
        1 <= y.lb.shape.len() <= 2,
        shape::fits(x.lb.shape),
        shape::fits(y.lb.shape),
        model::dot_shape(x.lb.shape, y.lb.shape) == Ok::<Seq<usize>, Fault>(out),
        fills(w, out),
    ensures
        affine::dot_rule(x, y) matches Ok(rule) && (vjp::applied::<S, Tensor<S>>(
            (),
            rule,
            seq![w],
        ).1 matches Ok(parts) && parts.len() == 4),
{
    lemma_dot_rule(x, y, out);
    let rule = affine::dot_rule(x, y)->Ok_0;
    let ss = layer_walk::lemma_dot_parts(x, y, rule, out);
    assert(shape::fits(out));
    lemma_rooms(rule.steps, ss);
    assert(shaping::all_ok::<S, Tensor<S>>((), seq![w], seq![out]));
    lemma_dot_outs(x, y, rule);
    lemma_applied_succeeds(rule, seq![w], seq![out], ss);
}

/// The constants of a contraction can be computed.
proof fn lemma_dot_rule<S: Scalar>(x: IBPV<S>, y: IBPV<S>, out: Seq<usize>)
    requires
        layered::spans(x, x.lb.shape),
        layered::spans(y, y.lb.shape),
        support::dense(x.lb.shape),
        support::dense(y.lb.shape),
        1 <= x.lb.shape.len() <= 2,
        1 <= y.lb.shape.len() <= 2,
        shape::fits(x.lb.shape),
        model::dot_shape(x.lb.shape, y.lb.shape) == Ok::<Seq<usize>, Fault>(out),
    ensures
        affine::dot_rule(x, y) is Ok,
{
    reveal(affine::dot_rule);
    let (a, b) = (x.lb.shape, y.lb.shape);
    if a.len() == 1 && b.len() == 1 {
        reveal(affine::mul_rule);
        assert(a =~= b);
        pairing::lemma_same_shape(a);
    } else {
        if a.len() == 1 {
            let (n, m) = (a[0], b[1]);
            shaping::lemma_expand_plain::<S>(a, 1);
            let (t, u) = (
                model::un_tensor(UnOpV::MoveAxis(0, 1), y.lb)->Ok_0,
                model::un_tensor(UnOpV::MoveAxis(0, 1), y.ub)->Ok_0,
            );
            layer_walk::lemma_turn_fills(y.lb, t);
            layer_walk::lemma_turn_fills(y.ub, u);
            assert(seq![m, n].drop_last() =~= seq![m]);
            assert(out =~= seq![m]);
        } else if b.len() == 1 {
            shaping::lemma_expand_plain::<S>(b, 0);
        }
    }
}

/// Where the results of the program of a contraction stand.
proof fn lemma_dot_outs<S: Scalar>(x: IBPV<S>, y: IBPV<S>, rule: RuleV<S>)
    requires
        affine::dot_rule(x, y) == Ok::<RuleV<S>, Fault>(rule),
    ensures
        forall|i: int|
            0 <= i < rule.outs.len() ==> shaping::behind(
                #[trigger] rule.outs[i],
                rule.steps.len() as int,
            ) && rule.outs[i] is Out,
{
    reveal(affine::dot_rule);
    let (a, b) = (x.lb.shape.len(), y.lb.shape.len());
    if affine::dot_is_product(a, b) {
        lemma_product_outs(x, y, rule);
    } else {
        let form = affine::dot_form(a, b);
        lemma_form_outs(form, affine::dot_constants(form, x, y)->Ok_0);
    }
}

/// Where the results of the program of a product stand.
proof fn lemma_product_outs<S: Scalar>(x: IBPV<S>, y: IBPV<S>, rule: RuleV<S>)
    requires
        affine::mul_rule(x, y) == Ok::<RuleV<S>, Fault>(rule),
    ensures
        forall|i: int|
            0 <= i < rule.outs.len() ==> shaping::behind(
                #[trigger] rule.outs[i],
                rule.steps.len() as int,
            ) && rule.outs[i] is Out,
{
    reveal(affine::mul_rule);
    assert(rule.steps.len() == 18);
    assert(rule.outs == seq![Reg::Out(7), Reg::Out(16), Reg::Out(9), Reg::Out(17)]);
}

/// Where the results of the program of a contraction of one form stand.
proof fn lemma_form_outs<S: Scalar>(form: affine::DotForm, k: affine::DotV<S>)
    ensures
        ({
            let rule = affine::dot_program(form, k);
            forall|i: int|
                0 <= i < rule.outs.len() ==> shaping::behind(
                    #[trigger] rule.outs[i],
                    rule.steps.len() as int,
                ) && rule.outs[i] is Out
        }),
{
    reveal(affine::dot_program);
    let rule = affine::dot_program(form, k);
    let n = affine::split_steps::<S>().len() + affine::dot_weights(form, k).len();
    assert(10 <= n <= 12);
    assert(affine::dot_bias(k, n as int).len() == 10);
    assert(rule.steps.len() == n + 10);
    assert(rule.outs.len() == 4);
}

/// The program of a negation succeeds.
pub proof fn lemma_neg_succeeds<S: Scalar>(rule: RuleV<S>, w: TensorV<S>)
    requires
        fills(w, w.shape),
        crown::without_bias(
            Ok(
                RuleV {
                    steps: seq![StepV::<S>::Un(UnOpV::Neg, Reg::In(0))],
                    outs: seq![Reg::Out(0)],
                },
            ),
        ) == Ok::<RuleV<S>, Fault>(rule),
    ensures
        vjp::applied::<S, Tensor<S>>((), rule, seq![w]).1 is Ok,
{
    let s = w.shape;
    let (ins, si, ss) = (seq![w], seq![s], seq![s, point()]);
    layer_walk::lemma_meets(s);
    assert(rule.steps[1] == vjp::load_number(scalar::zero::<S>()));
    assert(shaping::step_shaped(rule.steps, si, ss, 0));
    assert(shaping::step_shaped(rule.steps, si, ss, 1));
    assert(shaping::all_ok::<S, Tensor<S>>((), ins, si));
    lemma_applied_succeeds(rule, ins, si, ss);
}

/// The program of a sum succeeds.
pub proof fn lemma_sum_succeeds<S: Scalar>(rule: RuleV<S>, w: TensorV<S>, a: AtomV<S>, b: AtomV<S>)
    requires
        fills(w, w.shape),
        crown::binary_rule(BinOpV::Add, a, b, Map::empty()) == Ok::<RuleV<S>, Fault>(rule),
    ensures
        vjp::applied::<S, Tensor<S>>((), rule, seq![w]).1 is Ok,
{
    let (ins, si, ss) = (seq![w], seq![w.shape], seq![point()]);
    layer_walk::lemma_meets(w.shape);
    assert(rule.steps[0] == vjp::load_number(scalar::zero::<S>()));
    assert(shaping::step_shaped(rule.steps, si, ss, 0));
    assert(shaping::all_ok::<S, Tensor<S>>((), ins, si));
    lemma_applied_succeeds(rule, ins, si, ss);
}

} // verus!
