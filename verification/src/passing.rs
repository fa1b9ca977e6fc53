//! What operations pass on: the cotangents of operands pair with changes of the operands as the
//! cotangent of the result pairs with its change, in exact arithmetic.

use vstd::prelude::*;
use crate::chaining::{backed, suits, turned, turns};
use crate::derivatives;
use crate::env;
use crate::exact;
use crate::model;
use crate::model::{BinOpV, Fault, TensorV, UnOpV};
use crate::nn;
use crate::nn::{AtomV, EqnV, PrimV};
use crate::pairing;
use crate::reals;
use crate::scalar::Scalar;
use crate::shape;
use crate::sums;
use crate::support;
use crate::tensor::Tensor;
use crate::value::Reg;
use crate::vjp;
use crate::vjp::RuleV;

verus! {

// ---- operations ----
/// The change of element `i` of an operand, none where it is a constant.
pub open spec fn shift<S>(
    v: spec_fn(S) -> real,
    d: Map<Seq<char>, TensorV<S>>,
    a: AtomV<S>,
    i: int,
) -> real {
    if a.value is Some {
        0real
    } else {
        v(d[a.name].data[i])
    }
}

/// Whether an operand is a constant, or has a change.
pub open spec fn changes<S>(d: Map<Seq<char>, TensorV<S>>, a: AtomV<S>) -> bool {
    a.value is Some || suits(d[a.name], a.shape)
}

/// Whether an operand has a value of its shape.
pub open spec fn has_value<S: Scalar>(
    primals: Map<Seq<char>, TensorV<S>>,
    a: AtomV<S>,
    x: TensorV<S>,
) -> bool {
    env::resolved::<S, Tensor<S>>(primals, a) == Ok::<TensorV<S>, Fault>(x) && suits(x, a.shape)
}

/// The inner product with the change of an operand, element by element.
pub open spec fn shifted<S>(
    v: spec_fn(S) -> real,
    d: Map<Seq<char>, TensorV<S>>,
    a: AtomV<S>,
    w: TensorV<S>,
) -> real {
    sums::sum(
        |r: int| v(w.data[r]) * shift(v, d, a, shape::source_index(r, w.shape, a.shape)),
        w.data.len(),
    )
}

/// What the cotangent of an operand makes.
pub(crate) proof fn lemma_shifted<S: Scalar>(
    v: spec_fn(S) -> real,
    d: Map<Seq<char>, TensorV<S>>,
    a: AtomV<S>,
    w: TensorV<S>,
)
    requires
        changes(d, a),
    ensures
        (if a.value is Some {
            0real
        } else {
            pairing::spread(v, w, d[a.name])
        }) == shifted(v, d, a, w),
{
    let h = |r: int| v(w.data[r]) * shift(v, d, a, shape::source_index(r, w.shape, a.shape));
    if a.value is Some {
        assert forall|r: int| 0 <= r < w.data.len() implies #[trigger] h(r) == 0real by {
            exact::lemma_units(v(w.data[r]), 0real);
        }
        sums::lemma_sum_zero(h, w.data.len());
    } else {
        let x = d[a.name];
        let f = |r: int| v(w.data[r]) * v(x.data[shape::source_index(r, w.shape, x.shape)]);
        assert forall|r: int| 0 <= r < w.data.len() implies #[trigger] f(r) == h(r) by {}
        sums::lemma_sum_same(f, h, w.data.len());
    }
}

/// What the cotangents of two operands make.
proof fn lemma_backed_two<S: Scalar>(
    v: spec_fn(S) -> real,
    ts: Seq<TensorV<S>>,
    atoms: Seq<AtomV<S>>,
    d: Map<Seq<char>, TensorV<S>>,
)
    ensures
        backed(v, ts, atoms, d, 2) == (if atoms[0].value is Some {
            0real
        } else {
            pairing::spread(v, ts[0], d[atoms[0].name])
        }) + (if atoms[1].value is Some {
            0real
        } else {
            pairing::spread(v, ts[1], d[atoms[1].name])
        }),
{
    reveal_with_fuel(backed, 3);
}

/// A sum passes on the sum of the changes of its operands.
#[verifier::spinoff_prover]
#[verifier::rlimit(80)]
pub proof fn lemma_sum_turned<S: Scalar>(
    v: spec_fn(S) -> real,
    a: AtomV<S>,
    b: AtomV<S>,
    out: AtomV<S>,
    primals: Map<Seq<char>, TensorV<S>>,
    d: Map<Seq<char>, TensorV<S>>,
)
    requires
        exact::exact(v),
        out.value is None,
        shape::broadcast(a.shape, b.shape) == Some(out.shape),
        changes(d, a),
        changes(d, b),
        forall|r: int|
            0 <= r < shape::product(out.shape) ==> v(#[trigger] d[out.name].data[r]) == shift(
                v,
                d,
                a,
                shape::source_index(r, out.shape, a.shape),
            ) + shift(v, d, b, shape::source_index(r, out.shape, b.shape)),
    ensures
        turned(v, EqnV { prim: PrimV::Bin(BinOpV::Add, a, b), out }, primals, d),
{
    let e = EqnV { prim: PrimV::Bin(BinOpV::Add, a, b), out };
    shape::lemma_broadcast_expands(a.shape, b.shape);
    assert forall|cot: Map<Seq<char>, TensorV<S>>|
        cot.dom().contains(out.name) && suits(cot[out.name], out.shape) implies #[trigger] turns(
        v,
        e,
        primals,
        d,
        cot,
    ) by {
        let t = cot[out.name];
        if let Ok(ts) = vjp::vjp_values::<S, Tensor<S>>((), e.prim, out, primals, cot).1 {
            let ins = seq![t] + Seq::<TensorV<S>>::empty();
            let rule = RuleV::<S> { steps: seq![], outs: seq![Reg::In(0), Reg::In(0)] };
            assert(vjp::vjp_rule(e.prim, vjp::shapes_of::<S, Tensor<S>>(ins)) == Ok::<
                RuleV<S>,
                Fault,
            >(rule));
            let all = pairing::lemma_applied(rule, ins, ts);
            assert(ts[0] == t && ts[1] == t);
            lemma_backed_two(v, ts, seq![a, b], d);
            lemma_shifted(v, d, a, t);
            lemma_shifted(v, d, b, t);
            let f = |r: int| v(t.data[r]) * shift(v, d, a, shape::source_index(r, t.shape, a.shape));
            let g = |r: int| v(t.data[r]) * shift(v, d, b, shape::source_index(r, t.shape, b.shape));
            let h = |r: int| v(t.data[r]) * v(d[out.name].data[r]);
            assert forall|r: int| 0 <= r < t.data.len() implies #[trigger] h(r) == f(r) + g(r) by {
                let (p, q) = (
                    shift(v, d, a, shape::source_index(r, out.shape, a.shape)),
                    shift(v, d, b, shape::source_index(r, out.shape, b.shape)),
                );
                assert(v(d[out.name].data[r]) == p + q);
                exact::lemma_distribute(v(t.data[r]), p, q);
            }
            sums::lemma_sum_plus(f, g, h, t.data.len());
        }
    }
}

/// The cotangents of the operands of a product.
#[verifier::spinoff_prover]
#[verifier::rlimit(60)]
proof fn lemma_product_steps<S: Scalar>(
    a: AtomV<S>,
    b: AtomV<S>,
    out: AtomV<S>,
    primals: Map<Seq<char>, TensorV<S>>,
    cot: Map<Seq<char>, TensorV<S>>,
    x: TensorV<S>,
    y: TensorV<S>,
    t: TensorV<S>,
    ts: Seq<TensorV<S>>,
)
    requires
        env::resolved::<S, Tensor<S>>(primals, a) == Ok::<TensorV<S>, Fault>(x),
        env::resolved::<S, Tensor<S>>(primals, b) == Ok::<TensorV<S>, Fault>(y),
        env::resolved::<S, Tensor<S>>(cot, out) == Ok::<TensorV<S>, Fault>(t),
        vjp::vjp_values::<S, Tensor<S>>((), PrimV::Bin(BinOpV::Mul, a, b), out, primals, cot).1
            == Ok::<Seq<TensorV<S>>, Fault>(ts),
    ensures
        ts.len() == 2,
        model::bin_tensor(BinOpV::Mul, t, y) == Ok::<TensorV<S>, Fault>(ts[0]),
        model::bin_tensor(BinOpV::Mul, x, t) == Ok::<TensorV<S>, Fault>(ts[1]),
{
    lemma_resolved_two(primals, a, b, x, y);
    let ins = seq![t] + seq![x, y];
    let rule = vjp::vjp_rule(
        PrimV::Bin(BinOpV::Mul, a, b),
        vjp::shapes_of::<S, Tensor<S>>(ins),
    )->Ok_0;
    let all = pairing::lemma_applied(rule, ins, ts);
    pairing::lemma_bin_step(rule.steps, ins, all, 0, BinOpV::Mul, Reg::In(0), Reg::In(2));
    pairing::lemma_bin_step(rule.steps, ins, all, 1, BinOpV::Mul, Reg::In(1), Reg::In(0));
}

/// The product rule for one element.
proof fn lemma_product_element(c: real, p: real, q: real, m: real, n: real)
    ensures
        c * (p * n + m * q) == c * n * p + m * c * q,
{
    exact::lemma_distribute(c, p * n, m * q);
    exact::lemma_regroup(c, n, p);
    exact::lemma_units(n, p);
    exact::lemma_regroup(m, c, q);
}

/// The product rule for tensors.
#[verifier::spinoff_prover]
#[verifier::rlimit(60)]
proof fn lemma_product_rule<S: Scalar>(
    v: spec_fn(S) -> real,
    a: AtomV<S>,
    b: AtomV<S>,
    o: TensorV<S>,
    d: Map<Seq<char>, TensorV<S>>,
    x: TensorV<S>,
    y: TensorV<S>,
    t: TensorV<S>,
    tx: TensorV<S>,
    ty: TensorV<S>,
)
    requires
        exact::exact(v),
        reals::full(t),
        reals::full(x),
        reals::full(y),
        x.shape == a.shape,
        y.shape == b.shape,
        shape::expands_to(a.shape, t.shape),
        shape::expands_to(b.shape, t.shape),
        model::bin_tensor(BinOpV::Mul, t, y) == Ok::<TensorV<S>, Fault>(tx),
        model::bin_tensor(BinOpV::Mul, x, t) == Ok::<TensorV<S>, Fault>(ty),
        forall|r: int|
            0 <= r < shape::product(t.shape) ==> {
                let (i, j) = (
                    shape::source_index(r, t.shape, a.shape),
                    shape::source_index(r, t.shape, b.shape),
                );
                v(#[trigger] o.data[r]) == shift(v, d, a, i) * v(y.data[j]) + v(x.data[i]) * shift(
                    v,
                    d,
                    b,
                    j,
                )
            },
    ensures
        tx.shape == t.shape,
        ty.shape == t.shape,
        pairing::sizable(tx),
        pairing::sizable(ty),
        pairing::pairing(v, t, o) == shifted(v, d, a, tx) + shifted(v, d, b, ty),
{
    pairing::lemma_expands_broadcast(a.shape, t.shape);
    pairing::lemma_expands_broadcast(b.shape, t.shape);
    pairing::lemma_mul(v, t, y, tx);
    pairing::lemma_mul(v, x, t, ty);
    let f = |r: int| v(tx.data[r]) * shift(v, d, a, shape::source_index(r, tx.shape, a.shape));
    let g = |r: int| v(ty.data[r]) * shift(v, d, b, shape::source_index(r, ty.shape, b.shape));
    let h = |r: int| v(t.data[r]) * v(o.data[r]);
    assert forall|r: int| 0 <= r < t.data.len() implies #[trigger] h(r) == f(r) + g(r) by {
        pairing::lemma_same_index(r, t.shape);
        let (i, j) = (
            shape::source_index(r, t.shape, a.shape),
            shape::source_index(r, t.shape, b.shape),
        );
        let (p, q) = (shift(v, d, a, i), shift(v, d, b, j));
        let (c, m, n) = (v(t.data[r]), v(x.data[i]), v(y.data[j]));
        assert(v(o.data[r]) == p * n + m * q);
        assert(v(tx.data[r]) == c * n);
        assert(v(ty.data[r]) == m * c);
        lemma_product_element(c, p, q, m, n);
    }
    sums::lemma_sum_plus(f, g, h, t.data.len());
}

/// A product passes on the change of each operand times the other one.
#[verifier::spinoff_prover]
#[verifier::rlimit(80)]
pub proof fn lemma_product_turned<S: Scalar>(
    v: spec_fn(S) -> real,
    a: AtomV<S>,
    b: AtomV<S>,
    out: AtomV<S>,
    primals: Map<Seq<char>, TensorV<S>>,
    d: Map<Seq<char>, TensorV<S>>,
    x: TensorV<S>,
    y: TensorV<S>,
)
    requires
        exact::exact(v),
        out.value is None,
        shape::broadcast(a.shape, b.shape) == Some(out.shape),
        changes(d, a),
        changes(d, b),
        has_value(primals, a, x),
        has_value(primals, b, y),
        forall|r: int|
            0 <= r < shape::product(out.shape) ==> {
                let (i, j) = (
                    shape::source_index(r, out.shape, a.shape),
                    shape::source_index(r, out.shape, b.shape),
                );
                v(#[trigger] d[out.name].data[r]) == shift(v, d, a, i) * v(y.data[j]) + v(
                    x.data[i],
                ) * shift(v, d, b, j)
            },
    ensures
        turned(v, EqnV { prim: PrimV::Bin(BinOpV::Mul, a, b), out }, primals, d),
{
    let e = EqnV { prim: PrimV::Bin(BinOpV::Mul, a, b), out };
    shape::lemma_broadcast_expands(a.shape, b.shape);
    assert forall|cot: Map<Seq<char>, TensorV<S>>|
        cot.dom().contains(out.name) && suits(cot[out.name], out.shape) implies #[trigger] turns(
        v,
        e,
        primals,
        d,
        cot,
    ) by {
        let t = cot[out.name];
        let r = vjp::vjp_values::<S, Tensor<S>>((), e.prim, out, primals, cot).1;
        if r is Ok {
            let ts = r->Ok_0;
            lemma_product_steps(a, b, out, primals, cot, x, y, t, ts);
            lemma_product_rule(v, a, b, d[out.name], d, x, y, t, ts[0], ts[1]);
            lemma_two_turn(v, e, primals, d, cot, ts, a, b);
        }
    }
}

/// Two operands whose cotangents pair as they should.
pub(crate) proof fn lemma_two_turn<S: Scalar>(
    v: spec_fn(S) -> real,
    e: EqnV<S>,
    primals: Map<Seq<char>, TensorV<S>>,
    d: Map<Seq<char>, TensorV<S>>,
    cot: Map<Seq<char>, TensorV<S>>,
    ts: Seq<TensorV<S>>,
    a: AtomV<S>,
    b: AtomV<S>,
)
    requires
        nn::operands_of(e.prim) == seq![a, b],
        vjp::vjp_values::<S, Tensor<S>>((), e.prim, e.out, primals, cot).1 == Ok::<
            Seq<TensorV<S>>,
            Fault,
        >(ts),
        ts.len() == 2,
        changes(d, a),
        changes(d, b),
        support::weighable(ts[0]),
        support::weighable(ts[1]),
        shape::expands_to(a.shape, ts[0].shape),
        shape::expands_to(b.shape, ts[1].shape),
        pairing::pairing(v, cot[e.out.name], d[e.out.name]) == shifted(v, d, a, ts[0]) + shifted(
            v,
            d,
            b,
            ts[1],
        ),
    ensures
        turns(v, e, primals, d, cot),
{
    lemma_backed_two(v, ts, seq![a, b], d);
    lemma_shifted(v, d, a, ts[0]);
    lemma_shifted(v, d, b, ts[1]);
}

/// The values of two operands.
pub(crate) proof fn lemma_resolved_two<S: Scalar>(
    primals: Map<Seq<char>, TensorV<S>>,
    a: AtomV<S>,
    b: AtomV<S>,
    x: TensorV<S>,
    y: TensorV<S>,
)
    requires
        env::resolved::<S, Tensor<S>>(primals, a) == Ok::<TensorV<S>, Fault>(x),
        env::resolved::<S, Tensor<S>>(primals, b) == Ok::<TensorV<S>, Fault>(y),
    ensures
        vjp::resolved_all::<S, Tensor<S>>(primals, seq![a, b], 2) == Ok::<Seq<TensorV<S>>, Fault>(
            seq![x, y],
        ),
{
    reveal_with_fuel(vjp::resolved_all, 3);
    assert(vjp::resolved_all::<S, Tensor<S>>(primals, seq![a, b], 2)->Ok_0 =~= seq![x, y]);
}

/// The chain rule for tensors.
#[verifier::spinoff_prover]
#[verifier::rlimit(60)]
proof fn lemma_pointwise_rule<S: Scalar>(
    v: spec_fn(S) -> real,
    op: UnOpV<S>,
    a: AtomV<S>,
    o: TensorV<S>,
    d: Map<Seq<char>, TensorV<S>>,
    x: TensorV<S>,
    t: TensorV<S>,
    g: TensorV<S>,
)
    requires
        reals::full(t),
        reals::full(x),
        x.shape == a.shape,
        t.shape == a.shape,
        g.shape == a.shape,
        g.data.len() == x.data.len(),
        forall|k: int|
            0 <= k < x.data.len() ==> derivatives::chained(
                v,
                op,
                x.data[k],
                t.data[k],
                #[trigger] g.data[k],
            ),
        forall|k: int|
            0 <= k < x.data.len() ==> passed(v, op, x.data[k], shift(v, d, a, k), v(
                #[trigger] o.data[k],
            )),
    ensures
        pairing::pairing(v, t, o) == shifted(v, d, a, g),
{
    let f = |r: int| v(g.data[r]) * shift(v, d, a, shape::source_index(r, g.shape, a.shape));
    let h = |r: int| v(t.data[r]) * v(o.data[r]);
    assert forall|r: int| 0 <= r < t.data.len() implies #[trigger] h(r) == f(r) by {
        pairing::lemma_same_index(r, g.shape);
        let z = x.data[r];
        let (m, c) = (shift(v, d, a, r), v(t.data[r]));
        assert(derivatives::chained(v, op, z, t.data[r], g.data[r]));
        assert(passed(v, op, z, m, v(o.data[r])));
        let p = choose|p: real| #[trigger]
            derivatives::steepness(v, op, z, p) && v(g.data[r]) == v(t.data[r]) * p;
        let q = choose|q: real| #[trigger]
            derivatives::steepness(v, op, z, q) && v(o.data[r]) == m * q;
        lemma_one_derivative(v, op, z, p, q);
        exact::lemma_regroup(c, p, m);
        exact::lemma_units(p, m);
    }
    sums::lemma_sum_same(h, f, t.data.len());
}

/// An elementwise operation passes on the change of its operand times its derivative.
#[verifier::spinoff_prover]
#[verifier::rlimit(80)]
pub proof fn lemma_pointwise_turned<S: Scalar>(
    v: spec_fn(S) -> real,
    op: UnOpV<S>,
    a: AtomV<S>,
    out: AtomV<S>,
    primals: Map<Seq<char>, TensorV<S>>,
    d: Map<Seq<char>, TensorV<S>>,
    x: TensorV<S>,
)
    requires
        exact::exact(v),
        model::is_pointwise(op),
        out.value is None,
        out.shape == a.shape,
        shape::fits(a.shape),
        has_value(primals, a, x),
        env::resolved::<S, Tensor<S>>(primals, out) == model::un_tensor(op, x),
        changes(d, a),
        forall|k: int| 0 <= k < x.data.len() ==> derivatives::smooth_at(v, op, #[trigger] x.data[k]),
        forall|k: int|
            0 <= k < x.data.len() ==> passed(v, op, x.data[k], shift(v, d, a, k), v(
                #[trigger] d[out.name].data[k],
            )),
    ensures
        turned(v, EqnV { prim: PrimV::Un(op, a), out }, primals, d),
{
    let e = EqnV { prim: PrimV::Un(op, a), out };
    pairing::lemma_same_shape(a.shape);
    assert forall|cot: Map<Seq<char>, TensorV<S>>|
        cot.dom().contains(out.name) && suits(cot[out.name], out.shape) implies #[trigger] turns(
        v,
        e,
        primals,
        d,
        cot,
    ) by {
        let t = cot[out.name];
        let g = derivatives::lemma_pointwise_derivative(v, op, a, out, primals, cot, x, t);
        assert forall|k: int| 0 <= k < x.data.len() implies derivatives::chained(
            v,
            op,
            x.data[k],
            t.data[k],
            #[trigger] g.data[k],
        ) by {
            assert(derivatives::smooth_at(v, op, x.data[k]));
        }
        lemma_pointwise_rule(v, op, a, d[out.name], d, x, t, g);
        lemma_shifted(v, d, a, g);
        lemma_backed_one(v, seq![g], seq![a], d);
    }
}

/// What the cotangent of one operand makes.
proof fn lemma_backed_one<S: Scalar>(
    v: spec_fn(S) -> real,
    ts: Seq<TensorV<S>>,
    atoms: Seq<AtomV<S>>,
    d: Map<Seq<char>, TensorV<S>>,
)
    ensures
        backed(v, ts, atoms, d, 1) == (if atoms[0].value is Some {
            0real
        } else {
            pairing::spread(v, ts[0], d[atoms[0].name])
        }),
{
    reveal_with_fuel(backed, 2);
}

/// Whether a change is another times the derivative of an elementwise operation.
pub open spec fn passed<S: Scalar>(
    v: spec_fn(S) -> real,
    op: UnOpV<S>,
    x: S,
    from: real,
    to: real,
) -> bool {
    exists|p: real| #[trigger] derivatives::steepness(v, op, x, p) && to == from * p
}

/// A product that is not zero tells a factor from the other one.
proof fn lemma_one_factor(p: real, q: real, w: real, c: real)
    requires
        p * w == c,
        q * w == c,
        c != 0real,
    ensures
        p == q,
{
    exact::lemma_units(p, w);
    exact::lemma_units(q, w);
    if w > 0real {
        exact::lemma_cancel(w, p, q);
        exact::lemma_cancel(w, q, p);
    } else if w < 0real {
        exact::lemma_cancel(-w, p, q);
        exact::lemma_cancel(-w, q, p);
    }
}

/// An elementwise operation has one derivative at a number.
proof fn lemma_one_derivative<S: Scalar>(
    v: spec_fn(S) -> real,
    op: UnOpV<S>,
    x: S,
    p: real,
    q: real,
)
    requires
        derivatives::steepness(v, op, x, p),
        derivatives::steepness(v, op, x, q),
    ensures
        p == q,
{
    match op {
        UnOpV::Reciprocal => {
            lemma_one_factor(p, q, v(x) * v(x), -1real);
        },
        UnOpV::Sqrt => {
            lemma_one_factor(p, q, 2real * v(x.root()), 1real);
        },
        UnOpV::Log => {
            lemma_one_factor(p, q, v(x), 1real);
        },
        _ => {},
    }
}

} // verus!
