//! What selections and convolutions pass on, in exact arithmetic.

use vstd::prelude::*;
use crate::chaining::{backed, suits, turned, turns};
use crate::carry;
use crate::env;
use crate::exact;
use crate::kernels;
use crate::model;
use crate::model::{BinOpV, Fault, TensorV};
use crate::nn::{AtomV, EqnV, PrimV};
use crate::pairing;
use crate::passing;
use crate::passing::{changes, has_value, shift, shifted};
use crate::reals;
use crate::scalar;
use crate::scalar::Scalar;
use crate::shape;
use crate::sums;
use crate::support;
use crate::tensor::Tensor;
use crate::value::{Reg, StepV};
use crate::vjp;

verus! {

// ---- selections ----
/// The cotangents of the operands of a selection.
#[verifier::spinoff_prover]
#[verifier::rlimit(60)]
proof fn lemma_choice_steps<S: Scalar>(
    c: AtomV<S>,
    a: AtomV<S>,
    b: AtomV<S>,
    out: AtomV<S>,
    primals: Map<Seq<char>, TensorV<S>>,
    cot: Map<Seq<char>, TensorV<S>>,
    p: TensorV<S>,
    t: TensorV<S>,
    ts: Seq<TensorV<S>>,
)
    requires
        env::resolved::<S, Tensor<S>>(primals, c) == Ok::<TensorV<S>, Fault>(p),
        env::resolved::<S, Tensor<S>>(cot, out) == Ok::<TensorV<S>, Fault>(t),
        vjp::vjp_values::<S, Tensor<S>>((), PrimV::Select(c, a, b), out, primals, cot).1 == Ok::<
            Seq<TensorV<S>>,
            Fault,
        >(ts),
    ensures
        ts.len() == 3,
        ts[0] == model::filled(p.shape, scalar::zero::<S>()),
        model::select_tensor(p, t, ts[0]) == Ok::<TensorV<S>, Fault>(ts[1]),
        model::select_tensor(p, ts[0], t) == Ok::<TensorV<S>, Fault>(ts[2]),
{
    reveal_with_fuel(vjp::resolved_all, 2);
    assert(vjp::resolved_all::<S, Tensor<S>>(primals, seq![c], 1)->Ok_0 =~= seq![p]);
    let ins = seq![t] + seq![p];
    let rule = vjp::vjp_rule(
        PrimV::Select(c, a, b),
        vjp::shapes_of::<S, Tensor<S>>(ins),
    )->Ok_0;
    let all = pairing::lemma_applied(rule, ins, ts);
    assert(rule.steps[0] == vjp::load_zeros::<S>(p.shape));
    assert(rule.steps[1] == StepV::<S>::Select(Reg::In(1), Reg::In(0), Reg::Out(0)));
    assert(rule.steps[2] == StepV::<S>::Select(Reg::In(1), Reg::Out(0), Reg::In(0)));
    carry::lemma_step(rule.steps, ins, all, 0);
    carry::lemma_step(rule.steps, ins, all, 1);
    carry::lemma_step(rule.steps, ins, all, 2);
}

/// The rule of a selection for tensors.
#[verifier::spinoff_prover]
#[verifier::rlimit(60)]
proof fn lemma_choice_rule<S: Scalar>(
    v: spec_fn(S) -> real,
    a: AtomV<S>,
    b: AtomV<S>,
    o: TensorV<S>,
    d: Map<Seq<char>, TensorV<S>>,
    p: TensorV<S>,
    t: TensorV<S>,
    z: TensorV<S>,
    tx: TensorV<S>,
    ty: TensorV<S>,
)
    requires
        exact::exact(v),
        reals::full(t),
        reals::full(p),
        z == model::filled(p.shape, scalar::zero::<S>()),
        shape::expands_to(p.shape, t.shape),
        model::select_tensor(p, t, z) == Ok::<TensorV<S>, Fault>(tx),
        model::select_tensor(p, z, t) == Ok::<TensorV<S>, Fault>(ty),
        forall|r: int|
            0 <= r < shape::product(t.shape) ==> v(#[trigger] o.data[r]) == (if v(
                p.data[shape::source_index(r, t.shape, p.shape)],
            ) == 0real {
                shift(v, d, b, shape::source_index(r, t.shape, b.shape))
            } else {
                shift(v, d, a, shape::source_index(r, t.shape, a.shape))
            }),
    ensures
        tx.shape == t.shape,
        ty.shape == t.shape,
        reals::full(tx),
        reals::full(ty),
        pairing::pairing(v, t, o) == shifted(v, d, a, tx) + shifted(v, d, b, ty),
{
    exact::lemma_numbers(v);
    pairing::lemma_expands_broadcast(p.shape, t.shape);
    pairing::lemma_same_shape(p.shape);
    let f = |r: int| v(tx.data[r]) * shift(v, d, a, shape::source_index(r, tx.shape, a.shape));
    let g = |r: int| v(ty.data[r]) * shift(v, d, b, shape::source_index(r, ty.shape, b.shape));
    let h = |r: int| v(t.data[r]) * v(o.data[r]);
    assert forall|r: int| 0 <= r < t.data.len() implies #[trigger] h(r) == f(r) + g(r) by {
        pairing::lemma_same_index(r, t.shape);
        shape::lemma_source_index(r, t.shape, p.shape);
        let i = shape::source_index(r, t.shape, p.shape);
        assert(v(z.data[i]) == 0real);
        exact::lemma_units(shift(v, d, a, shape::source_index(r, t.shape, a.shape)), 0real);
        exact::lemma_units(shift(v, d, b, shape::source_index(r, t.shape, b.shape)), 0real);
        assert(v(o.data[r]) == (if v(p.data[i]) == 0real {
            shift(v, d, b, shape::source_index(r, t.shape, b.shape))
        } else {
            shift(v, d, a, shape::source_index(r, t.shape, a.shape))
        }));
    }
    sums::lemma_sum_plus(f, g, h, t.data.len());
}

/// What the cotangents of three operands make, where that of the first is zero.
#[verifier::spinoff_prover]
#[verifier::rlimit(60)]
proof fn lemma_backed_three<S: Scalar>(
    v: spec_fn(S) -> real,
    ts: Seq<TensorV<S>>,
    c: AtomV<S>,
    a: AtomV<S>,
    b: AtomV<S>,
    d: Map<Seq<char>, TensorV<S>>,
    s: Seq<usize>,
)
    requires
        exact::exact(v),
        ts[0] == model::filled(s, scalar::zero::<S>()),
        changes(d, a),
        changes(d, b),
    ensures
        backed(v, ts, seq![c, a, b], d, 3) == shifted(v, d, a, ts[1]) + shifted(v, d, b, ts[2]),
{
    reveal_with_fuel(backed, 4);
    passing::lemma_shifted(v, d, a, ts[1]);
    passing::lemma_shifted(v, d, b, ts[2]);
    exact::lemma_numbers(v);
    let (z, x) = (ts[0], d[c.name]);
    let f = |k: int| v(z.data[k]) * v(x.data[shape::source_index(k, z.shape, x.shape)]);
    assert forall|k: int| 0 <= k < z.data.len() implies #[trigger] f(k) == 0real by {
        exact::lemma_units(v(x.data[shape::source_index(k, z.shape, x.shape)]), 0real);
    }
    sums::lemma_sum_zero(f, z.data.len());
}

/// A selection passes on the changes of what it selects.
#[verifier::spinoff_prover]
#[verifier::rlimit(80)]
pub proof fn lemma_choice_turned<S: Scalar>(
    v: spec_fn(S) -> real,
    c: AtomV<S>,
    a: AtomV<S>,
    b: AtomV<S>,
    out: AtomV<S>,
    primals: Map<Seq<char>, TensorV<S>>,
    d: Map<Seq<char>, TensorV<S>>,
    p: TensorV<S>,
)
    requires
        exact::exact(v),
        out.value is None,
        shape::expands_to(c.shape, out.shape),
        shape::expands_to(a.shape, out.shape),
        shape::expands_to(b.shape, out.shape),
        changes(d, a),
        changes(d, b),
        has_value(primals, c, p),
        forall|r: int|
            0 <= r < shape::product(out.shape) ==> v(#[trigger] d[out.name].data[r]) == (if v(
                p.data[shape::source_index(r, out.shape, c.shape)],
            ) == 0real {
                shift(v, d, b, shape::source_index(r, out.shape, b.shape))
            } else {
                shift(v, d, a, shape::source_index(r, out.shape, a.shape))
            }),
    ensures
        turned(v, EqnV { prim: PrimV::Select(c, a, b), out }, primals, d),
{
    let e = EqnV { prim: PrimV::Select(c, a, b), out };
    pairing::lemma_same_shape(c.shape);
    assert forall|cot: Map<Seq<char>, TensorV<S>>|
        cot.dom().contains(out.name) && suits(cot[out.name], out.shape) implies #[trigger] turns(
        v,
        e,
        primals,
        d,
        cot,
    ) by {
        let t = cot[out.name];
        let r = vjp::vjp_values::<S, Tensor<S>>((), e.prim, out, primals, cot).1;
        if r is Ok {
            let ts = r->Ok_0;
            lemma_choice_steps(c, a, b, out, primals, cot, p, t, ts);
            lemma_choice_rule(v, a, b, d[out.name], d, p, t, ts[0], ts[1], ts[2]);
            lemma_backed_three(v, ts, c, a, b, d, p.shape);
        }
    }
}

// ---- convolutions ----
/// The cotangent of the kernel of a convolution pairs with every kernel of that shape as the
/// cotangent of the result pairs with the convolution by that kernel.
#[verifier::spinoff_prover]
#[verifier::rlimit(80)]
pub proof fn lemma_kernel_turned<S: Scalar>(
    v: spec_fn(S) -> real,
    stride: isize,
    a: AtomV<S>,
    b: AtomV<S>,
    out: AtomV<S>,
    primals: Map<Seq<char>, TensorV<S>>,
    cot: Map<Seq<char>, TensorV<S>>,
    x: TensorV<S>,
    k: TensorV<S>,
    t: TensorV<S>,
    ts: Seq<TensorV<S>>,
    w: TensorV<S>,
    y: TensorV<S>,
)
    requires
        exact::exact(v),
        env::resolved::<S, Tensor<S>>(primals, a) == Ok::<TensorV<S>, Fault>(x),
        env::resolved::<S, Tensor<S>>(primals, b) == Ok::<TensorV<S>, Fault>(k),
        env::resolved::<S, Tensor<S>>(cot, out) == Ok::<TensorV<S>, Fault>(t),
        vjp::vjp_values::<S, Tensor<S>>(
            (),
            PrimV::Bin(BinOpV::Conv(stride), a, b),
            out,
            primals,
            cot,
        ).1 == Ok::<Seq<TensorV<S>>, Fault>(ts),
        reals::full(x),
        reals::full(w),
        reals::full(t),
        w.shape == k.shape,
        t.shape == y.shape,
        model::bin_tensor(BinOpV::Conv(stride), x, w) == Ok::<TensorV<S>, Fault>(y),
    ensures
        ts.len() == 2,
        ts[1].shape == k.shape,
        pairing::pairing(v, t, y) == pairing::pairing(v, ts[1], w),
{
    passing::lemma_resolved_two(primals, a, b, x, k);
    let ins = seq![t] + seq![x, k];
    let rule = vjp::conv_rule::<S>(x.shape, k.shape, stride)->Ok_0;
    assert(vjp::vjp_rule(
        PrimV::Bin(BinOpV::Conv(stride), a, b),
        vjp::shapes_of::<S, Tensor<S>>(ins),
    ) == Ok::<vjp::RuleV<S>, Fault>(rule));
    let all = pairing::lemma_applied(rule, ins, ts);
    pairing::lemma_bin_step(
        rule.steps,
        ins,
        all,
        7,
        BinOpV::ConvKernelGrad(stride, k.shape),
        Reg::In(0),
        Reg::In(1),
    );
    kernels::lemma_kernel_gradient(v, x, w, stride, y, t, ts[1]);
}

} // verus!
