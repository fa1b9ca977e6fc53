//! What reverse-mode differentiation computes for each operation, in exact arithmetic: the
//! cotangent of an operand is the cotangent of the result times the derivative.

use vstd::prelude::*;
use crate::env;
use crate::exact;
use crate::model;
use crate::model::{BinOpV, Fault, TensorV, UnOpV};
use crate::nn::{AtomV, PrimV};
use crate::pairing;
use crate::reals;
use crate::scalar;
use crate::scalar::Scalar;
use crate::shape;
use crate::tensor::Tensor;
use crate::value;
use crate::value::{Reg, StepV};
use crate::vjp;

verus! {

// ---- programs that act on each element by itself ----
/// The element of a tensor that stands at place `k` when it is broadcast to shape `s`.
pub open spec fn at<S>(t: TensorV<S>, k: int, s: Seq<usize>) -> S {
    t.data[shape::source_index(k, s, t.shape)]
}

/// Whether a tensor has the shape `s`, or is one number.
pub open spec fn even<S>(t: TensorV<S>, s: Seq<usize>) -> bool {
    reals::full(t) && (t.shape == s || t.shape == Seq::<usize>::empty())
}

/// Whether an operand of step `i` exists and has the shape `s`.
pub open spec fn wide<S>(steps: Seq<StepV<S>>, s: Seq<usize>, m: nat, i: int, r: Reg) -> bool {
    match r {
        Reg::In(j) => j < m,
        Reg::Out(j) => j < i && (steps[j as int] matches StepV::Load(t) ==> t.shape == s),
    }
}

/// Whether an operand of step `i` exists.
pub open spec fn known(m: nat, i: int, r: Reg) -> bool {
    match r {
        Reg::In(j) => j < m,
        Reg::Out(j) => j < i,
    }
}

/// Whether step `i` of a program acts on each element of values of shape `s` by itself.
pub open spec fn even_step<S>(steps: Seq<StepV<S>>, s: Seq<usize>, m: nat, i: int) -> bool {
    match steps[i] {
        StepV::Load(t) => even(t, s),
        StepV::Un(op, a) => model::is_pointwise(op) && wide(steps, s, m, i, a),
        StepV::Bin(op, a, b) => (op == BinOpV::Add || op == BinOpV::Mul) && known(m, i, a) && known(
            m,
            i,
            b,
        ) && (wide(steps, s, m, i, a) || wide(steps, s, m, i, b)),
        StepV::Select(p, a, b) => wide(steps, s, m, i, p) && known(m, i, a) && known(m, i, b),
        StepV::SumAll(_) => false,
    }
}

/// The element that an operand names at place `k`.
pub open spec fn named_at<S>(
    r: Reg,
    ins: Seq<TensorV<S>>,
    all: Seq<TensorV<S>>,
    k: int,
    s: Seq<usize>,
) -> S {
    at(pairing::named(r, ins, all), k, s)
}

/// What a step does to the elements at place `k`.
pub open spec fn cell<S: Scalar>(
    step: StepV<S>,
    ins: Seq<TensorV<S>>,
    all: Seq<TensorV<S>>,
    k: int,
    s: Seq<usize>,
) -> S {
    match step {
        StepV::Load(t) => at(t, k, s),
        StepV::Un(op, a) => model::at_point(op, named_at(a, ins, all, k, s)),
        StepV::Bin(op, a, b) => if op == BinOpV::Mul {
            named_at(a, ins, all, k, s).times(named_at(b, ins, all, k, s))
        } else {
            named_at(a, ins, all, k, s).plus(named_at(b, ins, all, k, s))
        },
        StepV::Select(p, a, b) => if named_at(p, ins, all, k, s).same(scalar::zero()) {
            named_at(b, ins, all, k, s)
        } else {
            named_at(a, ins, all, k, s)
        },
        StepV::SumAll(a) => named_at(a, ins, all, k, s),
    }
}

/// Whether the first results of a program of elementwise steps are what the steps make of the
/// elements.
pub open spec fn evenly<S: Scalar>(
    steps: Seq<StepV<S>>,
    ins: Seq<TensorV<S>>,
    all: Seq<TensorV<S>>,
    s: Seq<usize>,
) -> bool {
    &&& forall|i: int|
        0 <= i < all.len() ==> even(#[trigger] all[i], s) && (wide(
            steps,
            s,
            ins.len(),
            all.len() as int,
            Reg::Out(i as usize),
        ) ==> all[i].shape == s)
    &&& forall|i: int, k: int|
        #![trigger at(all[i], k, s)]
        0 <= i < all.len() && 0 <= k < shape::product(s) ==> at(all[i], k, s) == cell(
            steps[i],
            ins,
            all,
            k,
            s,
        )
}

/// An even tensor has an element at each place.
proof fn lemma_even<S>(t: TensorV<S>, s: Seq<usize>, k: int)
    requires
        even(t, s),
        0 <= k < shape::product(s),
    ensures
        0 <= shape::source_index(k, s, t.shape) < t.data.len(),
        t.shape == s ==> at(t, k, s) == t.data[k],
        shape::broadcast(t.shape, s) == Some(s),
        shape::broadcast(s, t.shape) == Some(s),
{
    pairing::lemma_scalar_shape(s);
    pairing::lemma_same_shape(s);
    if t.shape == s {
        pairing::lemma_same_index(k, s);
    } else {
        pairing::lemma_scalar_index(k, s);
    }
}

/// One more step of an elementwise program.
proof fn lemma_even_step<S: Scalar>(
    steps: Seq<StepV<S>>,
    ins: Seq<TensorV<S>>,
    done: Seq<TensorV<S>>,
    s: Seq<usize>,
)
    requires
        shape::fits(s),
        done.len() < steps.len() <= usize::MAX,
        forall|i: int| 0 <= i < ins.len() ==> (#[trigger] ins[i]).shape == s && reals::full(ins[i]),
        even_step(steps, s, ins.len(), done.len() as int),
        evenly(steps, ins, done, s),
    ensures
        ({
            let i = done.len() as int;
            let r = value::step::<S, Tensor<S>>((), steps[i], ins, done).1;
            &&& r is Ok
            &&& even(r->Ok_0, s)
            &&& !(steps[i] is Load) ==> r->Ok_0.shape == s
            &&& forall|k: int|
                0 <= k < shape::product(s) ==> #[trigger] at(r->Ok_0, k, s) == cell(
                    steps[i],
                    ins,
                    done,
                    k,
                    s,
                )
        }),
{
    let i = done.len() as int;
    let m = ins.len();
    pairing::lemma_scalar_shape(s);
    pairing::lemma_same_shape(s);
    let r = value::step::<S, Tensor<S>>((), steps[i], ins, done).1;
    assert forall|q: Reg| #[trigger] known(m, i, q) implies even(
        pairing::named(q, ins, done),
        s,
    ) && (wide(steps, s, m, i, q) ==> pairing::named(q, ins, done).shape == s) by {
        match q {
            Reg::In(j) => {
                assert(ins[j as int].shape == s);
            },
            Reg::Out(j) => {
                assert(even(done[j as int], s));
            },
        }
    }
    match steps[i] {
        StepV::Load(t) => {},
        StepV::Un(op, a) => {
            assert(known(m, i, a));
            let x = pairing::named(a, ins, done);
            assert forall|k: int| 0 <= k < shape::product(s) implies #[trigger] at(
                r->Ok_0,
                k,
                s,
            ) == cell(steps[i], ins, done, k, s) by {
                lemma_even(x, s, k);
                lemma_even(r->Ok_0, s, k);
            }
        },
        StepV::Bin(op, a, b) => {
            assert(known(m, i, a) && known(m, i, b));
            let (x, y) = (pairing::named(a, ins, done), pairing::named(b, ins, done));
            assert(shape::broadcast(x.shape, y.shape) == Some(s));
            assert forall|k: int| 0 <= k < shape::product(s) implies #[trigger] at(
                r->Ok_0,
                k,
                s,
            ) == cell(steps[i], ins, done, k, s) by {
                lemma_even(r->Ok_0, s, k);
            }
        },
        StepV::Select(p, a, b) => {
            assert(known(m, i, p) && known(m, i, a) && known(m, i, b));
            let (q, x, y) = (
                pairing::named(p, ins, done),
                pairing::named(a, ins, done),
                pairing::named(b, ins, done),
            );
            assert(shape::broadcast(q.shape, x.shape) == Some(s));
            assert(shape::broadcast(s, y.shape) == Some(s));
            assert forall|k: int| 0 <= k < shape::product(s) implies #[trigger] at(
                r->Ok_0,
                k,
                s,
            ) == cell(steps[i], ins, done, k, s) by {
                lemma_even(r->Ok_0, s, k);
            }
        },
        StepV::SumAll(_) => {},
    }
}

/// Later results do not change what a step does.
proof fn lemma_cell_stays<S: Scalar>(
    steps: Seq<StepV<S>>,
    ins: Seq<TensorV<S>>,
    done: Seq<TensorV<S>>,
    next: Seq<TensorV<S>>,
    s: Seq<usize>,
    i: int,
    k: int,
)
    requires
        0 <= i <= done.len() <= next.len(),
        i < steps.len(),
        even_step(steps, s, ins.len(), i),
        forall|j: int| 0 <= j < done.len() ==> #[trigger] next[j] == done[j],
    ensures
        cell(steps[i], ins, next, k, s) == cell(steps[i], ins, done, k, s),
{
}

/// A program of elementwise steps runs.
proof fn lemma_even_plays<S: Scalar>(
    steps: Seq<StepV<S>>,
    ins: Seq<TensorV<S>>,
    done: Seq<TensorV<S>>,
    s: Seq<usize>,
) -> (all: Seq<TensorV<S>>)
    requires
        shape::fits(s),
        done.len() <= steps.len() <= usize::MAX,
        forall|i: int| 0 <= i < ins.len() ==> (#[trigger] ins[i]).shape == s && reals::full(ins[i]),
        forall|i: int| 0 <= i < steps.len() ==> #[trigger] even_step(steps, s, ins.len(), i),
        evenly(steps, ins, done, s),
    ensures
        value::play::<S, Tensor<S>>((), steps, ins, done).1 == Ok::<Seq<TensorV<S>>, Fault>(all),
        all.len() == steps.len(),
        evenly(steps, ins, all, s),
    decreases steps.len() - done.len(),
{
    if done.len() < steps.len() {
        let i = done.len() as int;
        assert(even_step(steps, s, ins.len(), i));
        lemma_even_step(steps, ins, done, s);
        let x = value::step::<S, Tensor<S>>((), steps[i], ins, done).1->Ok_0;
        let next = done.push(x);
        assert forall|j: int, k: int|
            #![trigger at(next[j], k, s)]
            0 <= j < next.len() && 0 <= k < shape::product(s) implies at(next[j], k, s) == cell(
            steps[j],
            ins,
            next,
            k,
            s,
        ) by {
            assert(even_step(steps, s, ins.len(), j));
            if j < i {
                assert(next[j] == done[j]);
                assert(at(done[j], k, s) == cell(steps[j], ins, done, k, s));
            }
            lemma_cell_stays(steps, ins, done, next, s, j, k);
        }
        assert forall|j: int| 0 <= j < next.len() implies even(#[trigger] next[j], s) && (wide(
            steps,
            s,
            ins.len(),
            next.len() as int,
            Reg::Out(j as usize),
        ) ==> next[j].shape == s) by {
            if j < i {
                assert(next[j] == done[j]);
                assert(even(done[j], s));
            }
        }
        lemma_even_plays(steps, ins, next, s)
    } else {
        done
    }
}

/// A rule of elementwise steps with one result, the last one.
proof fn lemma_even_rule<S: Scalar>(
    steps: Seq<StepV<S>>,
    ins: Seq<TensorV<S>>,
    s: Seq<usize>,
) -> (all: Seq<TensorV<S>>)
    requires
        shape::fits(s),
        0 < steps.len() <= usize::MAX,
        !(steps.last() is Load),
        forall|i: int| 0 <= i < ins.len() ==> (#[trigger] ins[i]).shape == s && reals::full(ins[i]),
        forall|i: int| 0 <= i < steps.len() ==> #[trigger] even_step(steps, s, ins.len(), i),
    ensures
        vjp::applied::<S, Tensor<S>>((), vjp::single(steps), ins).1 == Ok::<Seq<TensorV<S>>, Fault>(
            seq![all.last()],
        ),
        all.len() == steps.len(),
        all.last().shape == s,
        reals::full(all.last()),
        evenly(steps, ins, all, s),
        forall|k: int|
            0 <= k < shape::product(s) ==> #[trigger] all.last().data[k] == at(all.last(), k, s),
{
    let all = lemma_even_plays(steps, ins, Seq::empty(), s);
    let rule = vjp::single(steps);
    let n = (steps.len() - 1) as usize;
    assert(even(all[n as int], s));
    assert(wide(steps, s, ins.len(), all.len() as int, Reg::Out(n)));
    reveal_with_fuel(vjp::picked_all, 2);
    assert(vjp::picked_all(rule.outs, ins, all, 1)->Ok_0 =~= seq![all.last()]);
    assert forall|k: int| 0 <= k < shape::product(s) implies #[trigger] all.last().data[k] == at(
        all.last(),
        k,
        s,
    ) by {
        lemma_even(all.last(), s, k);
    }
    all
}

// ---- derivatives ----
/// Whether an elementwise operation has a derivative at `x`, or one side of one.
pub open spec fn smooth_at<S: Scalar>(v: spec_fn(S) -> real, op: UnOpV<S>, x: S) -> bool {
    match op {
        UnOpV::Reciprocal => v(x) != 0real,
        UnOpV::Sqrt | UnOpV::Log => v(x) > 0real,
        UnOpV::Gelu | UnOpV::NormalCdf => v(S::circle()) > 0real,
        _ => true,
    }
}

/// Whether `d` is the derivative of an elementwise operation at `x`. At zero that of a rectifier
/// is the one from below.
pub open spec fn steepness<S: Scalar>(v: spec_fn(S) -> real, op: UnOpV<S>, x: S, d: real) -> bool {
    match op {
        UnOpV::Neg => d == -1real,
        UnOpV::Reciprocal => d * (v(x) * v(x)) == -1real,
        UnOpV::Square => d == 2real * v(x),
        UnOpV::Sqrt => d * (2real * v(x.root())) == 1real,
        UnOpV::Exp => d == v(x.exponential()),
        UnOpV::Log => d * v(x) == 1real,
        UnOpV::Relu => d == (if v(x) > 0real {
            1real
        } else {
            0real
        }),
        UnOpV::LeakyRelu(slope) => d == (if v(x) > 0real {
            1real
        } else {
            v(slope)
        }),
        UnOpV::Elu(slope) => d == (if v(x) > 0real {
            1real
        } else {
            v(slope) * v(x.exponential())
        }),
        UnOpV::Gelu => d == v(scalar::cdf(x)) + v(x) * v(scalar::pdf(x)),
        UnOpV::NormalCdf => d == v(scalar::pdf(x)),
        _ => false,
    }
}

/// Whether a cotangent is another times the derivative of an elementwise operation.
pub open spec fn chained<S: Scalar>(
    v: spec_fn(S) -> real,
    op: UnOpV<S>,
    x: S,
    t: S,
    g: S,
) -> bool {
    exists|d: real| #[trigger] steepness(v, op, x, d) && v(g) == v(t) * d
}

/// Numbers of one value have exponentials of one value.
proof fn lemma_exponential_same<S: Scalar>(v: spec_fn(S) -> real, a: S, b: S)
    requires
        exact::exact(v),
        v(a) == v(b),
    ensures
        v(a.exponential()) == v(b.exponential()),
{
    exact::lemma_exponential(v, a, b);
    exact::lemma_exponential(v, b, a);
}

/// The density as the product programs compute it.
proof fn lemma_density<S: Scalar>(v: spec_fn(S) -> real, x: S)
    requires
        exact::exact(v),
        v(S::circle()) > 0real,
    ensures
        v(
            x.times(x).times(scalar::half()).opposite().exponential().times(vjp::density_peak()),
        ) == v(scalar::pdf(x)),
{
    exact::lemma_numbers(v);
    let h = scalar::half::<S>();
    let (a, b) = (x.times(x).times(h).opposite(), h.times(x).times(x).opposite());
    exact::lemma_regroup(v(x), v(x), v(h));
    exact::lemma_regroup(v(h), v(x), v(x));
    exact::lemma_units(v(x) * v(x), v(h));
    assert(v(a) == v(b));
    lemma_exponential_same(v, a, b);
    let two_pi = scalar::num::<S>(2).times(S::circle());
    let r = two_pi.root();
    assert(v(two_pi) > 0real);
    let q = v(r);
    assert(q != 0real) by (nonlinear_arith)
        requires
            q * q == v(two_pi),
            v(two_pi) > 0real,
    ;
    let peak = vjp::density_peak::<S>();
    let e = v(a.exponential());
    assert(v(peak) * q == 1real);
    assert(v(b.exponential().over(r)) * q == e);
    let (p, z) = (v(peak), v(b.exponential().over(r)));
    assert(e * p == z) by (nonlinear_arith)
        requires
            p * q == 1real,
            z * q == e,
    ;
}

/// The operand that the product program of an elementwise operation reads, if any.
pub open spec fn read_by<S: Scalar>(op: UnOpV<S>, x: TensorV<S>) -> Seq<TensorV<S>> {
    match op {
        UnOpV::Neg => seq![],
        UnOpV::Sqrt | UnOpV::Exp | UnOpV::Relu => seq![model::un_tensor(op, x)->Ok_0],
        _ => seq![x],
    }
}

/// All steps of the product program of an elementwise operation act on each element by itself.
proof fn lemma_pointwise_even<S: Scalar>(op: UnOpV<S>, s: Seq<usize>, m: nat)
    requires
        model::is_pointwise(op),
        shape::fits(s),
        m == (if op is Neg {
            1nat
        } else {
            2nat
        }),
    ensures
        vjp::pointwise_rule(op, s) matches Ok(rule) && rule == vjp::single(rule.steps) && 0
            < rule.steps.len() <= 11 && !(rule.steps.last() is Load) && forall|i: int|
            0 <= i < rule.steps.len() ==> #[trigger] even_step(rule.steps, s, m, i),
{
    let rule = vjp::pointwise_rule(op, s)->Ok_0;
    let steps = rule.steps;
    pairing::lemma_scalar_shape(s);
    assert forall|i: int| 0 <= i < steps.len() implies #[trigger] even_step(steps, s, m, i) by {
        if i == 0 {
        } else if i == 1 {
        } else if i == 2 {
        } else if i == 3 {
        } else if i == 4 {
        } else if i == 5 {
        } else if i == 6 {
        } else if i == 7 {
        } else if i == 8 {
        } else if i == 9 {
        } else {
            assert(i == 10);
        }
    }
}

/// The product program of an elementwise operation, at one element.
proof fn lemma_pointwise_cell<S: Scalar>(
    v: spec_fn(S) -> real,
    op: UnOpV<S>,
    s: Seq<usize>,
    t: TensorV<S>,
    x: TensorV<S>,
    all: Seq<TensorV<S>>,
    k: int,
)
    requires
        exact::exact(v),
        model::is_pointwise(op),
        shape::fits(s),
        reals::full(t),
        t.shape == s,
        reals::full(x),
        x.shape == s,
        0 <= k < shape::product(s),
        smooth_at(v, op, x.data[k]),
        vjp::pointwise_rule(op, s) matches Ok(rule) && all.len() == rule.steps.len() && evenly(
            rule.steps,
            seq![t] + read_by(op, x),
            all,
            s,
        ),
    ensures
        chained(v, op, x.data[k], t.data[k], at(all.last(), k, s)),
{
    let steps = vjp::pointwise_rule(op, s)->Ok_0.steps;
    let ins = seq![t] + read_by(op, x);
    exact::lemma_numbers(v);
    lemma_even(t, s, k);
    lemma_even(x, s, k);
    let (c, z) = (t.data[k], x.data[k]);
    let n = all.len();
    assert(at(ins[0], k, s) == c);
    let w = if op is Neg {
        z
    } else {
        at(ins[1], k, s)
    };
    if !(op is Neg) {
        lemma_even(ins[1], s, k);
        assert(w == (if op is Sqrt || op is Exp || op is Relu {
            model::at_point(op, z)
        } else {
            z
        }));
    }
    assert(at(all[0], k, s) == cell(steps[0], ins, all, k, s));
    pairing::lemma_scalar_index(k, s);
    let r = at(all.last(), k, s);
    match op {
        UnOpV::Neg => {
            exact::lemma_units(v(c), 1real);
            assert(steepness(v, op, z, -1real));
        },
        UnOpV::Reciprocal => {
            assert(at(all[1], k, s) == cell(steps[1], ins, all, k, s));
            assert(at(all[2], k, s) == cell(steps[2], ins, all, k, s));
            assert(at(all[3], k, s) == cell(steps[3], ins, all, k, s));
            let q = z.times(z);
            let y = v(z);
            assert(y * y != 0real) by (nonlinear_arith)
                requires
                    y != 0real,
            ;
            let i = v(q.inverse());
            assert(i * v(q) == 1real);
            exact::lemma_units(i, v(q));
            exact::lemma_units(v(c), -i);
            assert(steepness(v, op, z, -i));
        },
        UnOpV::Square => {
            assert(at(all[1], k, s) == cell(steps[1], ins, all, k, s));
            assert(at(all[2], k, s) == cell(steps[2], ins, all, k, s));
            exact::lemma_regroup(v(c), 2real, v(z));
            assert(steepness(v, op, z, 2real * v(z)));
        },
        UnOpV::Sqrt => {
            assert(at(all[1], k, s) == cell(steps[1], ins, all, k, s));
            assert(at(all[2], k, s) == cell(steps[2], ins, all, k, s));
            assert(at(all[3], k, s) == cell(steps[3], ins, all, k, s));
            let q = v(w);
            assert(q != 0real) by (nonlinear_arith)
                requires
                    q * q == v(z),
                    v(z) > 0real,
            ;
            exact::lemma_units(q, 2real);
            let i = v(at(all[2], k, s));
            assert(i * (q * 2real) == 1real);
            assert(steepness(v, op, z, i));
        },
        UnOpV::Exp => {
            assert(steepness(v, op, z, v(z.exponential())));
        },
        UnOpV::Log => {
            assert(at(all[1], k, s) == cell(steps[1], ins, all, k, s));
            let i = v(z.inverse());
            assert(steepness(v, op, z, i));
        },
        UnOpV::Relu => {
            assert(at(all[1], k, s) == cell(steps[1], ins, all, k, s));
            assert(at(all[0], k, s) == scalar::zero::<S>()) by {
                pairing::lemma_same_index(k, s);
            }
            exact::lemma_units(v(c), 0real);
            let d = if v(z) > 0real {
                1real
            } else {
                0real
            };
            assert(steepness(v, op, z, d));
        },
        UnOpV::LeakyRelu(slope) => {
            assert(at(all[1], k, s) == cell(steps[1], ins, all, k, s));
            assert(at(all[2], k, s) == cell(steps[2], ins, all, k, s));
            assert(at(all[3], k, s) == cell(steps[3], ins, all, k, s));
            exact::lemma_units(v(c), 0real);
            let d = if v(z) > 0real {
                1real
            } else {
                v(slope)
            };
            assert(steepness(v, op, z, d));
        },
        UnOpV::Elu(slope) => {
            assert(at(all[1], k, s) == cell(steps[1], ins, all, k, s));
            assert(at(all[2], k, s) == cell(steps[2], ins, all, k, s));
            assert(at(all[3], k, s) == cell(steps[3], ins, all, k, s));
            assert(at(all[4], k, s) == cell(steps[4], ins, all, k, s));
            assert(at(all[5], k, s) == cell(steps[5], ins, all, k, s));
            exact::lemma_units(v(c), 0real);
            exact::lemma_regroup(v(c), v(slope), v(z.exponential()));
            let d = if v(z) > 0real {
                1real
            } else {
                v(slope) * v(z.exponential())
            };
            assert(steepness(v, op, z, d));
        },
        _ => {
            assert(at(all[1], k, s) == cell(steps[1], ins, all, k, s));
            assert(at(all[2], k, s) == cell(steps[2], ins, all, k, s));
            assert(at(all[3], k, s) == cell(steps[3], ins, all, k, s));
            assert(at(all[4], k, s) == cell(steps[4], ins, all, k, s));
            assert(at(all[5], k, s) == cell(steps[5], ins, all, k, s));
            assert(at(all[6], k, s) == cell(steps[6], ins, all, k, s));
            assert(at(all[7], k, s) == cell(steps[7], ins, all, k, s));
            lemma_density(v, z);
            let p = v(scalar::pdf(z));
            assert(v(at(all[6], k, s)) == p);
            if op is Gelu {
                assert(at(all[8], k, s) == cell(steps[8], ins, all, k, s));
                assert(at(all[9], k, s) == cell(steps[9], ins, all, k, s));
                assert(at(all[10], k, s) == cell(steps[10], ins, all, k, s));
                assert(steepness(v, op, z, v(scalar::cdf(z)) + v(z) * p));
            } else {
                assert(steepness(v, op, z, p));
            }
        },
    }
}

/// The cotangent of the operand of an elementwise operation: in each element it is the cotangent
/// of the result times the derivative of the operation there.
pub proof fn lemma_pointwise_derivative<S: Scalar>(
    v: spec_fn(S) -> real,
    op: UnOpV<S>,
    a: AtomV<S>,
    out: AtomV<S>,
    primals: Map<Seq<char>, TensorV<S>>,
    cot: Map<Seq<char>, TensorV<S>>,
    x: TensorV<S>,
    t: TensorV<S>,
) -> (g: TensorV<S>)
    requires
        exact::exact(v),
        model::is_pointwise(op),
        x.wf(),
        t.wf(),
        t.shape == x.shape,
        x.shape.len() <= isize::MAX,
        env::resolved::<S, Tensor<S>>(primals, a) == Ok::<TensorV<S>, Fault>(x),
        env::resolved::<S, Tensor<S>>(primals, out) == model::un_tensor(op, x),
        env::resolved::<S, Tensor<S>>(cot, out) == Ok::<TensorV<S>, Fault>(t),
    ensures
        vjp::vjp_values::<S, Tensor<S>>((), PrimV::Un(op, a), out, primals, cot).1 == Ok::<
            Seq<TensorV<S>>,
            Fault,
        >(seq![g]),
        g.shape == x.shape,
        g.data.len() == x.data.len(),
        forall|k: int|
            0 <= k < x.data.len() && smooth_at(v, op, x.data[k]) ==> chained(
                v,
                op,
                x.data[k],
                t.data[k],
                #[trigger] g.data[k],
            ),
{
    let s = x.shape;
    let p = PrimV::Un(op, a);
    let vals = read_by(op, x);
    let needs = vjp::vjp_needs(p, out)->Ok_0;
    reveal_with_fuel(vjp::resolved_all, 2);
    assert(vjp::resolved_all::<S, Tensor<S>>(primals, needs, needs.len())->Ok_0 =~= vals);
    let ins = seq![t] + vals;
    let shapes = vjp::shapes_of::<S, Tensor<S>>(ins);
    assert forall|i: int| 0 <= i < shapes.len() implies (#[trigger] shapes[i]) == s by {}
    assert(vjp::vjp_rule(p, shapes) == vjp::pointwise_rule(op, s));
    lemma_pointwise_even(op, s, ins.len());
    let rule = vjp::pointwise_rule(op, s)->Ok_0;
    assert forall|i: int| 0 <= i < ins.len() implies (#[trigger] ins[i]).shape == s && reals::full(
        ins[i],
    ) by {}
    let all = lemma_even_rule(rule.steps, ins, s);
    let g = all.last();
    assert forall|k: int|
        0 <= k < x.data.len() && smooth_at(v, op, x.data[k]) implies chained(
        v,
        op,
        x.data[k],
        t.data[k],
        #[trigger] g.data[k],
    ) by {
        lemma_pointwise_cell(v, op, s, t, x, all, k);
    }
    g
}

} // verus!
