//! A traced computation, evaluated, gives what the computation gives directly.

use vstd::prelude::*;
use crate::env;
use crate::eval;
use crate::model;
use crate::model::{BinOpV, Fault, TensorV, UnOpV};
use crate::nn::{EqnV, PrimV};
use crate::scalar::Scalar;
use crate::tensor::Tensor;
use crate::text;
use crate::tracer;
use crate::tracer::{BuilderV, Tracer, TracerV};
use crate::value;
use crate::value::StepV;

verus! {

// ---- graphs under construction ----
/// The variables of a graph under construction, from those of its inputs.
pub open spec fn computed<S: Scalar>(b: BuilderV<S>, e0: Map<Seq<char>, TensorV<S>>) -> Result<
    Map<Seq<char>, TensorV<S>>,
    Fault,
> {
    eval::forward::<S, Tensor<S>>((), b.equations, e0, 0).1
}

/// Whether the variables of a graph under construction are `e`, and the names that it will
/// generate are free.
pub open spec fn tracks<S: Scalar>(
    b: BuilderV<S>,
    e0: Map<Seq<char>, TensorV<S>>,
    e: Map<Seq<char>, TensorV<S>>,
) -> bool {
    &&& computed(b, e0) == Ok::<Map<Seq<char>, TensorV<S>>, Fault>(e)
    &&& forall|k: nat| k >= b.next ==> !e.dom().contains(#[trigger] tracer::generated(k))
}

/// Whether a traced value stands for a tensor.
pub open spec fn stands_for<S: Scalar>(
    e: Map<Seq<char>, TensorV<S>>,
    x: TracerV<S>,
    t: TensorV<S>,
) -> bool {
    env::resolved::<S, Tensor<S>>(e, x.atom) == Ok::<TensorV<S>, Fault>(t)
}

/// Whether what stands for a tensor in one environment does so in another.
pub open spec fn keeps<S: Scalar>(
    e: Map<Seq<char>, TensorV<S>>,
    f: Map<Seq<char>, TensorV<S>>,
) -> bool {
    forall|x: TracerV<S>, t: TensorV<S>| stands_for(e, x, t) ==> #[trigger] stands_for(f, x, t)
}

/// Whether a traced step on a graph under construction has led to a value that stands for `u`.
pub open spec fn leads<S: Scalar>(
    e0: Map<Seq<char>, TensorV<S>>,
    e: Map<Seq<char>, TensorV<S>>,
    b: BuilderV<S>,
    y: TracerV<S>,
    u: TensorV<S>,
) -> bool {
    match computed(b, e0) {
        Ok(f) => tracks(b, e0, f) && keeps(e, f) && stands_for(f, y, u),
        Err(_) => false,
    }
}

/// One more equation is evaluated after the others.
proof fn lemma_one_more<S: Scalar>(
    eqns: Seq<EqnV<S>>,
    eqn: EqnV<S>,
    e: Map<Seq<char>, TensorV<S>>,
    f: Map<Seq<char>, TensorV<S>>,
    u: TensorV<S>,
    i: nat,
)
    requires
        i <= eqns.len(),
        eval::forward::<S, Tensor<S>>((), eqns, e, i).1 == Ok::<
            Map<Seq<char>, TensorV<S>>,
            Fault,
        >(f),
        eval::prim_value::<S, Tensor<S>>((), f, eqn.prim).1 == Ok::<TensorV<S>, Fault>(u),
    ensures
        eval::forward::<S, Tensor<S>>((), eqns.push(eqn), e, i).1 == Ok::<
            Map<Seq<char>, TensorV<S>>,
            Fault,
        >(f.insert(eqn.out.name, u)),
    decreases eqns.len() - i,
{
    let all = eqns.push(eqn);
    if i < eqns.len() {
        assert(all[i as int] == eqns[i as int]);
        let x = eval::prim_value::<S, Tensor<S>>((), e, eqns[i as int].prim).1->Ok_0;
        lemma_one_more(eqns, eqn, e.insert(eqns[i as int].out.name, x), f, u, i + 1);
    } else {
        assert(all[i as int] == eqn);
        let g = f.insert(eqn.out.name, u);
        assert(eval::forward::<S, Tensor<S>>((), all, g, i + 1).1 == Ok::<
            Map<Seq<char>, TensorV<S>>,
            Fault,
        >(g));
    }
}

/// A recorded operation.
proof fn lemma_emitted<S: Scalar>(
    b: BuilderV<S>,
    e0: Map<Seq<char>, TensorV<S>>,
    e: Map<Seq<char>, TensorV<S>>,
    p: PrimV<S>,
    s: Result<Seq<usize>, Fault>,
    u: TensorV<S>,
)
    requires
        tracks(b, e0, e),
        eval::prim_value::<S, Tensor<S>>((), e, p).1 == Ok::<TensorV<S>, Fault>(u),
    ensures
        tracer::emitted(b, p, s).1 matches Ok(y) ==> leads(
            e0,
            e,
            tracer::emitted(b, p, s).0,
            y,
            u,
        ),
{
    let (c, r) = tracer::emitted(b, p, s);
    if r is Ok {
        let name = tracer::generated(b.next);
        let f = e.insert(name, u);
        lemma_one_more(b.equations, c.equations.last(), e0, e, u, 0);
        assert(c.equations =~= b.equations.push(c.equations.last()));
        assert forall|k: nat| k >= c.next implies !f.dom().contains(
            #[trigger] tracer::generated(k),
        ) by {
            if tracer::generated(k) == name {
                let a = "a"@;
                assert(text::digits(k) =~= tracer::generated(k).subrange(
                    a.len() as int,
                    tracer::generated(k).len() as int,
                ));
                assert(text::digits(b.next) =~= name.subrange(a.len() as int, name.len() as int));
                text::lemma_digits_injective(k, b.next);
            }
        }
        assert(!e.dom().contains(name));
        assert forall|x: TracerV<S>, t: TensorV<S>| stands_for(e, x, t) implies #[trigger]
            stands_for(f, x, t) by {}
    }
}

/// A computation that records nothing.
proof fn lemma_nothing<S: Scalar>(
    b: BuilderV<S>,
    e0: Map<Seq<char>, TensorV<S>>,
    e: Map<Seq<char>, TensorV<S>>,
    y: TracerV<S>,
    u: TensorV<S>,
)
    requires
        tracks(b, e0, e),
        stands_for(e, y, u),
    ensures
        leads(e0, e, b, y, u),
{
}

// ---- single operations ----
/// An operation on a traced value, evaluated, gives what the operation gives on the tensor that
/// the value stands for.
pub proof fn lemma_unary_retraced<S: Scalar>(
    b: BuilderV<S>,
    e0: Map<Seq<char>, TensorV<S>>,
    e: Map<Seq<char>, TensorV<S>>,
    op: UnOpV<S>,
    x: TracerV<S>,
    t: TensorV<S>,
    u: TensorV<S>,
)
    requires
        tracks(b, e0, e),
        stands_for(e, x, t),
        model::un_tensor(op, t) == Ok::<TensorV<S>, Fault>(u),
    ensures
        tracer::traced_unary(b, op, x).1 matches Ok(y) ==> leads(
            e0,
            e,
            tracer::traced_unary(b, op, x).0,
            y,
            u,
        ),
{
    if !x.traced && x.atom.value is Some {
        lemma_nothing(b, e0, e, tracer::constant_tracer(u), u);
    } else {
        lemma_emitted(
            b,
            e0,
            e,
            PrimV::Un(op, x.atom),
            tracer::traced_un_shape(op, x.atom.shape),
            u,
        );
    }
}

/// An operation on two traced values, evaluated, gives what the operation gives on the tensors
/// that the values stand for.
pub proof fn lemma_binary_retraced<S: Scalar>(
    b: BuilderV<S>,
    e0: Map<Seq<char>, TensorV<S>>,
    e: Map<Seq<char>, TensorV<S>>,
    op: BinOpV,
    x: TracerV<S>,
    y: TracerV<S>,
    t: TensorV<S>,
    s: TensorV<S>,
    u: TensorV<S>,
)
    requires
        tracks(b, e0, e),
        stands_for(e, x, t),
        stands_for(e, y, s),
        model::bin_tensor(op, t, s) == Ok::<TensorV<S>, Fault>(u),
    ensures
        tracer::traced_binary(b, op, x, y).1 matches Ok(z) ==> leads(
            e0,
            e,
            tracer::traced_binary(b, op, x, y).0,
            z,
            u,
        ),
{
    if !x.traced && !y.traced && x.atom.value is Some && y.atom.value is Some {
        lemma_nothing(b, e0, e, tracer::constant_tracer(u), u);
    } else {
        lemma_emitted(
            b,
            e0,
            e,
            PrimV::Bin(op, x.atom, y.atom),
            tracer::traced_bin_shape(op, x.atom.shape, y.atom.shape),
            u,
        );
    }
}

/// A selection between traced values, evaluated, gives what the selection gives on the tensors
/// that the values stand for.
pub proof fn lemma_select_retraced<S: Scalar>(
    b: BuilderV<S>,
    e0: Map<Seq<char>, TensorV<S>>,
    e: Map<Seq<char>, TensorV<S>>,
    p: TracerV<S>,
    x: TracerV<S>,
    y: TracerV<S>,
    q: TensorV<S>,
    t: TensorV<S>,
    s: TensorV<S>,
    u: TensorV<S>,
)
    requires
        tracks(b, e0, e),
        stands_for(e, p, q),
        stands_for(e, x, t),
        stands_for(e, y, s),
        model::select_tensor(q, t, s) == Ok::<TensorV<S>, Fault>(u),
    ensures
        tracer::traced_select(b, p, x, y).1 matches Ok(z) ==> leads(
            e0,
            e,
            tracer::traced_select(b, p, x, y).0,
            z,
            u,
        ),
{
    if !p.traced && !x.traced && !y.traced && p.atom.value is Some && x.atom.value is Some
        && y.atom.value is Some {
        lemma_nothing(b, e0, e, tracer::constant_tracer(u), u);
    } else {
        lemma_emitted(b, e0, e, PrimV::Select(p.atom, x.atom, y.atom), Ok(x.atom.shape), u);
    }
}

// ---- programs ----
/// Whether traced values stand for tensors, with their ranks recorded.
pub open spec fn all_stand<S: Scalar>(
    e: Map<Seq<char>, TensorV<S>>,
    xs: Seq<TracerV<S>>,
    ts: Seq<TensorV<S>>,
) -> bool {
    &&& xs.len() == ts.len()
    &&& forall|i: int|
        0 <= i < xs.len() ==> stands_for(e, #[trigger] xs[i], ts[i]) && xs[i].atom.shape.len()
            == ts[i].shape.len()
}

/// One step of a traced program.
#[verifier::rlimit(30)]
proof fn lemma_step_retraced<S: Scalar>(
    b: BuilderV<S>,
    e0: Map<Seq<char>, TensorV<S>>,
    e: Map<Seq<char>, TensorV<S>>,
    s: StepV<S>,
    xs: Seq<TracerV<S>>,
    ts: Seq<TensorV<S>>,
    xd: Seq<TracerV<S>>,
    td: Seq<TensorV<S>>,
)
    requires
        tracks(b, e0, e),
        all_stand(e, xs, ts),
        all_stand(e, xd, td),
        value::step::<S, Tensor<S>>((), s, ts, td).1 is Ok,
        value::step::<S, Tracer<S>>(b, s, xs, xd).1 is Ok,
    ensures
        leads(
            e0,
            e,
            value::step::<S, Tracer<S>>(b, s, xs, xd).0,
            value::step::<S, Tracer<S>>(b, s, xs, xd).1->Ok_0,
            value::step::<S, Tensor<S>>((), s, ts, td).1->Ok_0,
        ),
{
    let u = value::step::<S, Tensor<S>>((), s, ts, td).1->Ok_0;
    match s {
        StepV::Load(t) => {
            lemma_nothing(b, e0, e, tracer::constant_tracer(t), t);
        },
        StepV::Un(op, r) => {
            let (x, t) = (value::fetched(r, xs, xd)->0, value::fetched(r, ts, td)->0);
            lemma_unary_retraced(b, e0, e, op, x, t, u);
        },
        StepV::Bin(op, r, q) => {
            let (x, t) = (value::fetched(r, xs, xd)->0, value::fetched(r, ts, td)->0);
            let (y, w) = (value::fetched(q, xs, xd)->0, value::fetched(q, ts, td)->0);
            lemma_binary_retraced(b, e0, e, op, x, y, t, w, u);
        },
        StepV::Select(p, r, q) => {
            let (z, k) = (value::fetched(p, xs, xd)->0, value::fetched(p, ts, td)->0);
            let (x, t) = (value::fetched(r, xs, xd)->0, value::fetched(r, ts, td)->0);
            let (y, w) = (value::fetched(q, xs, xd)->0, value::fetched(q, ts, td)->0);
            lemma_select_retraced(b, e0, e, z, x, y, k, t, w, u);
        },
        StepV::SumAll(r) => {
            let (x, t) = (value::fetched(r, xs, xd)->0, value::fetched(r, ts, td)->0);
            let op = UnOpV::<S>::ReduceSum(value::all_axes(t.shape.len()));
            lemma_unary_retraced(b, e0, e, op, x, t, u);
        },
    }
}

/// The rest of a traced program.
proof fn lemma_play_retraced<S: Scalar>(
    b: BuilderV<S>,
    e0: Map<Seq<char>, TensorV<S>>,
    e: Map<Seq<char>, TensorV<S>>,
    steps: Seq<StepV<S>>,
    xs: Seq<TracerV<S>>,
    ts: Seq<TensorV<S>>,
    xd: Seq<TracerV<S>>,
    td: Seq<TensorV<S>>,
    xa: Seq<TracerV<S>>,
    ta: Seq<TensorV<S>>,
)
    requires
        tracks(b, e0, e),
        all_stand(e, xs, ts),
        all_stand(e, xd, td),
        xd.len() <= steps.len(),
        value::play::<S, Tensor<S>>((), steps, ts, td).1 == Ok::<Seq<TensorV<S>>, Fault>(ta),
        value::play::<S, Tracer<S>>(b, steps, xs, xd).1 == Ok::<Seq<TracerV<S>>, Fault>(xa),
        forall|i: int|
            0 <= i < steps.len() ==> (#[trigger] xa[i]).atom.shape.len() == ta[i].shape.len(),
    ensures
        ({
            let c = value::play::<S, Tracer<S>>(b, steps, xs, xd).0;
            match computed(c, e0) {
                Ok(f) => tracks(c, e0, f) && keeps(e, f) && all_stand(f, xa, ta),
                Err(_) => false,
            }
        }),
    decreases steps.len() - xd.len(),
{
    if xd.len() < steps.len() {
        let s = steps[xd.len() as int];
        lemma_step_retraced(b, e0, e, s, xs, ts, xd, td);
        let (c, y) = (
            value::step::<S, Tracer<S>>(b, s, xs, xd).0,
            value::step::<S, Tracer<S>>(b, s, xs, xd).1->Ok_0,
        );
        let u = value::step::<S, Tensor<S>>((), s, ts, td).1->Ok_0;
        let f = computed(c, e0)->Ok_0;
        lemma_played_on::<S, Tracer<S>>(c, steps, xs, xd.push(y));
        lemma_played_on::<S, Tensor<S>>((), steps, ts, td.push(u));
        let k = xd.len() as int;
        assert(xa[k] == y && ta[k] == u) by {
            assert(xd.push(y)[k] == y);
            assert(td.push(u)[k] == u);
        }
        assert(all_stand(f, xs, ts));
        assert(all_stand(f, xd.push(y), td.push(u)));
        lemma_play_retraced(c, e0, f, steps, xs, ts, xd.push(y), td.push(u), xa, ta);
        let d = value::play::<S, Tracer<S>>(b, steps, xs, xd).0;
        let g = computed(d, e0)->Ok_0;
        assert forall|x: TracerV<S>, t: TensorV<S>| stands_for(e, x, t) implies #[trigger]
            stands_for(g, x, t) by {
            assert(stands_for(f, x, t));
        }
    }
}

/// The results that a program has already stay.
proof fn lemma_played_on<S: Scalar, T: value::Value<S>>(
    c: T::C,
    steps: Seq<StepV<S>>,
    inputs: Seq<T::M>,
    done: Seq<T::M>,
)
    ensures
        value::play::<S, T>(c, steps, inputs, done).1 matches Ok(all) ==> {
            &&& done.len() <= all.len()
            &&& forall|i: int| 0 <= i < done.len() ==> #[trigger] all[i] == done[i]
        },
    decreases steps.len() - done.len(),
{
    if done.len() < steps.len() {
        match value::step::<S, T>(c, steps[done.len() as int], inputs, done) {
            (c2, Ok(u)) => {
                lemma_played_on::<S, T>(c2, steps, inputs, done.push(u));
                match value::play::<S, T>(c2, steps, inputs, done.push(u)).1 {
                    Ok(all) => {
                        assert forall|i: int| 0 <= i < done.len() implies #[trigger] all[i]
                            == done[i] by {
                            assert(done.push(u)[i] == done[i]);
                        }
                    },
                    Err(_) => {},
                }
            },
            _ => {},
        }
    }
}

/// A traced program, evaluated, gives what the program gives on the tensors that its inputs stand
/// for, where the ranks of all results are recorded.
pub proof fn lemma_program_retraced<S: Scalar>(
    b: BuilderV<S>,
    e0: Map<Seq<char>, TensorV<S>>,
    e: Map<Seq<char>, TensorV<S>>,
    steps: Seq<StepV<S>>,
    xs: Seq<TracerV<S>>,
    ts: Seq<TensorV<S>>,
    xa: Seq<TracerV<S>>,
    ta: Seq<TensorV<S>>,
)
    requires
        tracks(b, e0, e),
        all_stand(e, xs, ts),
        value::run_steps::<S, Tensor<S>>((), steps, ts).1 == Ok::<Seq<TensorV<S>>, Fault>(ta),
        value::run_steps::<S, Tracer<S>>(b, steps, xs).1 == Ok::<Seq<TracerV<S>>, Fault>(xa),
        forall|i: int|
            0 <= i < steps.len() ==> (#[trigger] xa[i]).atom.shape.len() == ta[i].shape.len(),
    ensures
        ({
            let c = value::run_steps::<S, Tracer<S>>(b, steps, xs).0;
            match computed(c, e0) {
                Ok(f) => tracks(c, e0, f) && keeps(e, f) && all_stand(f, xa, ta),
                Err(_) => false,
            }
        }),
{
    lemma_play_retraced(b, e0, e, steps, xs, ts, Seq::empty(), Seq::empty(), xa, ta);
}

} // verus!
