//! Gradients of compute graphs.

use vstd::prelude::*;
use crate::env;
use crate::env::Env;
use crate::error::EvalError;
use crate::eval;
use crate::eval::{EvalGenInterpreter, Interpreter};
use crate::manipulate;
use crate::model;
use crate::model::{BinOpV, Fault, TensorV};
use crate::nn;
use crate::nn::{Atom, AtomKind, AtomV, ComputeGraph, EqnV, GraphV, Primitive};
use crate::scalar;
use crate::scalar::Scalar;
use crate::shape;
use crate::tensor;
use crate::tensor::Tensor;
use crate::value;
use crate::value::Value;
use crate::vjp;

verus! {

/// Computes the gradient of a graph with respect to its inputs.
pub struct GradInterpreter;

// ---- softmax cross entropy ----
/// The largest of the first `n` elements on the line through `q`, along an axis of length `a`
/// with `inner` elements behind it.
pub open spec fn line_max<S: Scalar>(data: Seq<S>, a: int, inner: int, q: int, n: nat) -> S
    decreases n,
{
    if n == 0 {
        S::bottom()
    } else {
        line_max(data, a, inner, q, (n - 1) as nat).larger(
            data[((q / inner) * a + (n - 1)) * inner + q % inner],
        )
    }
}

/// The elements shifted by the largest on their line along axis 1, and exponentiated.
pub open spec fn line_exp<S: Scalar>(t: TensorV<S>) -> TensorV<S> {
    let a = t.shape[1] as int;
    let inner = model::inner_size(t.shape, 1) as int;
    TensorV {
        shape: t.shape,
        data: Seq::new(
            t.data.len(),
            |r: int|
                t.data[r].minus(
                    line_max(
                        t.data,
                        a,
                        inner,
                        (r / inner / a) * inner + r % inner,
                        a as nat,
                    ),
                ).exponential(),
        ),
    }
}

/// The softmax along axis 1.
pub open spec fn softmax<S: Scalar>(t: TensorV<S>) -> TensorV<S> {
    let a = t.shape[1] as int;
    let inner = model::inner_size(t.shape, 1) as int;
    let e = line_exp(t);
    TensorV {
        shape: t.shape,
        data: Seq::new(
            t.data.len(),
            |r: int|
                e.data[r].over(
                    model::line_sum(
                        e.data,
                        a,
                        inner,
                        (r / inner / a) * inner + r % inner,
                        a as nat,
                    ),
                ),
        ),
    }
}

/// The gradient of the mean softmax cross entropy of `logits` and `labels`.
pub open spec fn xent_grad<S: Scalar>(logits: TensorV<S>, labels: TensorV<S>) -> Result<
    TensorV<S>,
    Fault,
> {
    if logits.shape.len() < 2 {
        Err(Fault::Axis)
    } else {
        let p = softmax(logits);
        match model::broadcast_sized(p.shape, labels.shape) {
            Err(f) => Err(f),
            Ok(s) => Ok(
                TensorV {
                    shape: s,
                    data: Seq::new(
                        shape::product(s),
                        |k: int|
                            p.data[shape::source_index(k, s, p.shape)].minus(
                                labels.data[shape::source_index(k, s, labels.shape)],
                            ).over(scalar::num(logits.shape[0] as int)),
                    ),
                },
            ),
        }
    }
}

/// The lines of a tensor along an axis: element `r` lies on line `q`, which has `a` elements.
proof fn lemma_line(r: int, o: int, a: int, inner: int)
    requires
        0 <= r < o * a * inner,
        0 <= o,
        0 <= a,
        0 <= inner,
    ensures
        inner > 0,
        a > 0,
        0 <= (r / inner / a) * inner <= (r / inner / a) * inner + r % inner < o * inner,
        ((r / inner / a) * inner + r % inner) / inner == r / inner / a,
        ((r / inner / a) * inner + r % inner) % inner == r % inner,
        o * inner <= o * a * inner,
        0 <= r / inner / a < o,
{
    manipulate::lemma_row(r, o * a, inner);
    manipulate::lemma_row(r / inner, o, a);
    manipulate::lemma_cell(r / inner / a, r % inner, o, inner);
    assert(o * inner <= o * a * inner) by (nonlinear_arith)
        requires
            a >= 1,
            o >= 0,
            inner >= 0,
    ;
}

/// The softmax along axis 1.
fn softmax_of<S: Scalar>(logits: &Tensor<S>) -> (r: Tensor<S>)
    requires
        logits@.shape.len() >= 2,
    ensures
        r@ == softmax(logits@),
{
    let s = logits.shape();
    let n = s.len();
    let a = s[1];
    let inner = shape::size_of(s, 2, n);
    let x = logits.values();
    proof {
        shape::lemma_volume_bounds(s@);
        manipulate::lemma_remove(s@, 1);
    }
    let ghost o = model::outer_size(s@, 1) as int;
    let ghost e = line_exp(logits@);
    let mut exps: Vec<S> = Vec::new();
    for r in 0..x.len()
        invariant
            x@ == logits@.data,
            s@ == logits@.shape,
            s@.len() >= 2,
            a == s@[1],
            inner == model::inner_size(s@, 1),
            x@.len() == o * a * inner,
            x@.len() <= isize::MAX,
            o >= 0,
            e == line_exp(logits@),
            exps@.len() == r,
            forall|j: int| 0 <= j < r ==> exps@[j] == e.data[j],
    {
        proof {
            lemma_line(r as int, o, a as int, inner as int);
        }
        let q = (r / inner / a) * inner + r % inner;
        let mut big = S::neg_infinity();
        for i in 0..a
            invariant
                x@.len() == o * a * inner,
                x@.len() <= isize::MAX,
                inner > 0,
                0 <= q as int / inner as int,
                (q as int / inner as int) < o,
                big == line_max(x@, a as int, inner as int, q as int, i as nat),
        {
            proof {
                let (y, l, m) = (q as int / inner as int, a as int, inner as int);
                manipulate::lemma_cell(y, i as int, o, l);
                manipulate::lemma_cell(y * l + i, q as int % m, o * l, m);
            }
            big = big.max_of(x[((q / inner) * a + i) * inner + q % inner]);
        }
        exps.push(x[r].sub(big).exp());
    }
    let mut data: Vec<S> = Vec::new();
    let ghost goal = softmax(logits@);
    assert(exps@ =~= e.data);
    for r in 0..x.len()
        invariant
            x@ == logits@.data,
            s@ == logits@.shape,
            s@.len() >= 2,
            a == s@[1],
            inner == model::inner_size(s@, 1),
            x@.len() == o * a * inner,
            x@.len() <= isize::MAX,
            o >= 0,
            e == line_exp(logits@),
            exps@ == e.data,
            exps@.len() == x@.len(),
            goal == softmax(logits@),
            data@.len() == r,
            forall|j: int| 0 <= j < r ==> data@[j] == goal.data[j],
    {
        proof {
            lemma_line(r as int, o, a as int, inner as int);
        }
        let q = (r / inner / a) * inner + r % inner;
        let mut sum = scalar::number::<S>(0);
        for i in 0..a
            invariant
                exps@.len() == o * a * inner,
                exps@.len() <= isize::MAX,
                inner > 0,
                0 <= q as int / inner as int,
                (q as int / inner as int) < o,
                sum == model::line_sum(exps@, a as int, inner as int, q as int, i as nat),
        {
            proof {
                let (y, l, m) = (q as int / inner as int, a as int, inner as int);
                manipulate::lemma_cell(y, i as int, o, l);
                manipulate::lemma_cell(y * l + i, q as int % m, o * l, m);
            }
            sum = sum.add(exps[((q / inner) * a + i) * inner + q % inner]);
        }
        data.push(exps[r].div(sum));
    }
    assert(data@ =~= goal.data);
    Tensor::make(tensor::copy_of(s), data)
}

/// The gradient of the mean softmax cross entropy of `logits` and `labels`.
pub fn softmax_xent_vjp<S: Scalar>(logits: &Tensor<S>, labels: &Tensor<S>) -> (r: Result<
    Tensor<S>,
    EvalError,
>)
    ensures
        tensor::outcome(r) == xent_grad(logits@, labels@),
{
    if logits.ndim() < 2 {
        return Err(EvalError::Axis);
    }
    let n = scalar::number::<S>(logits.shape()[0] as i128);
    let probs = softmax_of(logits);
    let f = |x: S, y: S| -> (z: S)
        ensures
            z == x.minus(y).over(n),
        { x.sub(y).div(n) };
    let r = tensor::binary(&probs, labels, f);
    proof {
        if r is Ok {
            assert(r->Ok_0@.data =~= xent_grad(logits@, labels@)->Ok_0.data);
        }
    }
    r
}

// ---- reverse mode ----
/// The cotangents after adding `t` to that of `a`; constants have none.
pub open spec fn accumulated<S: Scalar>(
    cot: Map<Seq<char>, TensorV<S>>,
    a: AtomV<S>,
    t: TensorV<S>,
) -> Result<Map<Seq<char>, TensorV<S>>, Fault> {
    if a.value is Some {
        Ok(cot)
    } else {
        match vjp::unbroadcasted::<S, Tensor<S>>((), t, a.shape).1 {
            Err(f) => Err(f),
            Ok(u) => if cot.dom().contains(a.name) {
                match model::bin_tensor(BinOpV::Add, cot[a.name], u) {
                    Ok(v) => Ok(cot.insert(a.name, v)),
                    Err(f) => Err(f),
                }
            } else {
                Ok(cot.insert(a.name, u))
            },
        }
    }
}

/// The cotangents after adding the first `k` of `ts` to those of the first `k` operands.
pub open spec fn accumulated_all<S: Scalar>(
    cot: Map<Seq<char>, TensorV<S>>,
    atoms: Seq<AtomV<S>>,
    ts: Seq<TensorV<S>>,
    k: nat,
) -> Result<Map<Seq<char>, TensorV<S>>, Fault>
    decreases k,
{
    if k == 0 {
        Ok(cot)
    } else {
        match accumulated_all(cot, atoms, ts, (k - 1) as nat) {
            Ok(m) => accumulated(m, atoms[k - 1], ts[k - 1]),
            Err(f) => Err(f),
        }
    }
}

/// The cotangents after the first `k` equations have been taken back, from the last one on.
pub open spec fn backward<S: Scalar>(
    eqns: Seq<EqnV<S>>,
    primals: Map<Seq<char>, TensorV<S>>,
    cot: Map<Seq<char>, TensorV<S>>,
    k: nat,
) -> Result<Map<Seq<char>, TensorV<S>>, Fault>
    decreases k,
{
    if k == 0 {
        Ok(cot)
    } else {
        let e = eqns[k - 1];
        if !cot.dom().contains(e.out.name) {
            backward(eqns, primals, cot, (k - 1) as nat)
        } else {
            match vjp::vjp_values::<S, Tensor<S>>((), e.prim, e.out, primals, cot).1 {
                Err(f) => Err(f),
                Ok(ts) => {
                    let atoms = nn::operands_of(e.prim);
                    match accumulated_all(cot, atoms, ts, eval::shorter(atoms.len(), ts.len())) {
                        Ok(m) => backward(eqns, primals, m, (k - 1) as nat),
                        Err(f) => Err(f),
                    }
                },
            }
        }
    }
}

/// The cotangent of an output: ones, or the gradient of the loss for the given labels.
pub open spec fn seed<S: Scalar>(
    a: AtomV<S>,
    primals: Map<Seq<char>, TensorV<S>>,
    labels: Option<TensorV<S>>,
) -> Result<TensorV<S>, Fault> {
    match labels {
        None => if shape::fits(a.shape) {
            Ok(model::filled(a.shape, scalar::one()))
        } else {
            Err(Fault::Size)
        },
        Some(y) => if primals.dom().contains(a.name) {
            xent_grad(primals[a.name], y)
        } else {
            Err(Fault::NeverComputed(a.name))
        },
    }
}

/// The cotangents of the first `k` outputs.
pub open spec fn seeds<S: Scalar>(
    outs: Seq<AtomV<S>>,
    primals: Map<Seq<char>, TensorV<S>>,
    labels: Option<TensorV<S>>,
    k: nat,
) -> Result<Map<Seq<char>, TensorV<S>>, Fault>
    decreases k,
{
    if k == 0 {
        Ok(Map::empty())
    } else {
        match seeds(outs, primals, labels, (k - 1) as nat) {
            Err(f) => Err(f),
            Ok(m) => if outs[k - 1].value is Some {
                Ok(m)
            } else {
                match seed(outs[k - 1], primals, labels) {
                    Ok(t) => Ok(m.insert(outs[k - 1].name, t)),
                    Err(f) => Err(f),
                }
            },
        }
    }
}

/// The gradients of the first `k` inputs, zeros where nothing depends on one.
pub open spec fn gradients<S: Scalar>(
    ins: Seq<AtomV<S>>,
    cot: Map<Seq<char>, TensorV<S>>,
    k: nat,
) -> Result<Seq<TensorV<S>>, Fault>
    decreases k,
{
    if k == 0 {
        Ok(Seq::empty())
    } else {
        match gradients(ins, cot, (k - 1) as nat) {
            Err(f) => Err(f),
            Ok(s) => {
                let a = ins[k - 1];
                if cot.dom().contains(a.name) {
                    Ok(s.push(cot[a.name]))
                } else if shape::fits(a.shape) {
                    Ok(s.push(model::filled(a.shape, scalar::zero())))
                } else {
                    Err(Fault::Size)
                }
            },
        }
    }
}

/// The gradients of a graph with respect to its inputs.
pub open spec fn loss_gradients<S: Scalar>(
    g: GraphV<S>,
    inputs: Seq<TensorV<S>>,
    labels: Option<TensorV<S>>,
) -> Result<Seq<TensorV<S>>, Fault> {
    match eval::environment::<S, Tensor<S>>((), g, inputs).1 {
        Err(f) => Err(f),
        Ok(primals) => match seeds(g.outvars, primals, labels, g.outvars.len()) {
            Err(f) => Err(f),
            Ok(start) => match backward(g.equations, primals, start, g.equations.len()) {
                Err(f) => Err(f),
                Ok(cot) => gradients(g.invars, cot, g.invars.len()),
            },
        },
    }
}

/// The first failing output decides the error.
proof fn lemma_seeds_fail<S: Scalar>(
    outs: Seq<AtomV<S>>,
    primals: Map<Seq<char>, TensorV<S>>,
    labels: Option<TensorV<S>>,
    i: nat,
    k: nat,
)
    requires
        i <= k,
        seeds(outs, primals, labels, i) is Err,
    ensures
        seeds(outs, primals, labels, k) == seeds(outs, primals, labels, i),
    decreases k,
{
    if i < k {
        lemma_seeds_fail(outs, primals, labels, i, (k - 1) as nat);
    }
}

/// The first failing operand decides the error.
proof fn lemma_accumulated_fail<S: Scalar>(
    cot: Map<Seq<char>, TensorV<S>>,
    atoms: Seq<AtomV<S>>,
    ts: Seq<TensorV<S>>,
    i: nat,
    k: nat,
)
    requires
        i <= k,
        accumulated_all(cot, atoms, ts, i) is Err,
    ensures
        accumulated_all(cot, atoms, ts, k) == accumulated_all(cot, atoms, ts, i),
    decreases k,
{
    if i < k {
        lemma_accumulated_fail(cot, atoms, ts, i, (k - 1) as nat);
    }
}

/// The first failing input decides the error.
proof fn lemma_gradients_fail<S: Scalar>(
    ins: Seq<AtomV<S>>,
    cot: Map<Seq<char>, TensorV<S>>,
    i: nat,
    k: nat,
)
    requires
        i <= k,
        gradients(ins, cot, i) is Err,
    ensures
        gradients(ins, cot, k) == gradients(ins, cot, i),
    decreases k,
{
    if i < k {
        lemma_gradients_fail(ins, cot, i, (k - 1) as nat);
    }
}

/// Adds to the cotangent of a variable.
fn combine<S: Scalar>(var: &Atom<S>, tangent: &Tensor<S>, env: &mut Env<Tensor<S>>) -> (r: Result<
    (),
    EvalError,
>)
    ensures
        match (r, accumulated(env::scope::<S, Tensor<S>>(old(env)@), var@, tangent@)) {
            (Ok(_), Ok(m)) => env::scope::<S, Tensor<S>>(final(env)@) == m,
            (Err(e), Err(f)) => e@ == f,
            _ => false,
        },
{
    if let AtomKind::Const(_) = var.kind {
        return Ok(());
    }
    let mut cx: () = ();
    let u = vjp::unbroadcast::<S, Tensor<S>>(tangent, &var.shape, &mut cx)?;
    let known: Option<Tensor<S>> = match env.get(var.name.as_str()) {
        Some(t) => Some(t.dup()),
        None => None,
    };
    let v = match known {
        Some(t) => t.add(&u)?,
        None => u,
    };
    proof {
        env::lemma_scope_insert::<S, Tensor<S>>(env@, var.name@, v);
    }
    env.insert(var.name.clone(), v);
    Ok(())
}

impl GradInterpreter {
    pub fn new() -> (r: Self)
        ensures
            r == GradInterpreter,
    {
        GradInterpreter
    }

    /// The cotangents of the operands of one operation.
    pub fn process_primitive<S: Scalar, T: Value<S>>(
        primitive: &Primitive<S>,
        outvar: &Atom<S>,
        primals: &Env<T>,
        env: &Env<T>,
        cx: &mut T::Cx,
    ) -> (r: Result<Vec<T>, EvalError>)
        ensures
            (T::c(final(cx)), value::results::<S, T>(r)) == vjp::vjp_values::<S, T>(
                T::c(old(cx)),
                primitive@,
                outvar@,
                env::scope::<S, T>(primals@),
                env::scope::<S, T>(env@),
            ),
    {
        let form = primitive.form();
        vjp::vjp::<S, T>(&form, outvar, primals, env, cx)
    }

    /// The cotangents of the outputs.
    fn seed_all<S: Scalar>(
        outvars: &Vec<Atom<S>>,
        primals: &Env<Tensor<S>>,
        labels: Option<&Tensor<S>>,
    ) -> (r: Result<Env<Tensor<S>>, EvalError>)
        ensures
            match (
                r,
                seeds(
                    nn::atom_views(outvars@),
                    env::scope::<S, Tensor<S>>(primals@),
                    match labels {
                        Some(y) => Some(y@),
                        None => None,
                    },
                    outvars@.len(),
                ),
            ) {
                (Ok(e), Ok(m)) => env::scope::<S, Tensor<S>>(e@) == m,
                (Err(e), Err(f)) => e@ == f,
                _ => false,
            },
    {
        let mut env: Env<Tensor<S>> = Env::new();
        let ghost outs = nn::atom_views(outvars@);
        let ghost prims = env::scope::<S, Tensor<S>>(primals@);
        let ghost labs = match labels {
            Some(y) => Some(y@),
            None => None,
        };
        assert(env::scope::<S, Tensor<S>>(env@) =~= Map::<Seq<char>, TensorV<S>>::empty());
        for i in 0..outvars.len()
            invariant
                outs == nn::atom_views(outvars@),
                prims == env::scope::<S, Tensor<S>>(primals@),
                labs == (match labels {
                    Some(y) => Some(y@),
                    None => None,
                }),
                seeds(outs, prims, labs, i as nat) == Ok::<Map<Seq<char>, TensorV<S>>, Fault>(
                    env::scope::<S, Tensor<S>>(env@),
                ),
        {
            let var = &outvars[i];
            proof {
                if seeds(outs, prims, labs, (i + 1) as nat) is Err {
                    lemma_seeds_fail(outs, prims, labs, (i + 1) as nat, outvars@.len());
                }
            }
            if let AtomKind::Var = var.kind {
                let t: Tensor<S> = match labels {
                    None => Tensor::from_elem(
                        tensor::copy_of(&var.shape),
                        scalar::number::<S>(1),
                    )?,
                    Some(y) => match primals.get(var.name.as_str()) {
                        Some(logits) => softmax_xent_vjp(logits, y)?,
                        None => {
                            return Err(EvalError::NeverComputed(var.name.clone()));
                        },
                    },
                };
                proof {
                    env::lemma_scope_insert::<S, Tensor<S>>(env@, var.name@, t);
                }
                env.insert(var.name.clone(), t);
            }
        }
        Ok(env)
    }

    /// Adds the cotangents of the operands of one operation.
    fn combine_all<S: Scalar>(
        atoms: &Vec<&Atom<S>>,
        ts: &Vec<Tensor<S>>,
        env: &mut Env<Tensor<S>>,
    ) -> (r: Result<(), EvalError>)
        ensures
            match (
                r,
                accumulated_all(
                    env::scope::<S, Tensor<S>>(old(env)@),
                    nn::ref_views(atoms@),
                    value::models::<S, Tensor<S>>(ts@),
                    eval::shorter(atoms@.len(), ts@.len()),
                ),
            ) {
                (Ok(_), Ok(m)) => env::scope::<S, Tensor<S>>(final(env)@) == m,
                (Err(e), Err(f)) => e@ == f,
                _ => false,
            },
    {
        let n: usize = if atoms.len() <= ts.len() {
            atoms.len()
        } else {
            ts.len()
        };
        let ghost start = env::scope::<S, Tensor<S>>(env@);
        let ghost av = nn::ref_views(atoms@);
        let ghost tv = value::models::<S, Tensor<S>>(ts@);
        for i in 0..n
            invariant
                n == eval::shorter(atoms@.len(), ts@.len()),
                start == env::scope::<S, Tensor<S>>(old(env)@),
                av == nn::ref_views(atoms@),
                tv == value::models::<S, Tensor<S>>(ts@),
                accumulated_all(start, av, tv, i as nat) == Ok::<
                    Map<Seq<char>, TensorV<S>>,
                    Fault,
                >(env::scope::<S, Tensor<S>>(env@)),
        {
            proof {
                if accumulated_all(start, av, tv, (i + 1) as nat) is Err {
                    lemma_accumulated_fail(start, av, tv, (i + 1) as nat, n as nat);
                }
            }
            combine(atoms[i], &ts[i], env)?;
        }
        Ok(())
    }

    /// The gradients of a graph with respect to its inputs: of the sum of its outputs, or of the
    /// mean softmax cross entropy for the given labels.
    pub fn run_loss<S: Scalar>(
        graph: &ComputeGraph<S>,
        inputs: &Vec<Tensor<S>>,
        labels: Option<&Tensor<S>>,
    ) -> (r: Result<Vec<Tensor<S>>, EvalError>)
        ensures
            value::results::<S, Tensor<S>>(r) == loss_gradients(
                graph@,
                value::models::<S, Tensor<S>>(inputs@),
                match labels {
                    Some(y) => Some(y@),
                    None => None,
                },
            ),
    {
        // forward
        let mut cx: () = ();
        let start = EvalGenInterpreter::bind::<S, Tensor<S>>(&graph.invars, inputs);
        let primals = EvalGenInterpreter::forward::<S, Tensor<S>>(
            &graph.equations,
            start,
            &mut cx,
        )?;
        let ghost prims = env::scope::<S, Tensor<S>>(primals@);
        // backward
        let mut env = Self::seed_all(&graph.outvars, &primals, labels)?;
        let ghost eqns = nn::eqn_views(graph.equations@);
        let n = graph.equations.len();
        let ghost goal = backward(eqns, prims, env::scope::<S, Tensor<S>>(env@), n as nat);
        for i in 0..n
            invariant
                n == graph.equations@.len(),
                eqns == nn::eqn_views(graph.equations@),
                prims == env::scope::<S, Tensor<S>>(primals@),
                goal == backward(eqns, prims, env::scope::<S, Tensor<S>>(env@), (n - i) as nat),
                goal is Err ==> loss_gradients(
                    graph@,
                    value::models::<S, Tensor<S>>(inputs@),
                    match labels {
                        Some(y) => Some(y@),
                        None => None,
                    },
                ) == Err::<Seq<TensorV<S>>, Fault>(goal->Err_0),
        {
            let eqn = &graph.equations[n - 1 - i];
            assert(eqns[n - 1 - i] == eqn@);
            if env.get(eqn.outvar.name.as_str()).is_some() {
                let ts = Self::process_primitive::<S, Tensor<S>>(
                    &eqn.primitive,
                    &eqn.outvar,
                    &primals,
                    &env,
                    &mut cx,
                )?;
                let atoms = eqn.primitive.operands();
                Self::combine_all(&atoms, &ts, &mut env)?;
            }
        }
        let mut out: Vec<Tensor<S>> = Vec::new();
        let ghost ins = nn::atom_views(graph.invars@);
        let ghost cot = env::scope::<S, Tensor<S>>(env@);
        assert(value::models::<S, Tensor<S>>(out@) =~= Seq::<TensorV<S>>::empty());
        for i in 0..graph.invars.len()
            invariant
                ins == nn::atom_views(graph.invars@),
                cot == env::scope::<S, Tensor<S>>(env@),
                loss_gradients(
                    graph@,
                    value::models::<S, Tensor<S>>(inputs@),
                    match labels {
                        Some(y) => Some(y@),
                        None => None,
                    },
                ) == gradients(ins, cot, ins.len()),
                gradients(ins, cot, i as nat) == Ok::<Seq<TensorV<S>>, Fault>(
                    value::models::<S, Tensor<S>>(out@),
                ),
        {
            let var = &graph.invars[i];
            let ghost before = value::models::<S, Tensor<S>>(out@);
            proof {
                if gradients(ins, cot, (i + 1) as nat) is Err {
                    lemma_gradients_fail(ins, cot, (i + 1) as nat, ins.len());
                }
            }
            let t: Tensor<S> = match env.get(var.name.as_str()) {
                Some(t) => t.dup(),
                None => Tensor::from_elem(tensor::copy_of(&var.shape), scalar::number::<S>(0))?,
            };
            out.push(t);
            assert(value::models::<S, Tensor<S>>(out@) =~= before.push(t@));
        }
        Ok(out)
    }
}

impl<S: Scalar> Interpreter<S, Tensor<S>> for GradInterpreter {
    open spec fn meaning(g: GraphV<S>, inputs: Seq<TensorV<S>>) -> Result<Seq<TensorV<S>>, Fault> {
        loss_gradients(g, inputs, None)
    }

    fn run(graph: &ComputeGraph<S>, inputs: &Vec<Tensor<S>>) -> (r: Result<
        Vec<Tensor<S>>,
        EvalError,
    >) {
        GradInterpreter::run_loss(graph, inputs, None)
    }
}

} // verus!
