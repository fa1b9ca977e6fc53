//! Walking an affine bound back through a graph keeps it below what it bounds.

use vstd::prelude::*;
use crate::crown;
use crate::crown::{ParamsV, StartV, WalkV};
use crate::env;
use crate::eval;
use crate::exact;
use crate::interval::IBPV;
use crate::model;
use crate::model::{BinOpV, Fault, TensorV};
use crate::nn;
use crate::nn::{AtomV, EqnV, GraphV, PrimV};
use crate::pairing;
use crate::reals;
use crate::scalar::Scalar;
use crate::shape;
use crate::sums;
use crate::tensor::Tensor;
use crate::unspread;
use crate::value;
use crate::value::Reg;
use crate::vjp;

verus! {

/// Whether no axis of a shape is empty.
pub open spec fn dense(s: Seq<usize>) -> bool {
    forall|i: int| 0 <= i < s.len() ==> #[trigger] s[i] > 0
}

/// Whether a tensor is one that the walk can weigh: its elements fill its shape, which has no
/// empty axis.
pub open spec fn weighable<S>(t: TensorV<S>) -> bool {
    pairing::sizable(t) && dense(t.shape)
}

/// Whether `w` and `b` are a weight for the tensor `x`, up to broadcasting, and a number.
pub open spec fn part_fits<S>(w: TensorV<S>, b: TensorV<S>, x: TensorV<S>) -> bool {
    &&& weighable(w)
    &&& shape::expands_to(x.shape, w.shape)
    &&& pairing::is_scalar(b)
}

/// What the first `k` weights and numbers make of the operands `xs`.
pub open spec fn carried<S>(
    v: spec_fn(S) -> real,
    parts: Seq<TensorV<S>>,
    xs: Seq<TensorV<S>>,
    k: nat,
) -> real
    decreases k,
{
    if k == 0 {
        0real
    } else {
        carried(v, parts, xs, (k - 1) as nat) + pairing::spread(
            v,
            parts[2 * (k - 1)],
            xs[k - 1],
        ) + v(parts[2 * (k - 1) + 1].data[0])
    }
}

/// Whether weights and numbers for the operands `xs` stay below the weight `w` of the result `y`.
pub open spec fn carries<S>(
    v: spec_fn(S) -> real,
    parts: Seq<TensorV<S>>,
    xs: Seq<TensorV<S>>,
    w: TensorV<S>,
    y: TensorV<S>,
) -> bool {
    &&& parts.len() == 2 * xs.len()
    &&& forall|i: int|
        0 <= i < xs.len() ==> part_fits(parts[2 * i], parts[2 * i + 1], #[trigger] xs[i])
    &&& carried(v, parts, xs, xs.len()) <= pairing::pairing(v, w, y)
}

// ---- graphs ----
/// The tensor that an atom stands for.
pub open spec fn meant<S: Scalar>(e: Map<Seq<char>, TensorV<S>>, a: AtomV<S>) -> TensorV<S> {
    env::resolved::<S, Tensor<S>>(e, a)->Ok_0
}

/// The number of operands of an operation that take over weights of its result. The kernel of a
/// convolution is a constant that the weights of the other operand already count.
pub open spec fn weighted<S>(p: PrimV<S>) -> nat {
    match p {
        PrimV::Bin(BinOpV::Conv(_), _, _) => 1,
        _ => nn::operands_of(p).len(),
    }
}

/// The tensors that the operands stand for that take over weights of the result of an operation.
pub open spec fn operands<S: Scalar>(e: Map<Seq<char>, TensorV<S>>, p: PrimV<S>) -> Seq<TensorV<S>> {
    Seq::new(weighted(p), |i: int| meant(e, nn::operands_of(p)[i]))
}

/// Whether an atom stands for a tensor of the shape that it declares.
pub open spec fn shaped<S: Scalar>(e: Map<Seq<char>, TensorV<S>>, a: AtomV<S>) -> bool {
    &&& env::resolved::<S, Tensor<S>>(e, a) is Ok
    &&& meant(e, a).shape == a.shape
    &&& weighable(meant(e, a))
    &&& shape::fits(a.shape)
}

/// Variable number `i` of a graph: its input, then the results of its equations.
pub open spec fn variable<S>(input: Seq<char>, eqns: Seq<EqnV<S>>, i: int) -> Seq<char> {
    if i == 0 {
        input
    } else {
        eqns[i - 1].out.name
    }
}

/// Whether the variables of a graph have names of their own.
pub open spec fn distinct<S>(input: Seq<char>, eqns: Seq<EqnV<S>>) -> bool {
    forall|i: int, j: int|
        0 <= i < j <= eqns.len() ==> #[trigger] variable(input, eqns, i) != #[trigger] variable(
            input,
            eqns,
            j,
        )
}

/// Whether an atom is a constant or one of the variables up to number `k`.
pub open spec fn in_scope<S>(input: Seq<char>, eqns: Seq<EqnV<S>>, a: AtomV<S>, k: int) -> bool {
    a.value is Some || exists|i: int| 0 <= i <= k && #[trigger] variable(input, eqns, i) == a.name
}

/// Whether an environment solves an equation, with tensors of the declared shapes and operands
/// that come before the result.
pub open spec fn solved<S: Scalar>(
    e: Map<Seq<char>, TensorV<S>>,
    input: Seq<char>,
    eqns: Seq<EqnV<S>>,
    j: int,
) -> bool {
    let (p, out) = (eqns[j].prim, eqns[j].out);
    &&& out.value is None
    &&& shaped(e, out)
    &&& eval::prim_value::<S, Tensor<S>>((), e, p).1 == Ok::<TensorV<S>, Fault>(e[out.name])
    &&& forall|i: int|
        0 <= i < nn::operands_of(p).len() ==> shaped(e, #[trigger] nn::operands_of(p)[i])
            && in_scope(input, eqns, nn::operands_of(p)[i], j)
}

/// Whether a graph of one input is well formed and an environment solves all its equations.
pub open spec fn solves<S: Scalar>(
    e: Map<Seq<char>, TensorV<S>>,
    input: AtomV<S>,
    eqns: Seq<EqnV<S>>,
) -> bool {
    &&& input.value is None
    &&& shaped(e, input)
    &&& distinct(input.name, eqns)
    &&& forall|j: int| 0 <= j < eqns.len() ==> #[trigger] solved(e, input.name, eqns, j)
}

// ---- the value of a walk ----
/// What the weight of a variable contributes.
pub open spec fn worth<S>(
    v: spec_fn(S) -> real,
    weights: Map<Seq<char>, TensorV<S>>,
    e: Map<Seq<char>, TensorV<S>>,
    x: Seq<char>,
) -> real {
    if weights.dom().contains(x) {
        pairing::pairing(v, weights[x], e[x])
    } else {
        0real
    }
}

/// The value of a walk that has come to variable number `k`: the bias and what the variables up
/// to that one contribute.
pub open spec fn standing<S: Scalar>(
    v: spec_fn(S) -> real,
    at: WalkV<S, TensorV<S>>,
    e: Map<Seq<char>, TensorV<S>>,
    input: Seq<char>,
    eqns: Seq<EqnV<S>>,
    k: int,
) -> real {
    v(at.bias.data[0]) + sums::sum(
        |i: int| worth(v, at.weights, e, variable(input, eqns, i)),
        (k + 1) as nat,
    )
}

/// Whether the weights of a walk have the shapes of the variables they weigh.
pub open spec fn steady<S>(at: WalkV<S, TensorV<S>>, e: Map<Seq<char>, TensorV<S>>) -> bool {
    &&& pairing::is_scalar(at.bias)
    &&& forall|x: Seq<char>|
        #[trigger] at.weights.dom().contains(x) ==> {
            &&& e.dom().contains(x)
            &&& at.weights[x].shape == e[x].shape
            &&& weighable(at.weights[x])
            &&& weighable(e[x])
        }
}

/// What a further weight of one variable adds to the value of a walk.
proof fn lemma_more_weight<S: Scalar>(
    v: spec_fn(S) -> real,
    at: WalkV<S, TensorV<S>>,
    next: WalkV<S, TensorV<S>>,
    e: Map<Seq<char>, TensorV<S>>,
    input: Seq<char>,
    eqns: Seq<EqnV<S>>,
    k: int,
    j: int,
    gain: real,
    more: real,
)
    requires
        0 <= j <= k <= eqns.len(),
        distinct(input, eqns),
        ({
            let x = variable(input, eqns, j);
            &&& next.weights.dom() == at.weights.dom().insert(x)
            &&& forall|y: Seq<char>|
                y != x && at.weights.dom().contains(y) ==> #[trigger] next.weights[y]
                    == at.weights[y]
            &&& worth(v, next.weights, e, x) == worth(v, at.weights, e, x) + gain
        }),
        v(next.bias.data[0]) == v(at.bias.data[0]) + more,
    ensures
        standing(v, next, e, input, eqns, k) == standing(v, at, e, input, eqns, k) + gain + more,
{
    let n = (k + 1) as nat;
    let f = |i: int| worth(v, at.weights, e, variable(input, eqns, i));
    let g = |i: int| worth(v, next.weights, e, variable(input, eqns, i));
    let d = |i: int|
        if i == j {
            gain
        } else {
            0real
        };
    assert forall|i: int| 0 <= i < n implies #[trigger] g(i) == f(i) + d(i) by {
        if i < j {
            assert(variable(input, eqns, i) != variable(input, eqns, j));
        } else if j < i {
            assert(variable(input, eqns, j) != variable(input, eqns, i));
        }
    }
    sums::lemma_sum_plus(f, d, g, n);
    sums::lemma_sum_one(d, n, j);
}

/// An inner product with a sum of weights.
pub proof fn lemma_pairing_sum<S: Scalar>(
    v: spec_fn(S) -> real,
    a: TensorV<S>,
    b: TensorV<S>,
    c: TensorV<S>,
    x: TensorV<S>,
)
    requires
        exact::exact(v),
        reals::full(a),
        reals::full(b),
        a.shape == b.shape,
        model::bin_tensor(BinOpV::Add, a, b) == Ok::<TensorV<S>, Fault>(c),
    ensures
        c.shape == a.shape,
        pairing::sizable(c),
        pairing::pairing(v, c, x) == pairing::pairing(v, a, x) + pairing::pairing(v, b, x),
{
    pairing::lemma_add_same(v, a, b, c);
    let f = |k: int| v(a.data[k]) * v(x.data[k]);
    let g = |k: int| v(b.data[k]) * v(x.data[k]);
    let h = |k: int| v(c.data[k]) * v(x.data[k]);
    assert forall|k: int| 0 <= k < c.data.len() implies #[trigger] h(k) == f(k) + g(k) by {
        exact::lemma_distribute(v(x.data[k]), v(a.data[k]), v(b.data[k]));
    }
    sums::lemma_sum_plus(f, g, h, c.data.len());
}

/// The weight of a constant goes to the bias.
proof fn lemma_constant<S: Scalar>(
    v: spec_fn(S) -> real,
    k: TensorV<S>,
    w: TensorV<S>,
    bias: TensorV<S>,
    more: TensorV<S>,
)
    requires
        exact::exact(v),
        pairing::sizable(k),
        pairing::sizable(w),
        k.shape == w.shape,
        pairing::is_scalar(bias),
        vjp::picked::<S, Tensor<S>>(
            value::run_steps::<S, Tensor<S>>((), crown::absorb_steps(), seq![k, w, bias]),
            seq![k, w, bias],
            Reg::Out(2),
        ).1 == Ok::<TensorV<S>, Fault>(more),
    ensures
        pairing::is_scalar(more),
        v(more.data[0]) == v(bias.data[0]) + pairing::pairing(v, w, k),
{
    let inputs = seq![k, w, bias];
    let steps = crown::absorb_steps::<S>();
    let all = value::run_steps::<S, Tensor<S>>((), steps, inputs).1->Ok_0;
    pairing::lemma_performed(steps, inputs, all);
    let (a, b, c) = (all[0], all[1], all[2]);
    reveal(pairing::performed);
    assert(pairing::computed(steps[0], inputs, all) == Ok::<TensorV<S>, Fault>(a));
    assert(pairing::computed(steps[1], inputs, all) == Ok::<TensorV<S>, Fault>(b));
    assert(pairing::computed(steps[2], inputs, all) == Ok::<TensorV<S>, Fault>(c));
    pairing::lemma_mul_same(v, k, w, a);
    pairing::lemma_sum_all(v, a, b);
    pairing::lemma_add_scalars(v, bias, b, c);
    let f = |i: int| v(a.data[i]);
    let g = |i: int| v(w.data[i]) * v(k.data[i]);
    assert forall|i: int| 0 <= i < a.data.len() implies #[trigger] f(i) == g(i) by {
        exact::lemma_distribute(v(w.data[i]), v(k.data[i]), 0real);
    }
    sums::lemma_sum_same(f, g, a.data.len());
}

/// An operand takes over its part.
proof fn lemma_absorbed<S: Scalar>(
    v: spec_fn(S) -> real,
    at: WalkV<S, TensorV<S>>,
    a: AtomV<S>,
    w: TensorV<S>,
    b: TensorV<S>,
    e: Map<Seq<char>, TensorV<S>>,
    input: Seq<char>,
    eqns: Seq<EqnV<S>>,
    k: int,
)
    requires
        exact::exact(v),
        steady(at, e),
        shaped(e, a),
        part_fits(w, b, meant(e, a)),
        0 <= k <= eqns.len(),
        distinct(input, eqns),
        in_scope(input, eqns, a, k),
        crown::absorbed::<S, Tensor<S>>((), at, a, w, b).1 is Ok,
    ensures
        ({
            let next = crown::absorbed::<S, Tensor<S>>((), at, a, w, b).1->Ok_0;
            &&& steady(next, e)
            &&& standing(v, next, e, input, eqns, k) == standing(v, at, e, input, eqns, k)
                + pairing::spread(v, w, meant(e, a)) + v(b.data[0])
        }),
{
    let x = meant(e, a);
    let next = crown::absorbed::<S, Tensor<S>>((), at, a, w, b).1->Ok_0;
    let in_w = vjp::unbroadcasted::<S, Tensor<S>>((), w, a.shape).1->Ok_0;
    unspread::lemma_unbroadcast(v, w, x, in_w);
    let bias = model::bin_tensor(BinOpV::Add, at.bias, b)->Ok_0;
    pairing::lemma_add_scalars(v, at.bias, b, bias);
    match a.value {
        Some(c) => {
            lemma_constant(v, c, in_w, bias, next.bias);
            assert(next.weights == at.weights);
        },
        None => {
            let j = choose|i: int|
                0 <= i <= k && #[trigger] variable(input, eqns, i) == a.name;
            let gain = pairing::spread(v, w, x);
            assert(x == e[a.name]);
            if at.weights.dom().contains(a.name) {
                let sum = next.weights[a.name];
                assert(at.weights[a.name].shape == e[a.name].shape);
                lemma_pairing_sum(v, at.weights[a.name], in_w, sum, x);
            }
            assert(next.weights.dom() =~= at.weights.dom().insert(a.name));
            lemma_more_weight(v, at, next, e, input, eqns, k, j, gain, v(b.data[0]));
            assert(steady(next, e)) by {
                assert forall|y: Seq<char>| #[trigger] next.weights.dom().contains(y) implies {
                    &&& e.dom().contains(y)
                    &&& next.weights[y].shape == e[y].shape
                    &&& weighable(next.weights[y])
                    &&& weighable(e[y])
                } by {
                    if y != a.name {
                        assert(next.weights[y] == at.weights[y]);
                    }
                }
            }
        },
    }
}

/// All operands take over their parts.
proof fn lemma_absorbed_all<S: Scalar>(
    v: spec_fn(S) -> real,
    at: WalkV<S, TensorV<S>>,
    atoms: Seq<AtomV<S>>,
    parts: Seq<TensorV<S>>,
    xs: Seq<TensorV<S>>,
    e: Map<Seq<char>, TensorV<S>>,
    input: Seq<char>,
    eqns: Seq<EqnV<S>>,
    k: int,
    m: nat,
)
    requires
        exact::exact(v),
        steady(at, e),
        m <= xs.len() <= atoms.len(),
        parts.len() == 2 * xs.len(),
        forall|i: int|
            0 <= i < xs.len() ==> shaped(e, #[trigger] atoms[i]) && in_scope(
                input,
                eqns,
                atoms[i],
                k,
            ) && xs[i] == meant(e, atoms[i]),
        forall|i: int|
            0 <= i < xs.len() ==> part_fits(parts[2 * i], parts[2 * i + 1], #[trigger] xs[i]),
        0 <= k <= eqns.len(),
        distinct(input, eqns),
        crown::absorbed_all::<S, Tensor<S>>((), at, atoms, parts, m).1 is Ok,
    ensures
        ({
            let next = crown::absorbed_all::<S, Tensor<S>>((), at, atoms, parts, m).1->Ok_0;
            &&& steady(next, e)
            &&& standing(v, next, e, input, eqns, k) == standing(v, at, e, input, eqns, k)
                + carried(v, parts, xs, m)
        }),
    decreases m,
{
    if m > 0 {
        lemma_absorbed_all(v, at, atoms, parts, xs, e, input, eqns, k, (m - 1) as nat);
        let mid = crown::absorbed_all::<S, Tensor<S>>(
            (),
            at,
            atoms,
            parts,
            (m - 1) as nat,
        ).1->Ok_0;
        let i = m - 1;
        assert(shaped(e, atoms[i]));
        assert(part_fits(parts[2 * i], parts[2 * i + 1], xs[i]));
        lemma_absorbed(
            v,
            mid,
            atoms[i],
            parts[2 * i],
            parts[2 * i + 1],
            e,
            input,
            eqns,
            k,
        );
    }
}

/// Whether the program of an equation carries every weight of its result to its operands.
pub open spec fn eqn_carries<S: Scalar>(
    v: spec_fn(S) -> real,
    e: Map<Seq<char>, TensorV<S>>,
    b: Map<Seq<char>, IBPV<S>>,
    p: ParamsV<S, TensorV<S>>,
    eqn: EqnV<S>,
) -> bool {
    forall|w: TensorV<S>|
        #![trigger crown::crown_inputs::<S, Tensor<S>>(eqn.prim, eqn.out, w, p)]
        weighable(w) && w.shape == e[eqn.out.name].shape ==> match (
            crown::crown_rule(eqn.prim, eqn.out, w.shape, b, p),
            crown::crown_inputs::<S, Tensor<S>>(eqn.prim, eqn.out, w, p),
        ) {
            (Ok(rule), Ok(inputs)) => vjp::applied::<S, Tensor<S>>((), rule, inputs).1 matches Ok(
                parts,
            ) ==> carries(v, parts, operands(e, eqn.prim), w, e[eqn.out.name]),
            _ => true,
        }
}

/// One step of the walk does not raise its value.
proof fn lemma_stepped<S: Scalar>(
    v: spec_fn(S) -> real,
    at: WalkV<S, TensorV<S>>,
    e: Map<Seq<char>, TensorV<S>>,
    b: Map<Seq<char>, IBPV<S>>,
    p: ParamsV<S, TensorV<S>>,
    input: AtomV<S>,
    eqns: Seq<EqnV<S>>,
    k: int,
)
    requires
        exact::exact(v),
        steady(at, e),
        solves(e, input, eqns),
        0 < k <= eqns.len(),
        eqn_carries(v, e, b, p, eqns[k - 1]),
        crown::stepped::<S, Tensor<S>>((), at, eqns[k - 1], b, p).1 is Ok,
    ensures
        ({
            let next = crown::stepped::<S, Tensor<S>>((), at, eqns[k - 1], b, p).1->Ok_0;
            &&& steady(next, e)
            &&& standing(v, next, e, input.name, eqns, k - 1) <= standing(
                v,
                at,
                e,
                input.name,
                eqns,
                k,
            )
        }),
{
    let eqn = eqns[k - 1];
    let next = crown::stepped::<S, Tensor<S>>((), at, eqn, b, p).1->Ok_0;
    assert(solved(e, input.name, eqns, k - 1));
    let f = |i: int| worth(v, at.weights, e, variable(input.name, eqns, i));
    assert(sums::sum(f, (k + 1) as nat) == sums::sum(f, k as nat) + f(k));
    assert(variable(input.name, eqns, k) == eqn.out.name);
    if at.weights.dom().contains(eqn.out.name) {
        let w = at.weights[eqn.out.name];
        let rule = crown::crown_rule(eqn.prim, eqn.out, w.shape, b, p)->Ok_0;
        let inputs = crown::crown_inputs::<S, Tensor<S>>(eqn.prim, eqn.out, w, p)->Ok_0;
        let parts = vjp::applied::<S, Tensor<S>>((), rule, inputs).1->Ok_0;
        let xs = operands(e, eqn.prim);
        assert(w.shape == e[eqn.out.name].shape && weighable(w));
        assert(carries(v, parts, xs, w, e[eqn.out.name]));
        let scores = crown::scored::<S, Tensor<S>>(
            eqn.prim,
            eqn.out,
            w,
            b,
            p,
            at.scores,
        )->Ok_0;
        let begun = WalkV { scores, ..at };
        assert(steady(begun, e));
        let atoms = nn::operands_of(eqn.prim);
        assert(parts.len() / 2 == xs.len());
        lemma_absorbed_all(
            v,
            begun,
            atoms,
            parts,
            xs,
            e,
            input.name,
            eqns,
            k - 1,
            xs.len(),
        );
        assert(standing(v, begun, e, input.name, eqns, k - 1) == standing(
            v,
            at,
            e,
            input.name,
            eqns,
            k - 1,
        ));
    }
}

/// The walk does not raise its value.
proof fn lemma_walked<S: Scalar>(
    v: spec_fn(S) -> real,
    at: WalkV<S, TensorV<S>>,
    e: Map<Seq<char>, TensorV<S>>,
    b: Map<Seq<char>, IBPV<S>>,
    p: ParamsV<S, TensorV<S>>,
    input: AtomV<S>,
    eqns: Seq<EqnV<S>>,
    k: nat,
)
    requires
        exact::exact(v),
        steady(at, e),
        solves(e, input, eqns),
        k <= eqns.len(),
        forall|j: int| 0 <= j < k ==> eqn_carries(v, e, b, p, #[trigger] eqns[j]),
        crown::walked::<S, Tensor<S>>((), at, eqns, k, b, p).1 is Ok,
    ensures
        ({
            let end = crown::walked::<S, Tensor<S>>((), at, eqns, k, b, p).1->Ok_0;
            &&& steady(end, e)
            &&& standing(v, end, e, input.name, eqns, 0) <= standing(
                v,
                at,
                e,
                input.name,
                eqns,
                k as int,
            )
        }),
    decreases k,
{
    if k > 0 {
        lemma_stepped(v, at, e, b, p, input, eqns, k as int);
        let next = crown::stepped::<S, Tensor<S>>((), at, eqns[k - 1], b, p).1->Ok_0;
        lemma_walked(v, next, e, b, p, input, eqns, (k - 1) as nat);
    }
}

/// The sum of the elements of a tensor.
pub open spec fn total<S>(v: spec_fn(S) -> real, t: TensorV<S>) -> real {
    sums::sum(|k: int| v(t.data[k]), t.data.len())
}

/// At the start, the value of the walk is the sum of the elements of the variable of interest.
proof fn lemma_departed<S: Scalar>(
    v: spec_fn(S) -> real,
    out: AtomV<S>,
    e: Map<Seq<char>, TensorV<S>>,
    input: AtomV<S>,
    eqns: Seq<EqnV<S>>,
    k: int,
)
    requires
        exact::exact(v),
        solves(e, input, eqns),
        0 <= k <= eqns.len(),
        out.value is None,
        shaped(e, out),
        in_scope(input.name, eqns, out, k),
    ensures
        steady(crown::departed::<S, Tensor<S>>(out), e),
        standing(v, crown::departed::<S, Tensor<S>>(out), e, input.name, eqns, k) == total(
            v,
            e[out.name],
        ),
{
    let at = crown::departed::<S, Tensor<S>>(out);
    exact::lemma_numbers(v);
    let j = choose|i: int|
        0 <= i <= k && #[trigger] variable(input.name, eqns, i) == out.name;
    let f = |i: int| worth(v, at.weights, e, variable(input.name, eqns, i));
    let n = (k + 1) as nat;
    assert forall|i: int| 0 <= i < n && i != j implies #[trigger] f(i) == 0real by {
        if i < j {
            assert(variable(input.name, eqns, i) != variable(input.name, eqns, j));
        } else {
            assert(variable(input.name, eqns, j) != variable(input.name, eqns, i));
        }
    }
    sums::lemma_sum_one(f, n, j);
    let (w, x) = (at.weights[out.name], e[out.name]);
    let g = |i: int| v(w.data[i]) * v(x.data[i]);
    let h = |i: int| v(x.data[i]);
    assert forall|i: int| 0 <= i < w.data.len() implies #[trigger] g(i) == h(i) by {
        let y = v(x.data[i]);
        assert(1real * y == y) by (nonlinear_arith);
    }
    sums::lemma_sum_same(g, h, w.data.len());
}

/// An affine bound that is walked back through a graph whose programs all carry their weights is
/// a lower bound: at the input, it does not exceed the sum of the elements of the variable that
/// the walk started from.
pub proof fn lemma_walk_sound<S: Scalar>(
    v: spec_fn(S) -> real,
    g: GraphV<S>,
    e: Map<Seq<char>, TensorV<S>>,
    b: Map<Seq<char>, IBPV<S>>,
    p: ParamsV<S, TensorV<S>>,
    start: StartV,
)
    requires
        exact::exact(v),
        crown::lower_bound::<S, Tensor<S>>((), g, b, p, start).1 is Ok,
        solves(e, g.invars[0], g.equations),
        crown::start_of(g, start) matches Some((out, k)) ==> {
            &&& out.value is None
            &&& shaped(e, out)
            &&& in_scope(g.invars[0].name, g.equations, out, k as int)
        },
        forall|j: int|
            0 <= j < g.equations.len() ==> eqn_carries(v, e, b, p, #[trigger] g.equations[j]),
    ensures
        ({
            let bound = crown::lower_bound::<S, Tensor<S>>((), g, b, p, start).1->Ok_0.0;
            let out = (crown::start_of(g, start)->Some_0).0;
            let x = e[g.invars[0].name];
            &&& bound.weights.shape == x.shape
            &&& weighable(bound.weights)
            &&& pairing::is_scalar(bound.biases)
            &&& pairing::pairing(v, bound.weights, x) + v(bound.biases.data[0]) <= total(
                v,
                e[out.name],
            )
        }),
{
    let input = g.invars[0];
    let eqns = g.equations;
    let (out, k) = crown::start_of(g, start)->0;
    lemma_start(g, start);
    let at = crown::departed::<S, Tensor<S>>(out);
    lemma_departed(v, out, e, input, eqns, k as int);
    let end = crown::walked::<S, Tensor<S>>((), at, eqns, k, b, p).1->Ok_0;
    lemma_walked(v, at, e, b, p, input, eqns, k);
    let f = |i: int| worth(v, end.weights, e, variable(input.name, eqns, i));
    assert(sums::sum(f, 0) == 0real);
    assert(sums::sum(f, 1) == f(0));
    let x = e[input.name];
    let w = crown::weight_of::<S, Tensor<S>>(end.weights, input)->Ok_0;
    if !end.weights.dom().contains(input.name) {
        exact::lemma_numbers(v);
        let h = |i: int| v(w.data[i]) * v(x.data[i]);
        assert forall|i: int| 0 <= i < w.data.len() implies #[trigger] h(i) == 0real by {
            let y = v(x.data[i]);
            assert(0real * y == 0real) by (nonlinear_arith);
        }
        sums::lemma_sum_zero(h, w.data.len());
    }
}

/// A walk starts at no equation past the last.
proof fn lemma_start<S>(g: GraphV<S>, start: StartV)
    ensures
        crown::start_of(g, start) matches Some((_, k)) ==> k <= g.equations.len(),
{
    if let StartV::Named(name) = start {
        lemma_first_named(g.equations, name, 0);
    }
}

/// An equation that is found is one of the equations.
proof fn lemma_first_named<S>(eqns: Seq<EqnV<S>>, name: Seq<char>, k: nat)
    ensures
        crown::first_named(eqns, name, k) matches Some(i) ==> k <= i < eqns.len()
            && eqns[i as int].out.name == name,
    decreases eqns.len() - k,
{
    if k < eqns.len() && eqns[k as int].out.name != name {
        lemma_first_named(eqns, name, k + 1);
    }
}

} // verus!
