//! The chain rule: gradients pair with changes of the inputs as the cotangents of the outputs pair
//! with the changes that follow, in exact arithmetic.

use vstd::prelude::*;
use crate::eval;
use crate::exact;
use crate::grad;
use crate::loss_shapes;
use crate::model;
use crate::model::{BinOpV, Fault, TensorV};
use crate::nn;
use crate::nn::{AtomV, EqnV, GraphV};
use crate::pairing;
use crate::scalar::Scalar;
use crate::shape;
use crate::sums;
use crate::support;
use crate::tensor::Tensor;
use crate::unspread;
use crate::vjp;

verus! {

// ---- pairings ----
/// Whether a tensor can stand for a change, or a cotangent, of a value of shape `s`.
pub open spec fn suits<S>(t: TensorV<S>, s: Seq<usize>) -> bool {
    support::weighable(t) && t.shape == s && s.len() <= isize::MAX
}

/// The inner product of the cotangent of a variable with its change, zero where it has none.
pub open spec fn paired<S>(
    v: spec_fn(S) -> real,
    cot: Map<Seq<char>, TensorV<S>>,
    d: Map<Seq<char>, TensorV<S>>,
    a: AtomV<S>,
) -> real {
    if cot.dom().contains(a.name) {
        pairing::pairing(v, cot[a.name], d[a.name])
    } else {
        0real
    }
}

/// The inner products of the first `n` variables.
pub open spec fn total<S>(
    v: spec_fn(S) -> real,
    cot: Map<Seq<char>, TensorV<S>>,
    d: Map<Seq<char>, TensorV<S>>,
    vars: Seq<AtomV<S>>,
    n: nat,
) -> real {
    sums::sum(|i: int| paired(v, cot, d, vars[i]), n)
}

/// The inner products of the cotangents of the first `n` operands of an operation with the changes
/// of the operands; constants have none.
pub open spec fn backed<S>(
    v: spec_fn(S) -> real,
    ts: Seq<TensorV<S>>,
    atoms: Seq<AtomV<S>>,
    d: Map<Seq<char>, TensorV<S>>,
    n: nat,
) -> real
    decreases n,
{
    if n == 0 {
        0real
    } else {
        backed(v, ts, atoms, d, (n - 1) as nat) + (if atoms[n - 1].value is Some {
            0real
        } else {
            pairing::spread(v, ts[n - 1], d[atoms[n - 1].name])
        })
    }
}

/// Whether the cotangents that the operands of an equation get for one of its result pair with the
/// changes of the operands as that one pairs with the change of the result.
pub open spec fn turns<S: Scalar>(
    v: spec_fn(S) -> real,
    e: EqnV<S>,
    primals: Map<Seq<char>, TensorV<S>>,
    d: Map<Seq<char>, TensorV<S>>,
    cot: Map<Seq<char>, TensorV<S>>,
) -> bool {
    let atoms = nn::operands_of(e.prim);
    vjp::vjp_values::<S, Tensor<S>>((), e.prim, e.out, primals, cot).1 matches Ok(ts)
        ==> all_return(ts, atoms) && backed(v, ts, atoms, d, ts.len()) == pairing::pairing(
        v,
        cot[e.out.name],
        d[e.out.name],
    )
}

/// Whether an equation passes the changes of its operands on to its result: whatever cotangent its
/// result has.
pub open spec fn turned<S: Scalar>(
    v: spec_fn(S) -> real,
    e: EqnV<S>,
    primals: Map<Seq<char>, TensorV<S>>,
    d: Map<Seq<char>, TensorV<S>>,
) -> bool {
    forall|cot: Map<Seq<char>, TensorV<S>>|
        cot.dom().contains(e.out.name) && suits(cot[e.out.name], e.out.shape) ==> #[trigger] turns(
            v,
            e,
            primals,
            d,
            cot,
        )
}

/// Whether the cotangents of operands can be taken back to them.
pub open spec fn all_return<S>(ts: Seq<TensorV<S>>, atoms: Seq<AtomV<S>>) -> bool {
    &&& ts.len() == atoms.len()
    &&& forall|i: int|
        0 <= i < ts.len() && atoms[i].value is None ==> {
            &&& support::weighable(#[trigger] ts[i])
            &&& ts[i].shape.len() <= isize::MAX
            &&& shape::expands_to(atoms[i].shape, ts[i].shape)
        }
}

// ---- graphs ----
/// The variables of a graph: its inputs, then the results of its equations.
pub open spec fn variables<S>(g: GraphV<S>) -> Seq<AtomV<S>> {
    g.invars + Seq::new(g.equations.len(), |j: int| g.equations[j].out)
}

/// Whether an operand is a constant, or one of the first `n` variables.
pub open spec fn among<S>(vars: Seq<AtomV<S>>, a: AtomV<S>, n: int) -> bool {
    a.value is Some || exists|i: int| 0 <= i < n && #[trigger] vars[i] == a
}

/// Whether the variables of a graph have names of their own, and equations only use what stands
/// before them.
pub open spec fn in_order<S>(g: GraphV<S>) -> bool {
    let vars = variables(g);
    &&& loss_shapes::named_apart(vars)
    &&& forall|i: int| 0 <= i < vars.len() ==> (#[trigger] vars[i]).value is None
    &&& forall|j: int, i: int|
        0 <= j < g.equations.len() && 0 <= i < nn::operands_of(g.equations[j].prim).len()
            ==> among(
            vars,
            #[trigger] nn::operands_of(g.equations[j].prim)[i],
            g.invars.len() + j,
        )
}

/// Whether each of some variables has a change.
pub open spec fn all_change<S>(vars: Seq<AtomV<S>>, d: Map<Seq<char>, TensorV<S>>) -> bool {
    forall|i: int| 0 <= i < vars.len() ==> suits(d[(#[trigger] vars[i]).name], vars[i].shape)
}

/// Whether the cotangents that variables have suit them.
pub open spec fn all_suit<S>(vars: Seq<AtomV<S>>, cot: Map<Seq<char>, TensorV<S>>) -> bool {
    forall|i: int|
        0 <= i < vars.len() && cot.dom().contains((#[trigger] vars[i]).name) ==> suits(
            cot[vars[i].name],
            vars[i].shape,
        )
}

/// The inner product of a sum.
proof fn lemma_paired_sum<S: Scalar>(
    v: spec_fn(S) -> real,
    a: TensorV<S>,
    b: TensorV<S>,
    c: TensorV<S>,
    x: TensorV<S>,
)
    requires
        exact::exact(v),
        support::weighable(a),
        support::weighable(b),
        a.shape == b.shape,
        model::bin_tensor(BinOpV::Add, a, b) == Ok::<TensorV<S>, Fault>(c),
    ensures
        support::weighable(c),
        c.shape == a.shape,
        pairing::pairing(v, c, x) == pairing::pairing(v, a, x) + pairing::pairing(v, b, x),
{
    pairing::lemma_add_same(v, a, b, c);
    let f = |k: int| v(a.data[k]) * v(x.data[k]);
    let g = |k: int| v(b.data[k]) * v(x.data[k]);
    let h = |k: int| v(c.data[k]) * v(x.data[k]);
    assert forall|k: int| 0 <= k < c.data.len() implies #[trigger] h(k) == f(k) + g(k) by {
        let (p, q, r) = (v(a.data[k]), v(b.data[k]), v(x.data[k]));
        assert((p + q) * r == p * r + q * r) by (nonlinear_arith);
    }
    sums::lemma_sum_plus(f, g, h, c.data.len());
}

/// Adding to the cotangent of a variable adds to the inner products.
proof fn lemma_accumulated<S: Scalar>(
    v: spec_fn(S) -> real,
    vars: Seq<AtomV<S>>,
    n: nat,
    cot: Map<Seq<char>, TensorV<S>>,
    d: Map<Seq<char>, TensorV<S>>,
    a: AtomV<S>,
    t: TensorV<S>,
    m: Map<Seq<char>, TensorV<S>>,
)
    requires
        exact::exact(v),
        n <= vars.len(),
        loss_shapes::named_apart(vars),
        all_change(vars, d),
        all_suit(vars, cot),
        among(vars, a, n as int),
        a.value is None ==> support::weighable(t) && t.shape.len() <= isize::MAX
            && shape::expands_to(a.shape, t.shape),
        grad::accumulated(cot, a, t) == Ok::<Map<Seq<char>, TensorV<S>>, Fault>(m),
    ensures
        all_suit(vars, m),
        total(v, m, d, vars, n) == total(v, cot, d, vars, n) + (if a.value is Some {
            0real
        } else {
            pairing::spread(v, t, d[a.name])
        }),
{
    if a.value is None {
        let i = choose|i: int| 0 <= i < n && #[trigger] vars[i] == a;
        assert(vars[i] == a);
        let x = d[a.name];
        let u = vjp::unbroadcasted::<S, Tensor<S>>((), t, a.shape).1->Ok_0;
        unspread::lemma_unbroadcast(v, t, x, u);
        let extra = pairing::pairing(v, u, x);
        if cot.dom().contains(a.name) {
            lemma_paired_sum(v, cot[a.name], u, m[a.name], x);
        }
        assert(suits(m[a.name], a.shape));
        let f = |k: int| paired(v, cot, d, vars[k]);
        let g = |k: int|
            if k == i {
                extra
            } else {
                0real
            };
        let h = |k: int| paired(v, m, d, vars[k]);
        assert forall|k: int| 0 <= k < n implies #[trigger] h(k) == f(k) + g(k) by {
            if k < i {
                assert(vars[k].name != vars[i].name);
            } else if i < k {
                assert(vars[i].name != vars[k].name);
            }
        }
        sums::lemma_sum_plus(f, g, h, n);
        sums::lemma_sum_one(g, n, i);
        assert forall|k: int|
            0 <= k < vars.len() && m.dom().contains((#[trigger] vars[k]).name) implies suits(
            m[vars[k].name],
            vars[k].shape,
        ) by {
            if k < i {
                assert(vars[k].name != vars[i].name);
            } else if i < k {
                assert(vars[i].name != vars[k].name);
            }
        }
    }
}

/// Adding to the cotangents of operands.
proof fn lemma_accumulated_all<S: Scalar>(
    v: spec_fn(S) -> real,
    vars: Seq<AtomV<S>>,
    n: nat,
    cot: Map<Seq<char>, TensorV<S>>,
    d: Map<Seq<char>, TensorV<S>>,
    atoms: Seq<AtomV<S>>,
    ts: Seq<TensorV<S>>,
    k: nat,
    m: Map<Seq<char>, TensorV<S>>,
)
    requires
        exact::exact(v),
        n <= vars.len(),
        k <= ts.len(),
        loss_shapes::named_apart(vars),
        all_change(vars, d),
        all_suit(vars, cot),
        forall|i: int| 0 <= i < atoms.len() ==> among(vars, #[trigger] atoms[i], n as int),
        all_return(ts, atoms),
        grad::accumulated_all(cot, atoms, ts, k) == Ok::<Map<Seq<char>, TensorV<S>>, Fault>(m),
    ensures
        all_suit(vars, m),
        total(v, m, d, vars, n) == total(v, cot, d, vars, n) + backed(v, ts, atoms, d, k),
    decreases k,
{
    if k > 0 {
        let before = grad::accumulated_all(cot, atoms, ts, (k - 1) as nat)->Ok_0;
        lemma_accumulated_all(v, vars, n, cot, d, atoms, ts, (k - 1) as nat, before);
        assert(among(vars, atoms[k - 1], n as int));
        assert(atoms[k - 1].value is None ==> support::weighable(ts[k - 1]));
        lemma_accumulated(v, vars, n, before, d, atoms[k - 1], ts[k - 1], m);
    }
}

/// Taking equations back keeps the inner products: what the results had, the inputs have.
proof fn lemma_backward<S: Scalar>(
    v: spec_fn(S) -> real,
    g: GraphV<S>,
    primals: Map<Seq<char>, TensorV<S>>,
    cot: Map<Seq<char>, TensorV<S>>,
    d: Map<Seq<char>, TensorV<S>>,
    k: nat,
    last: Map<Seq<char>, TensorV<S>>,
)
    requires
        exact::exact(v),
        in_order(g),
        k <= g.equations.len(),
        all_change(variables(g), d),
        all_suit(variables(g), cot),
        forall|j: int|
            0 <= j < g.equations.len() ==> turned(v, #[trigger] g.equations[j], primals, d),
        grad::backward(g.equations, primals, cot, k) == Ok::<Map<Seq<char>, TensorV<S>>, Fault>(
            last,
        ),
    ensures
        all_suit(variables(g), last),
        total(v, last, d, variables(g), g.invars.len()) == total(
            v,
            cot,
            d,
            variables(g),
            g.invars.len() + k,
        ),
    decreases k,
{
    if k > 0 {
        let vars = variables(g);
        let e = g.equations[k - 1];
        let n = (g.invars.len() + k - 1) as nat;
        assert(vars[n as int] == e.out);
        let f = |i: int| paired(v, cot, d, vars[i]);
        assert(sums::sum(f, n + 1) == sums::sum(f, n) + f(n as int));
        assert(total(v, cot, d, vars, n + 1) == total(v, cot, d, vars, n) + paired(
            v,
            cot,
            d,
            e.out,
        ));
        if !cot.dom().contains(e.out.name) {
            lemma_backward(v, g, primals, cot, d, (k - 1) as nat, last);
        } else {
            let ts = vjp::vjp_values::<S, Tensor<S>>((), e.prim, e.out, primals, cot).1->Ok_0;
            let atoms = nn::operands_of(e.prim);
            assert(suits(cot[vars[n as int].name], e.out.shape));
            assert(turned(v, e, primals, d));
            assert(turns(v, e, primals, d, cot));
            assert(backed(v, ts, atoms, d, ts.len()) == pairing::pairing(
                v,
                cot[e.out.name],
                d[e.out.name],
            ));
            let m = grad::accumulated_all(cot, atoms, ts, ts.len())->Ok_0;
            assert forall|i: int| 0 <= i < atoms.len() implies among(
                vars,
                #[trigger] atoms[i],
                n as int,
            ) by {
                assert(among(
                    vars,
                    nn::operands_of(g.equations[k - 1].prim)[i],
                    g.invars.len() + (k - 1),
                ));
            }
            lemma_accumulated_all(v, vars, n, cot, d, atoms, ts, ts.len(), m);
            lemma_backward(v, g, primals, m, d, (k - 1) as nat, last);
        }
    }
}

/// The gradients as they stand in the cotangents of the inputs.
proof fn lemma_read<S: Scalar>(
    v: spec_fn(S) -> real,
    ins: Seq<AtomV<S>>,
    cot: Map<Seq<char>, TensorV<S>>,
    d: Map<Seq<char>, TensorV<S>>,
    vars: Seq<AtomV<S>>,
    k: nat,
    gs: Seq<TensorV<S>>,
)
    requires
        exact::exact(v),
        k <= ins.len() <= vars.len(),
        forall|i: int| 0 <= i < ins.len() ==> ins[i] == #[trigger] vars[i],
        grad::gradients(ins, cot, k) == Ok::<Seq<TensorV<S>>, Fault>(gs),
    ensures
        gs.len() == k,
        sums::sum(|i: int| pairing::pairing(v, gs[i], d[ins[i].name]), k) == total(
            v,
            cot,
            d,
            vars,
            k,
        ),
    decreases k,
{
    let f = |i: int| paired(v, cot, d, vars[i]);
    let h = |i: int| pairing::pairing(v, gs[i], d[ins[i].name]);
    if k > 0 {
        let before = grad::gradients(ins, cot, (k - 1) as nat)->Ok_0;
        lemma_read(v, ins, cot, d, vars, (k - 1) as nat, before);
        let b = |i: int| pairing::pairing(v, before[i], d[ins[i].name]);
        assert forall|i: int| 0 <= i < k - 1 implies #[trigger] b(i) == h(i) by {
            assert(gs[i] == before[i]);
        }
        sums::lemma_sum_same(b, h, (k - 1) as nat);
        let a = ins[k - 1];
        assert(vars[k - 1] == a);
        if !cot.dom().contains(a.name) {
            exact::lemma_numbers(v);
            let z = gs[k - 1];
            let x = d[a.name];
            let zeros = |i: int| v(z.data[i]) * v(x.data[i]);
            assert forall|i: int| 0 <= i < z.data.len() implies #[trigger] zeros(i) == 0real by {
                exact::lemma_units(v(x.data[i]), 0real);
            }
            sums::lemma_sum_zero(zeros, z.data.len());
        }
        assert(h(k - 1) == f(k - 1));
    }
    assert(sums::sum(f, k) == total(v, cot, d, vars, k));
}

/// The chain rule of a graph with one output. Let every variable change such that each equation
/// passes the changes of its operands on to its result. The gradients of the inputs pair with
/// the changes of the inputs as the cotangent of the output pairs with its change.
pub proof fn lemma_chain_rule<S: Scalar>(
    v: spec_fn(S) -> real,
    g: GraphV<S>,
    inputs: Seq<TensorV<S>>,
    labels: Option<TensorV<S>>,
    d: Map<Seq<char>, TensorV<S>>,
    gs: Seq<TensorV<S>>,
)
    requires
        exact::exact(v),
        in_order(g),
        g.outvars.len() == 1,
        g.outvars[0].value is None,
        among(variables(g), g.outvars[0], variables(g).len() as int),
        all_change(variables(g), d),
        grad::loss_gradients(g, inputs, labels) == Ok::<Seq<TensorV<S>>, Fault>(gs),
        ({
            let primals = eval::environment::<S, Tensor<S>>((), g, inputs).1->Ok_0;
            &&& suits(grad::seed(g.outvars[0], primals, labels)->Ok_0, g.outvars[0].shape)
            &&& forall|j: int|
                0 <= j < g.equations.len() ==> turned(v, #[trigger] g.equations[j], primals, d)
        }),
    ensures
        ({
            let primals = eval::environment::<S, Tensor<S>>((), g, inputs).1->Ok_0;
            let t = grad::seed(g.outvars[0], primals, labels)->Ok_0;
            &&& gs.len() == g.invars.len()
            &&& sums::sum(
                |i: int| pairing::pairing(v, gs[i], d[g.invars[i].name]),
                gs.len(),
            ) == pairing::pairing(v, t, d[g.outvars[0].name])
        }),
{
    let vars = variables(g);
    let primals = eval::environment::<S, Tensor<S>>((), g, inputs).1->Ok_0;
    let out = g.outvars[0];
    let t = grad::seed(out, primals, labels)->Ok_0;
    reveal_with_fuel(grad::seeds, 2);
    let start = grad::seeds(g.outvars, primals, labels, 1)->Ok_0;
    assert(start == Map::<Seq<char>, TensorV<S>>::empty().insert(out.name, t));
    let q = choose|i: int| 0 <= i < vars.len() && #[trigger] vars[i] == out;
    assert(vars[q] == out);
    assert forall|i: int|
        0 <= i < vars.len() && start.dom().contains((#[trigger] vars[i]).name) implies suits(
        start[vars[i].name],
        vars[i].shape,
    ) by {
        if i < q {
            assert(vars[i].name != vars[q].name);
        } else if q < i {
            assert(vars[q].name != vars[i].name);
        }
    }
    let f = |i: int| paired(v, start, d, vars[i]);
    assert forall|i: int| 0 <= i < vars.len() && i != q implies #[trigger] f(i) == 0real by {
        if i < q {
            assert(vars[i].name != vars[q].name);
        } else {
            assert(vars[q].name != vars[i].name);
        }
    }
    sums::lemma_sum_one(f, vars.len(), q);
    let last = grad::backward(g.equations, primals, start, g.equations.len())->Ok_0;
    lemma_backward(v, g, primals, start, d, g.equations.len(), last);
    assert forall|i: int| 0 <= i < g.invars.len() implies g.invars[i] == #[trigger] vars[i] by {}
    lemma_read(v, g.invars, last, d, vars, g.invars.len(), gs);
}

} // verus!
