//! What the graph of a perceptron computes, and the bound of its first weights.

use vstd::prelude::*;
use crate::env;
use crate::eval;
use crate::exact;
use crate::mlp;
use crate::mlp::LayerV;
use crate::model;
use crate::model::{BinOpV, Fault, TensorV, UnOpV};
use crate::nn;
use crate::nn::{AtomV, EqnV};
use crate::scalar;
use crate::scalar::Scalar;
use crate::soundness;
use crate::tensor::Tensor;

verus! {

/// The result of the first `k` of `n` layers on a batch. The inputs are the batch, then the weights
/// and the biases of each layer. Each layer multiplies by its weights and adds its biases; a
/// rectifier follows each but the last.
pub open spec fn through_layers<S: Scalar>(inputs: Seq<TensorV<S>>, n: nat, k: nat) -> Result<
    TensorV<S>,
    Fault,
>
    decreases k,
{
    if k == 0 {
        Ok(inputs[0])
    } else {
        match through_layers(inputs, n, (k - 1) as nat) {
            Err(f) => Err(f),
            Ok(x) => match model::bin_tensor(BinOpV::Dot, x, inputs[2 * k - 1]) {
                Err(f) => Err(f),
                Ok(h) => match model::bin_tensor(BinOpV::Add, h, inputs[2 * k as int]) {
                    Err(f) => Err(f),
                    Ok(a) => if k == n {
                        Ok(a)
                    } else {
                        model::un_tensor(UnOpV::Relu, a)
                    },
                },
            },
        }
    }
}

/// Whether an equation holds in an environment.
pub open spec fn holds<S: Scalar>(f: Map<Seq<char>, TensorV<S>>, e: EqnV<S>) -> bool {
    f.dom().contains(e.out.name) && eval::prim_value::<S, Tensor<S>>((), f, e.prim).1 == Ok::<
        TensorV<S>,
        Fault,
    >(f[e.out.name])
}

/// Whether no operand of an equation is written by it or by one behind it.
pub open spec fn settled<S>(eqns: Seq<EqnV<S>>, i: int) -> bool {
    forall|o: int, j: int|
        0 <= o < nn::operands_of(eqns[i].prim).len() && i <= j < eqns.len() ==> (
        #[trigger] nn::operands_of(eqns[i].prim)[o]).name != (#[trigger] eqns[j]).out.name
}

/// Every equation holds in the environment that an evaluation leaves.
#[verifier::spinoff_prover]
#[verifier::rlimit(60)]
proof fn lemma_all_hold<S: Scalar>(
    eqns: Seq<EqnV<S>>,
    e: Map<Seq<char>, TensorV<S>>,
    f: Map<Seq<char>, TensorV<S>>,
    i: nat,
)
    requires
        eval::forward::<S, Tensor<S>>((), eqns, e, i).1 == Ok::<Map<Seq<char>, TensorV<S>>, Fault>(
            f,
        ),
        forall|j: int| 0 <= j < eqns.len() ==> #[trigger] settled(eqns, j),
        forall|a: int, b: int|
            0 <= a < b < eqns.len() ==> (#[trigger] eqns[a]).out.name != (
            #[trigger] eqns[b]).out.name,
    ensures
        forall|j: int| i <= j < eqns.len() ==> holds(f, #[trigger] eqns[j]),
    decreases eqns.len() - i,
{
    if i < eqns.len() {
        let q = eqns[i as int];
        let val = eval::prim_value::<S, Tensor<S>>((), e, q.prim).1->Ok_0;
        let next = e.insert(q.out.name, val);
        lemma_all_hold(eqns, next, f, i + 1);
        soundness::lemma_forward_keeps(eqns, next, i + 1, q.out.name);
        assert(settled(eqns, i as int));
        let ops = nn::operands_of(q.prim);
        assert forall|o: int| 0 <= o < ops.len() implies env::resolved::<S, Tensor<S>>(
            f,
            #[trigger] ops[o],
        ) == env::resolved::<S, Tensor<S>>(e, ops[o]) by {
            assert(nn::operands_of(eqns[i as int].prim)[o].name != eqns[i as int].out.name);
            assert forall|j: int| i + 1 <= j < eqns.len() implies (#[trigger] eqns[j]).out.name
                != ops[o].name by {
                assert(nn::operands_of(eqns[i as int].prim)[o].name != eqns[j].out.name);
            }
            soundness::lemma_forward_keeps(eqns, next, i + 1, ops[o].name);
        }
        lemma_same_value(e, f, q);
        assert(holds(f, q));
    }
}

/// Operands of one value give one result.
proof fn lemma_same_value<S: Scalar>(
    e: Map<Seq<char>, TensorV<S>>,
    f: Map<Seq<char>, TensorV<S>>,
    q: EqnV<S>,
)
    requires
        forall|o: int|
            0 <= o < nn::operands_of(q.prim).len() ==> env::resolved::<S, Tensor<S>>(
                f,
                #[trigger] nn::operands_of(q.prim)[o],
            ) == env::resolved::<S, Tensor<S>>(e, nn::operands_of(q.prim)[o]),
    ensures
        eval::prim_value::<S, Tensor<S>>((), f, q.prim).1 == eval::prim_value::<S, Tensor<S>>(
            (),
            e,
            q.prim,
        ).1,
{
    let ops = nn::operands_of(q.prim);
    match q.prim {
        nn::PrimV::Un(_, a) => {
            assert(ops[0] == a);
        },
        nn::PrimV::Bin(_, a, b) => {
            assert(ops[0] == a && ops[1] == b);
        },
        nn::PrimV::Select(c, a, b) => {
            assert(ops[0] == c && ops[1] == a && ops[2] == b);
        },
    }
}

/// The layers so far start the graph of more layers.
proof fn lemma_start<S>(layers: Seq<LayerV<S>>, batch: usize, in_size: usize, k: nat, m: nat)
    requires
        k <= m,
    ensures
        ({
            let (a, b) = (
                mlp::stack(layers, batch, in_size, k),
                mlp::stack(layers, batch, in_size, m),
            );
            &&& a.equations.len() <= b.equations.len()
            &&& a.invars.len() <= b.invars.len()
            &&& forall|j: int|
                0 <= j < a.equations.len() ==> #[trigger] b.equations[j] == a.equations[j]
            &&& forall|j: int| 0 <= j < a.invars.len() ==> #[trigger] b.invars[j] == a.invars[j]
        }),
    decreases m - k,
{
    if k < m {
        lemma_start(layers, batch, in_size, k, (m - 1) as nat);
        let (a, n, b) = (
            mlp::stack(layers, batch, in_size, k),
            mlp::stack(layers, batch, in_size, (m - 1) as nat),
            mlp::stack(layers, batch, in_size, m),
        );
        assert forall|j: int| 0 <= j < a.equations.len() implies #[trigger] b.equations[j]
            == a.equations[j] by {
            assert(b.equations[j] == n.equations[j]);
        }
        assert forall|j: int| 0 <= j < a.invars.len() implies #[trigger] b.invars[j]
            == a.invars[j] by {
            assert(b.invars[j] == n.invars[j]);
        }
    }
}

/// The values of the inputs of a graph.
proof fn lemma_bound<S: Scalar>(vars: Seq<AtomV<S>>, values: Seq<TensorV<S>>, k: nat)
    requires
        k <= vars.len(),
        forall|i: int, j: int|
            0 <= i < j < vars.len() ==> (#[trigger] vars[i]).name != (#[trigger] vars[j]).name,
    ensures
        forall|i: int|
            0 <= i < k ==> eval::bound(vars, values, k).dom().contains((#[trigger] vars[i]).name)
                && eval::bound(vars, values, k)[vars[i].name] == values[i],
    decreases k,
{
    if k > 0 {
        lemma_bound(vars, values, (k - 1) as nat);
        assert forall|i: int| 0 <= i < k implies eval::bound(vars, values, k).dom().contains(
            (#[trigger] vars[i]).name,
        ) && eval::bound(vars, values, k)[vars[i].name] == values[i] by {
            if i < k - 1 {
                assert(vars[i].name != vars[k - 1].name);
            }
        }
    }
}

/// The equations of a perceptron read nothing that stands behind them.
#[verifier::spinoff_prover]
#[verifier::rlimit(60)]
proof fn lemma_settled<S>(layers: Seq<LayerV<S>>, batch: usize, in_size: usize, i: int)
    requires
        layers.len() > 0,
        0 <= i < mlp::mlp_graph(layers, batch, in_size).equations.len(),
    ensures
        settled(mlp::mlp_graph(layers, batch, in_size).equations, i),
{
    let g = mlp::mlp_graph(layers, batch, in_size);
    let eqns = g.equations;
    mlp::lemma_mlp_graph(layers, batch, in_size);
    assert(mlp::eqn_in_place(g.invars, eqns, i));
    assert forall|o: int, j: int|
        0 <= o < nn::operands_of(eqns[i].prim).len() && i <= j < eqns.len() implies (
    #[trigger] nn::operands_of(eqns[i].prim)[o]).name != (#[trigger] eqns[j]).out.name by {
        let a = nn::operands_of(eqns[i].prim)[o];
        assert(mlp::at_hand(g.invars, eqns, a, i));
        if exists|p: int| 0 <= p < g.invars.len() && #[trigger] g.invars[p] == a {
            let p = choose|p: int| 0 <= p < g.invars.len() && #[trigger] g.invars[p] == a;
            assert(g.invars[p].name != eqns[j].out.name);
        } else {
            let p = choose|p: int| 0 <= p < i && (#[trigger] eqns[p]).out == a;
            assert(eqns[p].out.name != eqns[j].out.name);
        }
    }
}

/// What the graph of a perceptron holds behind its first `k` layers.
#[verifier::spinoff_prover]
#[verifier::rlimit(60)]
proof fn lemma_through<S: Scalar>(
    layers: Seq<LayerV<S>>,
    batch: usize,
    in_size: usize,
    inputs: Seq<TensorV<S>>,
    f: Map<Seq<char>, TensorV<S>>,
    k: nat,
)
    requires
        0 < layers.len(),
        k <= layers.len(),
        inputs.len() == 2 * layers.len() + 1,
        ({
            let g = mlp::mlp_graph(layers, batch, in_size);
            &&& forall|j: int| 0 <= j < g.equations.len() ==> holds(f, #[trigger] g.equations[j])
            &&& forall|i: int|
                0 <= i < g.invars.len() ==> f.dom().contains((#[trigger] g.invars[i]).name)
                    && f[g.invars[i].name] == inputs[i]
        }),
    ensures
        ({
            let n = mlp::stack(layers, batch, in_size, k);
            &&& n.last.value is None
            &&& f.dom().contains(n.last.name)
            &&& through_layers(inputs, layers.len(), k) == Ok::<TensorV<S>, Fault>(f[n.last.name])
            &&& n.invars.len() == 2 * k + 1
        }),
    decreases k,
{
    let g = mlp::mlp_graph(layers, batch, in_size);
    let s = mlp::stack(layers, batch, in_size, k);
    lemma_start(layers, batch, in_size, k, layers.len());
    if k == 0 {
        assert(g.invars[0] == s.invars[0]);
    } else {
        lemma_through(layers, batch, in_size, inputs, f, (k - 1) as nat);
        let n = mlp::stack(layers, batch, in_size, (k - 1) as nat);
        let m = n.equations.len() as int;
        let (w, b) = (s.invars[2 * k - 1], s.invars[2 * k as int]);
        assert(g.invars[2 * k - 1] == w && g.invars[2 * k as int] == b);
        assert(g.equations[m] == s.equations[m]);
        assert(g.equations[m + 1] == s.equations[m + 1]);
        let (h, a) = (s.equations[m].out, s.equations[m + 1].out);
        assert(holds(f, g.equations[m]));
        assert(holds(f, g.equations[m + 1]));
        assert(model::bin_tensor(BinOpV::Dot, f[n.last.name], f[w.name]) == Ok::<TensorV<S>, Fault>(
            f[h.name],
        ));
        assert(model::bin_tensor(BinOpV::Add, f[h.name], f[b.name]) == Ok::<TensorV<S>, Fault>(
            f[a.name],
        ));
        if k < layers.len() {
            assert(g.equations[m + 2] == s.equations[m + 2]);
            assert(holds(f, g.equations[m + 2]));
        }
    }
}

/// The graph of a perceptron computes what its layers do to the batch, one after the other.
#[verifier::spinoff_prover]
#[verifier::rlimit(60)]
pub proof fn lemma_perceptron<S: Scalar>(
    layers: Seq<LayerV<S>>,
    batch: usize,
    in_size: usize,
    inputs: Seq<TensorV<S>>,
    outs: Seq<TensorV<S>>,
)
    requires
        layers.len() > 0,
        inputs.len() == 2 * layers.len() + 1,
        eval::evaluated::<S, Tensor<S>>(
            (),
            mlp::mlp_graph(layers, batch, in_size),
            inputs,
        ).1 == Ok::<Seq<TensorV<S>>, Fault>(outs),
    ensures
        outs.len() == 1,
        through_layers(inputs, layers.len(), layers.len()) == Ok::<TensorV<S>, Fault>(outs[0]),
{
    let g = mlp::mlp_graph(layers, batch, in_size);
    let eqns = g.equations;
    mlp::lemma_mlp_graph(layers, batch, in_size);
    let f = eval::environment::<S, Tensor<S>>((), g, inputs).1->Ok_0;
    let start = eval::bound(g.invars, inputs, g.invars.len());
    assert forall|j: int| 0 <= j < eqns.len() implies #[trigger] settled(eqns, j) by {
        lemma_settled(layers, batch, in_size, j);
    }
    lemma_all_hold(eqns, start, f, 0);
    lemma_bound(g.invars, inputs, g.invars.len());
    assert forall|i: int| 0 <= i < g.invars.len() implies f.dom().contains(
        (#[trigger] g.invars[i]).name,
    ) && f[g.invars[i].name] == inputs[i] by {
        soundness::lemma_forward_keeps(eqns, start, 0, g.invars[i].name);
    }
    lemma_through(layers, batch, in_size, inputs, f, layers.len());
    reveal_with_fuel(eval::gathered, 2);
}

/// The bound of the first weights of a layer: its square is six by the number of inputs.
pub proof fn lemma_first_weights<S: Scalar>(v: spec_fn(S) -> real, fan_in: usize)
    requires
        exact::exact(v),
        fan_in > 0,
    ensures
        ({
            let b = v(mlp::kaiming::<S>(fan_in));
            b >= 0real && b * b * (fan_in as real) == 6real
        }),
{
    exact::lemma_numbers(v);
    let n = fan_in as int;
    let (two, three) = (scalar::num::<S>(2), scalar::num::<S>(3));
    assert(v(S::ratio(3, 1)) * (1int as real) == 3int as real);
    exact::lemma_units(v(three), 0real);
    assert(v(S::ratio(n, 1)) * (1int as real) == n as real);
    exact::lemma_units(v(S::ratio(n, 1)), 0real);
    let q = three.over(scalar::num(n));
    let (a, b, c, d) = (v(two.root()), v(q.root()), v(q), n as real);
    assert(c * d == 3real);
    if c < 0real {
        exact::lemma_scale_le(d, c, 0real);
        exact::lemma_units(d, 0real);
    }
    assert(b * b == c && b >= 0real);
    assert(a * a == 2real && a >= 0real);
    exact::lemma_scale_le(a, 0real, b);
    exact::lemma_units(a, 0real);
    exact::lemma_regroup(a, b, a * b);
    exact::lemma_regroup(a, b, a);
    exact::lemma_regroup(a, a, b);
    exact::lemma_regroup(a * a, b, b);
    let e = a * b;
    assert(e * e == (a * a) * (b * b)) by {
        exact::lemma_regroup(e, a, b);
        exact::lemma_regroup(a, b, a);
        exact::lemma_regroup(a * a, b, b);
    }
    assert(e * e == 2real * c);
    exact::lemma_regroup(2real, c, d);
}

} // verus!
