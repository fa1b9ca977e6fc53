//! Networks of layers: contractions and sums with constants, negations and rectifiers.

use vstd::prelude::*;
use crate::batched;
use crate::batched::{BatchV, IBPBatchedTensor};
use crate::containment;
use crate::env;
use crate::eval;
use crate::exact;
use crate::input_splitting;
use crate::input_splitting::BoxV;
use crate::input_verdicts;
use crate::interval;
use crate::interval::{IBPTensor, IBPV};
use crate::members;
use crate::model;
use crate::model::{BinOpV, Fault, TensorV, UnOpV};
use crate::nn;
use crate::nn::{AtomV, EqnV, GraphV, PrimV};
use crate::node_splitting;
use crate::node_verdicts;
use crate::phases;
use crate::reals;
use crate::scalar::Scalar;
use crate::shape;
use crate::soundness;
use crate::support;
use crate::tensor::Tensor;

verus! {

// ---- which graphs ----
/// Whether an atom has a shape without empty axes that fits the machine, and a constant fills it.
pub open spec fn well_shaped<S>(a: AtomV<S>) -> bool {
    &&& shape::fits(a.shape)
    &&& support::dense(a.shape)
    &&& a.value matches Some(k) ==> k.shape == a.shape && reals::full(k)
}

/// The shape of variable number `i` of a graph: of its input, then of the results of its equations.
pub open spec fn shape_at<S>(input: AtomV<S>, eqns: Seq<EqnV<S>>, i: int) -> Seq<usize> {
    if i == 0 {
        input.shape
    } else {
        eqns[i - 1].out.shape
    }
}

/// Whether an operand is a constant, or one of the first `j + 1` variables, with its shape.
pub open spec fn declared<S>(input: AtomV<S>, eqns: Seq<EqnV<S>>, a: AtomV<S>, j: int) -> bool {
    a.value is Some || exists|i: int|
        0 <= i <= j && #[trigger] support::variable(input.name, eqns, i) == a.name && shape_at(
            input,
            eqns,
            i,
        ) == a.shape
}

/// Whether an operation is one of a layer, with a result of the given shape: a rectifier or the
/// negation of a variable, the sum of a variable and a constant that is broadcast to its shape, or the contraction of a vector
/// or matrix with a constant one.
pub open spec fn layer_step<S>(p: PrimV<S>, out: Seq<usize>) -> bool {
    match p {
        PrimV::Un(UnOpV::Relu, a) => a.value is None && out == a.shape,
        PrimV::Un(UnOpV::Neg, a) => a.value is None && out == a.shape,
        PrimV::Bin(BinOpV::Add, a, b) => {
            &&& a.value is None <==> b.value is Some
            &&& out == (if a.value is None {
                a.shape
            } else {
                b.shape
            })
            &&& shape::broadcast(a.shape, b.shape) == Some(out)
        },
        PrimV::Bin(BinOpV::Dot, a, b) => {
            &&& 1 <= a.shape.len() <= 2
            &&& 1 <= b.shape.len() <= 2
            &&& (a.value is None && b.value is Some) || (a.value is Some && b.value is None
                && b.shape.len() == 1)
            &&& model::dot_shape(a.shape, b.shape) == Ok::<Seq<usize>, Fault>(out)
        },
        _ => false,
    }
}

/// Whether equation `j` is one of a layer: its operands and its result are declared.
pub open spec fn layer_eqn<S>(input: AtomV<S>, eqns: Seq<EqnV<S>>, j: int) -> bool {
    let (p, out) = (eqns[j].prim, eqns[j].out);
    &&& out.value is None
    &&& well_shaped(out)
    &&& layer_step(p, out.shape)
    &&& forall|i: int|
        0 <= i < nn::operands_of(p).len() ==> well_shaped(#[trigger] nn::operands_of(p)[i])
            && declared(input, eqns, nn::operands_of(p)[i], j)
}

/// Whether a graph is a network of layers with one input and one output.
pub open spec fn layered<S>(g: GraphV<S>) -> bool {
    let eqns = g.equations;
    &&& g.invars.len() == 1
    &&& g.outvars.len() == 1
    &&& eqns.len() > 0
    &&& g.outvars[0] == eqns[eqns.len() - 1].out
    &&& g.invars[0].value is None
    &&& well_shaped(g.invars[0])
    &&& support::distinct(g.invars[0].name, eqns)
    &&& forall|j: int| 0 <= j < eqns.len() ==> #[trigger] layer_eqn(g.invars[0], eqns, j)
}

/// The operands of a network of layers are in scope and its constants fill their shapes.
pub proof fn lemma_layered<S: Scalar>(g: GraphV<S>)
    requires
        layered(g),
    ensures
        soundness::ordered(g.invars[0], g.equations),
        forall|j: int|
            0 <= j < g.equations.len() ==> containment::solid((#[trigger] g.equations[j]).prim),
{
    let (input, eqns) = (g.invars[0], g.equations);
    assert forall|j: int| 0 <= j < eqns.len() implies containment::solid(
        (#[trigger] eqns[j]).prim,
    ) && eqns[j].out.value is None by {
        assert(layer_eqn(input, eqns, j));
    }
    assert forall|j: int, i: int|
        0 <= j < eqns.len() && 0 <= i < nn::operands_of(eqns[j].prim).len() implies support::in_scope(
        input.name,
        eqns,
        #[trigger] nn::operands_of(eqns[j].prim)[i],
        j,
    ) by {
        assert(layer_eqn(input, eqns, j));
        assert(declared(input, eqns, nn::operands_of(eqns[j].prim)[i], j));
    }
}

// ---- tensors ----
/// Whether the first `j + 1` variables of a graph have tensors of their shapes.
pub open spec fn shapes_hold<S>(
    e: Map<Seq<char>, TensorV<S>>,
    input: AtomV<S>,
    eqns: Seq<EqnV<S>>,
    j: int,
) -> bool {
    forall|i: int|
        #![trigger support::variable(input.name, eqns, i)]
        0 <= i <= j ==> {
            let name = support::variable(input.name, eqns, i);
            &&& e.dom().contains(name)
            &&& e[name].shape == shape_at(input, eqns, i)
            &&& reals::full(e[name])
        }
}

/// What an operand of a layer stands for.
proof fn lemma_operand<S: Scalar>(
    e: Map<Seq<char>, TensorV<S>>,
    input: AtomV<S>,
    eqns: Seq<EqnV<S>>,
    a: AtomV<S>,
    j: int,
)
    requires
        shapes_hold(e, input, eqns, j),
        well_shaped(a),
        declared(input, eqns, a, j),
    ensures
        env::resolved::<S, Tensor<S>>(e, a) matches Ok(t) && t.shape == a.shape && reals::full(t),
{
    if a.value is None {
        let i = choose|i: int|
            0 <= i <= j && #[trigger] support::variable(input.name, eqns, i) == a.name && shape_at(
                input,
                eqns,
                i,
            ) == a.shape;
        assert(e.dom().contains(support::variable(input.name, eqns, i)));
    }
}

/// An operation of a layer on tensors.
proof fn lemma_layer_value<S: Scalar>(
    e: Map<Seq<char>, TensorV<S>>,
    input: AtomV<S>,
    eqns: Seq<EqnV<S>>,
    j: int,
)
    requires
        shapes_hold(e, input, eqns, j),
        layer_eqn(input, eqns, j),
    ensures
        eval::prim_value::<S, Tensor<S>>((), e, eqns[j].prim).1 matches Ok(t) && t.shape
            == eqns[j].out.shape && reals::full(t),
{
    let p = eqns[j].prim;
    let v = nn::operands_of(p);
    lemma_operand(e, input, eqns, v[0], j);
    match p {
        PrimV::Bin(op, a, b) => {
            lemma_operand(e, input, eqns, v[1], j);
            let (s, t) = (
                env::resolved::<S, Tensor<S>>(e, a)->Ok_0,
                env::resolved::<S, Tensor<S>>(e, b)->Ok_0,
            );
            reals::lemma_bilinear_len(op, s, t, eqns[j].out.shape);
        },
        _ => {},
    }
}

/// One more variable has its shape.
proof fn lemma_one_more_shape<S>(
    e: Map<Seq<char>, TensorV<S>>,
    input: AtomV<S>,
    eqns: Seq<EqnV<S>>,
    j: int,
    t: TensorV<S>,
)
    requires
        0 <= j < eqns.len(),
        shapes_hold(e, input, eqns, j),
        support::distinct(input.name, eqns),
        t.shape == eqns[j].out.shape,
        reals::full(t),
    ensures
        shapes_hold(e.insert(eqns[j].out.name, t), input, eqns, j + 1),
{
    let f = e.insert(eqns[j].out.name, t);
    assert forall|i: int|
        #![trigger support::variable(input.name, eqns, i)]
        0 <= i <= j + 1 implies {
        let name = support::variable(input.name, eqns, i);
        &&& f.dom().contains(name)
        &&& f[name].shape == shape_at(input, eqns, i)
        &&& reals::full(f[name])
    } by {
        assert(support::variable(input.name, eqns, j + 1) == eqns[j].out.name);
        if i <= j {
            assert(support::variable(input.name, eqns, i) != support::variable(
                input.name,
                eqns,
                j + 1,
            ));
        }
    }
}

/// The equations from number `j` on have values.
proof fn lemma_forward_shapes<S: Scalar>(
    e: Map<Seq<char>, TensorV<S>>,
    input: AtomV<S>,
    eqns: Seq<EqnV<S>>,
    j: nat,
)
    requires
        j <= eqns.len(),
        shapes_hold(e, input, eqns, j as int),
        support::distinct(input.name, eqns),
        forall|k: int| 0 <= k < eqns.len() ==> #[trigger] layer_eqn(input, eqns, k),
    ensures
        eval::forward::<S, Tensor<S>>((), eqns, e, j).1 matches Ok(f) && shapes_hold(
            f,
            input,
            eqns,
            eqns.len() as int,
        ),
    decreases eqns.len() - j,
{
    if j < eqns.len() {
        assert(layer_eqn(input, eqns, j as int));
        lemma_layer_value(e, input, eqns, j as int);
        let t = eval::prim_value::<S, Tensor<S>>((), e, eqns[j as int].prim).1->Ok_0;
        lemma_one_more_shape(e, input, eqns, j as int, t);
        lemma_forward_shapes(e.insert(eqns[j as int].out.name, t), input, eqns, j + 1);
    }
}

/// A network of layers has an output on every tensor of the shape of its input, and all variables
/// have their shapes.
pub proof fn lemma_layers_run<S: Scalar>(g: GraphV<S>, x: TensorV<S>)
    requires
        layered(g),
        x.shape == g.invars[0].shape,
        reals::full(x),
    ensures
        eval::environment::<S, Tensor<S>>((), g, seq![x]).1 matches Ok(f) && {
            &&& shapes_hold(f, g.invars[0], g.equations, g.equations.len() as int)
            &&& soundness::all_shaped(f, g.invars[0], g.equations)
            &&& f[g.outvars[0].name].data.len() == shape::product(g.outvars[0].shape)
            &&& eval::evaluated::<S, Tensor<S>>((), g, seq![x]).1 == Ok::<Seq<TensorV<S>>, Fault>(
                seq![f[g.outvars[0].name]],
            )
        },
{
    let (input, eqns) = (g.invars[0], g.equations);
    let n = eqns.len() as int;
    let given = eval::bound(g.invars, seq![x], 1);
    reveal_with_fuel(eval::bound, 2);
    reveal_with_fuel(eval::gathered, 2);
    assert(given == Map::<Seq<char>, TensorV<S>>::empty().insert(input.name, x));
    assert(shapes_hold(given, input, eqns, 0));
    lemma_forward_shapes(given, input, eqns, 0);
    let f = eval::forward::<S, Tensor<S>>((), eqns, given, 0).1->Ok_0;
    assert(support::variable(input.name, eqns, 0) == input.name);
    assert(support::variable(input.name, eqns, n) == eqns[n - 1].out.name);
    assert forall|j: int| 0 <= j < eqns.len() implies support::shaped(
        f,
        (#[trigger] eqns[j]).out,
    ) by {
        assert(layer_eqn(input, eqns, j));
        assert(support::variable(input.name, eqns, j + 1) == eqns[j].out.name);
    }
    assert forall|j: int, i: int|
        0 <= j < eqns.len() && 0 <= i < nn::operands_of(eqns[j].prim).len() implies support::shaped(
        f,
        #[trigger] nn::operands_of(eqns[j].prim)[i],
    ) by {
        assert(layer_eqn(input, eqns, j));
        let a = nn::operands_of(eqns[j].prim)[i];
        assert(shapes_hold(f, input, eqns, j));
        lemma_operand(f, input, eqns, a, j);
    }
    assert(eval::evaluated::<S, Tensor<S>>((), g, seq![x]).1->Ok_0 =~= seq![f[g.outvars[0].name]]);
}

// ---- intervals ----
/// Whether the first `j + 1` variables of a graph have intervals of their shapes.
pub open spec fn spans_hold<S>(
    e: Map<Seq<char>, IBPV<S>>,
    input: AtomV<S>,
    eqns: Seq<EqnV<S>>,
    j: int,
) -> bool {
    forall|i: int|
        #![trigger support::variable(input.name, eqns, i)]
        0 <= i <= j ==> {
            let name = support::variable(input.name, eqns, i);
            e.dom().contains(name) && spans(e[name], shape_at(input, eqns, i))
        }
}

/// Whether an interval has a shape.
pub open spec fn spans<S>(x: IBPV<S>, s: Seq<usize>) -> bool {
    x.lb.shape == s && x.ub.shape == s && reals::full(x.lb) && reals::full(x.ub)
}

/// What an operand of a layer stands for.
pub proof fn lemma_operand_span<S: Scalar>(
    e: Map<Seq<char>, IBPV<S>>,
    input: AtomV<S>,
    eqns: Seq<EqnV<S>>,
    a: AtomV<S>,
    j: int,
)
    requires
        exists|v: spec_fn(S) -> real| #[trigger] exact::exact(v),
        spans_hold(e, input, eqns, j),
        well_shaped(a),
        declared(input, eqns, a, j),
    ensures
        env::resolved::<S, IBPTensor<S>>(e, a) matches Ok(x) && spans(x, a.shape) && (a.value is Some
            ==> x.is_point),
{
    if a.value is None {
        let i = choose|i: int|
            0 <= i <= j && #[trigger] support::variable(input.name, eqns, i) == a.name && shape_at(
                input,
                eqns,
                i,
            ) == a.shape;
        assert(e.dom().contains(support::variable(input.name, eqns, i)));
    } else {
        let v = choose|v: spec_fn(S) -> real| #[trigger] exact::exact(v);
        let k = a.value->0;
        assert(interval::all_same(k, k));
    }
}

/// An operation of a layer on intervals.
pub proof fn lemma_layer_span<S: Scalar>(
    v: spec_fn(S) -> real,
    e: Map<Seq<char>, IBPV<S>>,
    input: AtomV<S>,
    eqns: Seq<EqnV<S>>,
    j: int,
)
    requires
        exact::exact(v),
        spans_hold(e, input, eqns, j),
        layer_eqn(input, eqns, j),
    ensures
        containment::prim_bounded(v, e, eqns[j].prim),
        eval::prim_value::<S, IBPTensor<S>>((), e, eqns[j].prim).1 matches Ok(x) && spans(
            x,
            eqns[j].out.shape,
        ),
{
    let p = eqns[j].prim;
    let w = nn::operands_of(p);
    let out = eqns[j].out.shape;
    lemma_operand_span(e, input, eqns, w[0], j);
    match p {
        PrimV::Bin(op, a, b) => {
            lemma_operand_span(e, input, eqns, w[1], j);
            let (x, y) = (
                env::resolved::<S, IBPTensor<S>>(e, a)->Ok_0,
                env::resolved::<S, IBPTensor<S>>(e, b)->Ok_0,
            );
            if op is Add {
                reals::lemma_bilinear_len(op, x.lb, y.lb, out);
                reals::lemma_bilinear_len(op, x.ub, y.ub, out);
            } else if x.is_point {
                reals::lemma_bilinear_len(op, x.lb, interval::middle(y.ub, y.lb), out);
            } else {
                reals::lemma_bilinear_len(op, interval::middle(x.lb, x.ub), y.lb, out);
            }
        },
        _ => {},
    }
}

/// One more variable has its shape.
pub proof fn lemma_one_more_span<S>(
    e: Map<Seq<char>, IBPV<S>>,
    input: AtomV<S>,
    eqns: Seq<EqnV<S>>,
    j: int,
    x: IBPV<S>,
)
    requires
        0 <= j < eqns.len(),
        spans_hold(e, input, eqns, j),
        support::distinct(input.name, eqns),
        spans(x, eqns[j].out.shape),
    ensures
        spans_hold(e.insert(eqns[j].out.name, x), input, eqns, j + 1),
{
    let f = e.insert(eqns[j].out.name, x);
    assert forall|i: int|
        #![trigger support::variable(input.name, eqns, i)]
        0 <= i <= j + 1 implies {
        let name = support::variable(input.name, eqns, i);
        f.dom().contains(name) && spans(f[name], shape_at(input, eqns, i))
    } by {
        assert(support::variable(input.name, eqns, j + 1) == eqns[j].out.name);
        if i <= j {
            assert(support::variable(input.name, eqns, i) != support::variable(
                input.name,
                eqns,
                j + 1,
            ));
        }
    }
}

/// The equations from number `j` on have bounds.
proof fn lemma_forward_spans<S: Scalar>(
    v: spec_fn(S) -> real,
    e: Map<Seq<char>, IBPV<S>>,
    input: AtomV<S>,
    eqns: Seq<EqnV<S>>,
    j: nat,
)
    requires
        exact::exact(v),
        j <= eqns.len(),
        spans_hold(e, input, eqns, j as int),
        support::distinct(input.name, eqns),
        forall|k: int| 0 <= k < eqns.len() ==> #[trigger] layer_eqn(input, eqns, k),
    ensures
        eval::forward::<S, IBPTensor<S>>((), eqns, e, j).1 matches Ok(f) && spans_hold(
            f,
            input,
            eqns,
            eqns.len() as int,
        ),
        containment::all_bounded(v, eqns, e, j),
    decreases eqns.len() - j,
{
    if j < eqns.len() {
        assert(layer_eqn(input, eqns, j as int));
        lemma_layer_span(v, e, input, eqns, j as int);
        let x = eval::prim_value::<S, IBPTensor<S>>((), e, eqns[j as int].prim).1->Ok_0;
        lemma_one_more_span(e, input, eqns, j as int, x);
        lemma_forward_spans(v, e.insert(eqns[j as int].out.name, x), input, eqns, j + 1);
    }
}

/// The equations from number `j` on have bounds where rectifiers are split.
proof fn lemma_split_spans<S: Scalar>(
    v: spec_fn(S) -> real,
    e: Map<Seq<char>, IBPV<S>>,
    input: AtomV<S>,
    eqns: Seq<EqnV<S>>,
    splits: Map<Seq<char>, TensorV<S>>,
    j: nat,
)
    requires
        exact::exact(v),
        j <= eqns.len(),
        spans_hold(e, input, eqns, j as int),
        support::distinct(input.name, eqns),
        forall|k: int| 0 <= k < eqns.len() ==> #[trigger] layer_eqn(input, eqns, k),
    ensures
        phases::split_bounded(v, eqns, e, splits, j),
    decreases eqns.len() - j,
{
    if j < eqns.len() {
        let eqn = eqns[j as int];
        assert(layer_eqn(input, eqns, j as int));
        lemma_layer_span(v, e, input, eqns, j as int);
        if let Some(x) = node_splitting::split_value(eqn, e, splits) {
            assert(spans(x, eqn.out.shape)) by {
                match eqn.prim {
                    PrimV::Un(UnOpV::Relu, a) => {
                        assert(nn::operands_of(eqn.prim)[0] == a);
                        lemma_operand_span(e, input, eqns, a, j as int);
                    },
                    _ => {},
                }
            }
            lemma_one_more_span(e, input, eqns, j as int, x);
            lemma_split_spans(v, e.insert(eqn.out.name, x), input, eqns, splits, j + 1);
        }
    }
}

// ---- batches ----
/// Whether the first `j + 1` variables of a graph have batches of one rank more than they have.
pub open spec fn ranks_hold<S>(
    b: Map<Seq<char>, BatchV<S>>,
    input: AtomV<S>,
    eqns: Seq<EqnV<S>>,
    j: int,
) -> bool {
    forall|i: int|
        #![trigger support::variable(input.name, eqns, i)]
        0 <= i <= j ==> {
            let name = support::variable(input.name, eqns, i);
            b.dom().contains(name) && stacks(b[name], shape_at(input, eqns, i))
        }
}

/// Whether a batch of members holds values of the rank of a shape.
pub open spec fn stacks<S>(b: BatchV<S>, s: Seq<usize>) -> bool {
    &&& b.lb.shape.len() == s.len() + 1
    &&& b.ub.shape.len() == s.len() + 1
    &&& !b.shared
}

/// The rank of a contraction.
proof fn lemma_dot_rank(a: Seq<usize>, b: Seq<usize>)
    requires
        a.len() > 0,
        b.len() > 0,
    ensures
        model::dot_shape(a, b) matches Ok(s) ==> s.len() == a.len() + b.len() - 2,
{
}

/// What an operand of a layer stands for in a batch.
proof fn lemma_operand_stacks<S: Scalar>(
    b: Map<Seq<char>, BatchV<S>>,
    input: AtomV<S>,
    eqns: Seq<EqnV<S>>,
    a: AtomV<S>,
    j: int,
)
    requires
        ranks_hold(b, input, eqns, j),
        well_shaped(a),
        declared(input, eqns, a, j),
    ensures
        env::resolved::<S, IBPBatchedTensor<S>>(b, a) matches Ok(x) && if a.value is Some {
            x == (BatchV { lb: a.value->0, ub: a.value->0, shared: true })
        } else {
            stacks(x, a.shape)
        },
{
    if a.value is None {
        let i = choose|i: int|
            0 <= i <= j && #[trigger] support::variable(input.name, eqns, i) == a.name && shape_at(
                input,
                eqns,
                i,
            ) == a.shape;
        assert(b.dom().contains(support::variable(input.name, eqns, i)));
    }
}

/// The rank of a contraction with a constant.
proof fn lemma_dot_stacks<S: Scalar>(
    a: AtomV<S>,
    c: AtomV<S>,
    x: BatchV<S>,
    y: BatchV<S>,
    out: Seq<usize>,
)
    requires
        layer_step(PrimV::Bin(BinOpV::Dot, a, c), out),
        well_shaped(a),
        well_shaped(c),
        if a.value is Some {
            x == (BatchV { lb: a.value->0, ub: a.value->0, shared: true })
        } else {
            stacks(x, a.shape)
        },
        if c.value is Some {
            y == (BatchV { lb: c.value->0, ub: c.value->0, shared: true })
        } else {
            stacks(y, c.shape)
        },
    ensures
        batched::bin_batch(BinOpV::Dot, x, y) matches Ok(z) ==> stacks(z, out),
{
    lemma_dot_rank(a.shape, c.shape);
    lemma_dot_rank(x.lb.shape, y.lb.shape);
    lemma_dot_rank(x.lb.shape, y.ub.shape);
    lemma_dot_rank(x.ub.shape, y.lb.shape);
    lemma_dot_rank(x.ub.shape, y.ub.shape);
    if a.value is Some {
        let k = a.value->0;
        lemma_dot_rank(y.lb.shape, k.shape);
        lemma_dot_rank(y.ub.shape, k.shape);
        if let Ok(t) = model::un_tensor(UnOpV::MoveAxis(0, 1), k) {
            lemma_dot_rank(y.lb.shape, t.shape);
            lemma_dot_rank(y.ub.shape, t.shape);
        }
        let m = interval::middle(k, k);
        if let Ok(t) = model::un_tensor(UnOpV::MoveAxis(0, 1), m) {
            lemma_dot_rank(y.lb.shape, t.shape);
        }
    }
}

/// An operation of a layer on batches.
proof fn lemma_layer_stacks<S: Scalar>(
    v: spec_fn(S) -> real,
    b: Map<Seq<char>, BatchV<S>>,
    input: AtomV<S>,
    eqns: Seq<EqnV<S>>,
    j: int,
)
    requires
        exact::exact(v),
        ranks_hold(b, input, eqns, j),
        layer_eqn(input, eqns, j),
    ensures
        members::prim_acts(v, b, eqns[j].prim),
        eval::prim_value::<S, IBPBatchedTensor<S>>((), b, eqns[j].prim).1 matches Ok(x) ==> stacks(
            x,
            eqns[j].out.shape,
        ),
{
    let p = eqns[j].prim;
    let w = nn::operands_of(p);
    let out = eqns[j].out.shape;
    lemma_operand_stacks(b, input, eqns, w[0], j);
    match p {
        PrimV::Bin(op, a, c) => {
            lemma_operand_stacks(b, input, eqns, w[1], j);
            let (x, y) = (
                env::resolved::<S, IBPBatchedTensor<S>>(b, a)->Ok_0,
                env::resolved::<S, IBPBatchedTensor<S>>(b, c)->Ok_0,
            );
            if op is Dot {
                lemma_dot_stacks(a, c, x, y, out);
            }
        },
        _ => {},
    }
}

/// The equations from number `j` on act on members.
proof fn lemma_forward_stacks<S: Scalar>(
    v: spec_fn(S) -> real,
    b: Map<Seq<char>, BatchV<S>>,
    input: AtomV<S>,
    eqns: Seq<EqnV<S>>,
    j: nat,
)
    requires
        exact::exact(v),
        j <= eqns.len(),
        ranks_hold(b, input, eqns, j as int),
        support::distinct(input.name, eqns),
        forall|k: int| 0 <= k < eqns.len() ==> #[trigger] layer_eqn(input, eqns, k),
    ensures
        members::all_act(v, eqns, b, j),
    decreases eqns.len() - j,
{
    if j < eqns.len() {
        let eqn = eqns[j as int];
        assert(layer_eqn(input, eqns, j as int));
        lemma_layer_stacks(v, b, input, eqns, j as int);
        if let Ok(x) = eval::prim_value::<S, IBPBatchedTensor<S>>((), b, eqn.prim).1 {
            let f = b.insert(eqn.out.name, x);
            assert forall|i: int|
                #![trigger support::variable(input.name, eqns, i)]
                0 <= i <= j + 1 implies {
                let name = support::variable(input.name, eqns, i);
                f.dom().contains(name) && stacks(f[name], shape_at(input, eqns, i))
            } by {
                assert(support::variable(input.name, eqns, j as int + 1) == eqn.out.name);
                if i <= j {
                    assert(support::variable(input.name, eqns, i) != support::variable(
                        input.name,
                        eqns,
                        j as int + 1,
                    ));
                }
            }
            lemma_forward_stacks(v, f, input, eqns, j + 1);
        }
    }
}

/// The bounds that a network of layers has on a batch of boxes hold of every box, for boxes within
/// one of the shape of its input.
pub proof fn lemma_layers_batch<S: Scalar>(v: spec_fn(S) -> real, g: GraphV<S>, root: IBPV<S>)
    requires
        exact::exact(v),
        layered(g),
        root.lb.shape == g.invars[0].shape,
    ensures
        input_verdicts::batches_hold(v, g, seq![root]),
{
    let (input, eqns) = (g.invars[0], g.equations);
    let roots = seq![root];
    lemma_layered(g);
    assert forall|picked: Seq<BoxV<S>>|
        input_verdicts::all_nested(v, picked, roots) && input_splitting::all_of_length(
            picked,
            roots.len(),
        ) implies (#[trigger] input_splitting::batches(picked, roots.len()) matches Ok(b)
        ==> members::all_act(v, eqns, eval::bound(g.invars, b, roots.len()), 0)) by {
        reveal_with_fuel(input_splitting::batches, 2);
        reveal_with_fuel(eval::bound, 2);
        if let Ok(b) = input_splitting::batches(picked, 1) {
            let c = input_splitting::position(picked, 0);
            assert(batched::batch_from(c) == Ok::<BatchV<S>, Fault>(b[0]));
            assert(c.len() > 0);
            let own = picked[0].inputs;
            assert(input_verdicts::nested(v, own, roots));
            let ends = input_splitting::upper_ends(own);
            assert(input_verdicts::in_box(v, ends, roots));
            assert(containment::inside(v, ends[0], roots[0]));
            assert(containment::inside(v, ends[0], own[0]));
            assert(batched::lows(c)[0] == own[0].lb && batched::highs(c)[0] == own[0].ub);
            let e = eval::bound(g.invars, b, 1);
            assert(ranks_hold(e, input, eqns, 0)) by {
                assert(support::variable(input.name, eqns, 0) == input.name);
            }
            lemma_forward_stacks(v, e, input, eqns, 0);
        }
    }
    members::lemma_batches_hold(v, g, roots);
}

// ---- one box ----
/// All variables of a network of layers have bounds on a box of the shape of its input, whatever
/// the phases of its rectifiers are.
pub proof fn lemma_layers_bound<S: Scalar>(v: spec_fn(S) -> real, g: GraphV<S>, region: IBPV<S>)
    requires
        exact::exact(v),
        layered(g),
        spans(region, g.invars[0].shape),
    ensures
        eval::forward::<S, IBPTensor<S>>(
            (),
            g.equations,
            node_verdicts::given(g, region),
            0,
        ).1 matches Ok(e) && spans_hold(e, g.invars[0], g.equations, g.equations.len() as int),
        containment::all_bounded(v, g.equations, node_verdicts::given(g, region), 0),
        forall|splits: Map<Seq<char>, TensorV<S>>| #[trigger]
            phases::split_bounded(v, g.equations, node_verdicts::given(g, region), splits, 0),
{
    let (input, eqns) = (g.invars[0], g.equations);
    let start = node_verdicts::given(g, region);
    assert(spans_hold(start, input, eqns, 0)) by {
        assert(support::variable(input.name, eqns, 0) == input.name);
    }
    lemma_forward_spans(v, start, input, eqns, 0);
    assert forall|splits: Map<Seq<char>, TensorV<S>>| #[trigger]
        phases::split_bounded(v, eqns, start, splits, 0) by {
        lemma_split_spans(v, start, input, eqns, splits, 0);
    }
}

/// Splits that an input of a box meets are feasible: only splits that no input of the box can
/// meet are reported infeasible.
pub proof fn lemma_layers_feasible<S: Scalar>(
    v: spec_fn(S) -> real,
    g: GraphV<S>,
    region: IBPV<S>,
    splits: Map<Seq<char>, TensorV<S>>,
    x: TensorV<S>,
)
    requires
        exact::exact(v),
        layered(g),
        region.lb.shape == g.invars[0].shape,
        containment::inside(v, x, region),
        eval::environment::<S, Tensor<S>>((), g, seq![x]).1 matches Ok(f) ==> phases::agrees(
            v,
            f,
            g.equations,
            splits,
        ),
    ensures
        node_splitting::feasible(g, region, splits),
{
    lemma_layered(g);
    lemma_layers_run(g, x);
    lemma_layers_bound(v, g, region);
    let f = eval::environment::<S, Tensor<S>>((), g, seq![x]).1->Ok_0;
    phases::lemma_feasible(v, g, region, splits, x, f);
}

/// What the search over a network of layers asks for: bounds of all variables, with or without
/// splits, and an output on every input of the box.
pub proof fn lemma_layers_tractable<S: Scalar>(v: spec_fn(S) -> real, g: GraphV<S>, region: IBPV<S>)
    requires
        exact::exact(v),
        layered(g),
        shape::product(g.outvars[0].shape) == 1,
        region.lb.shape == g.invars[0].shape,
        containment::inside(v, region.ub, region),
    ensures
        eval::forward::<S, IBPTensor<S>>(
            (),
            g.equations,
            node_verdicts::given(g, region),
            0,
        ).1 matches Ok(e) && {
            &&& spans_hold(e, g.invars[0], g.equations, g.equations.len() as int)
            &&& node_verdicts::tractable(v, g, region, e)
        },
{
    let (input, eqns) = (g.invars[0], g.equations);
    let start = node_verdicts::given(g, region);
    lemma_layered(g);
    lemma_layers_bound(v, g, region);
    let e = eval::forward::<S, IBPTensor<S>>((), eqns, start, 0).1->Ok_0;
    assert forall|j: int| 0 <= j < eqns.len() implies node_verdicts::eqn_suits(
        v,
        e,
        #[trigger] eqns[j],
    ) by {
        assert(layer_eqn(input, eqns, j));
    }
    assert forall|x: TensorV<S>| #[trigger] containment::inside(v, x, region) implies (
    eval::environment::<S, Tensor<S>>((), g, seq![x]).1 matches Ok(f)
        ==> node_verdicts::one_output(g, f)) by {
        lemma_layers_run(g, x);
    }
}

} // verus!
