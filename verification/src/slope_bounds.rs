//! Bounds with optimised slopes are sound: in exact arithmetic, the output lies between the two
//! affine functions.

use vstd::prelude::*;
use crate::affine::AffineV;
use crate::alpha_crown;
use crate::ascent;
use crate::compute_graph;
use crate::crown;
use crate::crown::{ParamsV, StartV};
use crate::env;
use crate::eval;
use crate::exact;
use crate::interval::IBPV;
use crate::model;
use crate::model::{Fault, TensorV, UnOpV};
use crate::nn;
use crate::nn::{AtomV, EqnV, GraphV, PrimV};
use crate::node_verdicts;
use crate::pairing;
use crate::scalar::Scalar;
use crate::soundness;
use crate::sums;
use crate::support;
use crate::tensor::Tensor;
use crate::text;
use crate::tracer;

verus! {

// ---- slopes ----
/// Whether slopes for the operand of equation `j` have its shape.
pub open spec fn slope_fits<S: Scalar>(
    b: Map<Seq<char>, IBPV<S>>,
    eqns: Seq<EqnV<S>>,
    p: Map<Seq<char>, TensorV<S>>,
    j: int,
) -> bool {
    let name = eqns[j].out.name;
    match eqns[j].prim {
        PrimV::Un(_, a) => nn::is_activation(eqns[j].prim) && p.dom().contains(name) ==> (
        crown::bounds_of(b, a) matches Ok(c) ==> pairing::sizable(p[name]) && p[name].shape
            == c.lb.shape),
        _ => true,
    }
}

/// Whether slopes have the shapes of the operands that they belong to.
pub open spec fn slopes_fit<S: Scalar>(
    b: Map<Seq<char>, IBPV<S>>,
    eqns: Seq<EqnV<S>>,
    p: Map<Seq<char>, TensorV<S>>,
) -> bool {
    forall|j: int| 0 <= j < eqns.len() ==> #[trigger] slope_fits(b, eqns, p, j)
}

/// Whether an environment and intervals are those of a graph whose operations can all be relaxed
/// soundly.
pub open spec fn relaxable<S: Scalar>(
    v: spec_fn(S) -> real,
    g: GraphV<S>,
    x: TensorV<S>,
    f: Map<Seq<char>, TensorV<S>>,
    b: Map<Seq<char>, IBPV<S>>,
) -> bool {
    &&& g.invars.len() == 1
    &&& soundness::ordered(g.invars[0], g.equations)
    &&& eval::environment::<S, Tensor<S>>((), g, seq![x]).1 == Ok::<
        Map<Seq<char>, TensorV<S>>,
        Fault,
    >(f)
    &&& soundness::all_shaped(f, g.invars[0], g.equations)
    &&& forall|j: int|
        0 <= j < g.equations.len() ==> soundness::operands_inside(
            v,
            f,
            b,
            (#[trigger] g.equations[j]).prim,
        )
    &&& forall|j: int|
        0 <= j < g.equations.len() ==> node_verdicts::eqn_suits(v, b, #[trigger] g.equations[j])
}

/// The affine function below a variable, for slopes between zero and one, is below it.
pub proof fn lemma_slopes_sound<S: Scalar>(
    v: spec_fn(S) -> real,
    g: GraphV<S>,
    x: TensorV<S>,
    f: Map<Seq<char>, TensorV<S>>,
    b: Map<Seq<char>, IBPV<S>>,
    p: Map<Seq<char>, TensorV<S>>,
    start: StartV,
    a: AffineV<TensorV<S>>,
    out: AtomV<S>,
    k: nat,
    scores: Map<Seq<char>, TensorV<S>>,
)
    requires
        exact::exact(v),
        relaxable(v, g, x, f, b),
        ascent::slopes_in_range(v, p),
        slopes_fit(b, g.equations, p),
        crown::start_of(g, start) == Some((out, k)),
        out.value is None,
        support::shaped(f, out),
        support::in_scope(g.invars[0].name, g.equations, out, k as int),
        crown::lower_bound::<S, Tensor<S>>(
            (),
            g,
            b,
            ParamsV { alphas: p, splitting: None },
            start,
        ).1 == Ok::<(AffineV<TensorV<S>>, Map<Seq<char>, TensorV<S>>), Fault>((a, scores)),
    ensures
        a.weights.shape == x.shape,
        support::weighable(a.weights),
        pairing::is_scalar(a.biases),
        pairing::pairing(v, a.weights, x) + v(a.biases.data[0]) <= support::total(v, f[out.name]),
{
    let eqns = g.equations;
    let params = ParamsV::<S, TensorV<S>> { alphas: p, splitting: None };
    assert forall|j: int| 0 <= j < eqns.len() implies soundness::relaxes(
        v,
        f,
        b,
        params,
        #[trigger] eqns[j],
    ) by {
        assert(slope_fits(b, eqns, p, j));
        assert(node_verdicts::eqn_suits(v, b, eqns[j]));
        assert(soundness::operands_inside(v, f, b, eqns[j].prim));
        if let PrimV::Un(_, c) = eqns[j].prim {
            assert(soundness::operand_inside(v, f, b, nn::operands_of(eqns[j].prim)[0]));
            assert(eqns[j].out.value is None);
        }
    }
    soundness::lemma_crown_sound(v, g, x, f, b, params, start);
}

// ---- the negated graph ----
/// The decimal notation of a number starts with a digit.
proof fn lemma_first_digit(n: nat)
    ensures
        text::digits(n).len() > 0,
        text::digit_value(text::digits(n)[0]) is Some,
    decreases n,
{
    text::lemma_digits_value(n);
    if n >= 10 {
        lemma_first_digit(n / 10);
    }
}

/// The number of a generated name is found again.
pub proof fn lemma_generated_number(n: nat)
    requires
        n <= usize::MAX,
    ensures
        tracer::generated_number(tracer::generated(n)) == Some(n),
{
    reveal_strlit("a");
    text::lemma_digits_value(n);
    lemma_first_digit(n);
    let d = text::digits(n);
    assert(tracer::generated(n).drop_first() =~= d);
}

/// Numbers of names lie below the smallest number above them.
pub proof fn lemma_number_above(names: Seq<Seq<char>>, k: nat, j: int)
    requires
        0 <= j < k <= names.len(),
    ensures
        tracer::generated_number(names[j]) matches Some(n) ==> n < tracer::number_above(names, k),
    decreases k,
{
    if j < k - 1 {
        lemma_number_above(names, (k - 1) as nat, j);
    }
}

/// A graph that is reopened generates names that none of its variables has.
pub proof fn lemma_reopened_fresh<S>(g: GraphV<S>, n: nat)
    requires
        tracer::reopened(g).next <= n <= usize::MAX,
    ensures
        forall|i: int|
            0 <= i < g.invars.len() ==> (#[trigger] g.invars[i]).name != tracer::generated(n),
        forall|i: int|
            0 <= i < g.equations.len() ==> (#[trigger] g.equations[i]).out.name
                != tracer::generated(n),
{
    let names = tracer::graph_names(g);
    lemma_generated_number(n);
    assert forall|i: int| 0 <= i < g.invars.len() implies (#[trigger] g.invars[i]).name
        != tracer::generated(n) by {
        assert(names[i] == g.invars[i].name);
        lemma_number_above(names, names.len(), i);
    }
    assert forall|i: int| 0 <= i < g.equations.len() implies (#[trigger] g.equations[i]).out.name
        != tracer::generated(n) by {
        assert(names[g.invars.len() + i] == g.equations[i].out.name);
        lemma_number_above(names, names.len(), g.invars.len() + i);
    }
}

/// Evaluating one more equation.
proof fn lemma_forward_push<S: Scalar>(
    eqns: Seq<EqnV<S>>,
    last: EqnV<S>,
    e: Map<Seq<char>, TensorV<S>>,
    i: nat,
)
    requires
        i <= eqns.len(),
        eval::forward::<S, Tensor<S>>((), eqns, e, i).1 is Ok,
    ensures
        ({
            let f = eval::forward::<S, Tensor<S>>((), eqns, e, i).1->Ok_0;
            eval::prim_value::<S, Tensor<S>>((), f, last.prim).1 matches Ok(y)
                ==> eval::forward::<S, Tensor<S>>((), eqns.push(last), e, i).1 == Ok::<
                Map<Seq<char>, TensorV<S>>,
                Fault,
            >(f.insert(last.out.name, y))
        }),
    decreases eqns.len() - i,
{
    let more = eqns.push(last);
    if i < eqns.len() {
        assert(more[i as int] == eqns[i as int]);
        let y = eval::prim_value::<S, Tensor<S>>((), e, eqns[i as int].prim).1->Ok_0;
        lemma_forward_push(eqns, last, e.insert(eqns[i as int].out.name, y), i + 1);
    } else {
        assert(more[i as int] == last);
        reveal_with_fuel(eval::forward, 3);
    }
}

/// The equation that negates the output of a graph.
pub open spec fn negation<S: Scalar>(g: GraphV<S>) -> EqnV<S> {
    let out = g.outvars[0];
    EqnV {
        prim: PrimV::Un(UnOpV::Neg, out),
        out: nn::variable(tracer::generated(tracer::reopened(g).next), out.shape),
    }
}

/// The negated graph is the graph with one more equation.
pub proof fn lemma_negated<S: Scalar>(g: GraphV<S>)
    requires
        g.outvars.len() == 1,
        g.equations.len() > 0,
        g.outvars[0] == g.equations[g.equations.len() - 1].out,
        g.outvars[0].value is None,
        alpha_crown::negated(g) is Ok,
    ensures
        ({
            let n = alpha_crown::negated(g)->Ok_0;
            &&& n.invars == g.invars
            &&& n.equations == g.equations.push(negation(g))
            &&& n.outvars == seq![negation(g).out]
            &&& tracer::reopened(g).next < usize::MAX
        }),
{
    let vars = compute_graph::graph_vars(g);
    let k = vars.len();
    assert(vars[k - 1] == g.outvars[0]);
    let m = compute_graph::traced_vars(vars, k);
    assert(m[g.outvars[0].name] == tracer::tracing(g.outvars[0]));
}

/// What an atom stands for after a new variable has been added.
proof fn lemma_still_shaped<S: Scalar>(
    f: Map<Seq<char>, TensorV<S>>,
    name: Seq<char>,
    t: TensorV<S>,
    a: AtomV<S>,
)
    requires
        a.value is None ==> a.name != name,
    ensures
        support::shaped(f, a) ==> support::shaped(f.insert(name, t), a) && support::meant(
            f.insert(name, t),
            a,
        ) == support::meant(f, a),
{
}

/// The negated graph is relaxable where the graph is.
proof fn lemma_negated_relaxable<S: Scalar>(
    v: spec_fn(S) -> real,
    g: GraphV<S>,
    n: GraphV<S>,
    x: TensorV<S>,
    f: Map<Seq<char>, TensorV<S>>,
    b: Map<Seq<char>, IBPV<S>>,
) -> (h: Map<Seq<char>, TensorV<S>>)
    requires
        exact::exact(v),
        relaxable(v, g, x, f, b),
        g.outvars.len() == 1,
        g.equations.len() > 0,
        g.outvars[0] == g.equations[g.equations.len() - 1].out,
        soundness::operand_inside(v, f, b, g.outvars[0]),
        alpha_crown::negated(g) == Ok::<GraphV<S>, Fault>(n),
    ensures
        relaxable(v, n, x, h, b),
        support::shaped(h, negation(g).out),
        support::total(v, h[negation(g).out.name]) == -support::total(v, f[g.outvars[0].name]),
{
    let eqns = g.equations;
    let out = g.outvars[0];
    assert(eqns[eqns.len() - 1].out.value is None);
    assert(support::shaped(f, eqns[eqns.len() - 1].out));
    lemma_negated(g);
    let last = negation(g);
    let more = n.equations;
    let input = g.invars[0];
    let name = last.out.name;
    lemma_reopened_fresh(g, tracer::reopened(g).next);
    assert(g.invars[0].name != name);
    let z = f[out.name];
    let y = model::un_tensor(UnOpV::Neg, z)->Ok_0;
    assert(env::resolved::<S, Tensor<S>>(f, out) == Ok::<TensorV<S>, Fault>(z));
    let start = eval::bound(g.invars, seq![x], 1);
    lemma_forward_push(eqns, last, start, 0);
    let h = f.insert(name, y);
    assert(eval::environment::<S, Tensor<S>>((), n, seq![x]).1 == Ok::<
        Map<Seq<char>, TensorV<S>>,
        Fault,
    >(h));
    assert forall|j: int| 0 <= j < eqns.len() implies more[j] == eqns[j] && (#[trigger] eqns[j]).out.name
        != name by {}
    // order
    assert forall|i: int| 0 <= i <= eqns.len() implies support::variable(input.name, more, i)
        == support::variable(input.name, eqns, i) && #[trigger] support::variable(
        input.name,
        eqns,
        i,
    ) != name by {
        if i > 0 {
            assert(more[i - 1] == eqns[i - 1]);
        }
    }
    assert(support::variable(input.name, more, (eqns.len() + 1) as int) == name);
    assert(support::distinct(input.name, more)) by {
        assert forall|i: int, j: int| 0 <= i < j <= more.len() implies #[trigger] support::variable(
            input.name,
            more,
            i,
        ) != #[trigger] support::variable(input.name, more, j) by {
            assert(support::variable(input.name, eqns, i) != name);
            if j <= eqns.len() {
                assert(support::variable(input.name, eqns, i) != support::variable(
                    input.name,
                    eqns,
                    j,
                ));
            }
        }
    }
    assert forall|j: int, i: int|
        0 <= j < more.len() && 0 <= i < nn::operands_of(more[j].prim).len() implies {
        let a = #[trigger] nn::operands_of(more[j].prim)[i];
        &&& support::in_scope(input.name, more, a, j)
        &&& support::shaped(h, a)
        &&& soundness::operand_inside(v, h, b, a)
    } by {
        let a = nn::operands_of(more[j].prim)[i];
        if j < eqns.len() {
            assert(more[j] == eqns[j]);
            assert(support::in_scope(input.name, eqns, nn::operands_of(eqns[j].prim)[i], j));
            assert(soundness::operands_inside(v, f, b, eqns[j].prim));
            assert(soundness::operand_inside(v, f, b, nn::operands_of(eqns[j].prim)[i]));
            assert(support::shaped(f, nn::operands_of(eqns[j].prim)[i]));
            if a.value is None {
                let m = choose|m: int|
                    0 <= m <= j && #[trigger] support::variable(input.name, eqns, m) == a.name;
                assert(support::variable(input.name, more, m) == a.name);
                assert(support::variable(input.name, eqns, m) != name);
            }
        } else {
            assert(a == out);
            assert(support::variable(input.name, eqns, eqns.len() as int) == out.name);
            assert(support::variable(input.name, more, eqns.len() as int) == out.name);
        }
        lemma_still_shaped(f, name, y, a);
    }
    assert(soundness::ordered(input, more)) by {
        assert forall|j: int| 0 <= j < more.len() implies (#[trigger] more[j]).out.value is None by {
            if j < eqns.len() {
                assert(eqns[j].out.value is None);
            }
        }
    }
    assert(soundness::all_shaped(h, input, more)) by {
        lemma_still_shaped(f, name, y, input);
        assert forall|j: int| 0 <= j < more.len() implies support::shaped(
            h,
            (#[trigger] more[j]).out,
        ) by {
            if j < eqns.len() {
                assert(support::shaped(f, eqns[j].out));
                assert(eqns[j].out.value is None);
                lemma_still_shaped(f, name, y, eqns[j].out);
            }
        }
    }
    assert forall|j: int| 0 <= j < more.len() implies soundness::operands_inside(
        v,
        h,
        b,
        (#[trigger] more[j]).prim,
    ) by {
        assert forall|i: int|
            0 <= i < nn::operands_of(more[j].prim).len() implies soundness::operand_inside(
            v,
            h,
            b,
            #[trigger] nn::operands_of(more[j].prim)[i],
        ) by {}
    }
    assert forall|j: int| 0 <= j < more.len() implies node_verdicts::eqn_suits(
        v,
        b,
        #[trigger] more[j],
    ) by {
        if j < eqns.len() {
            assert(node_verdicts::eqn_suits(v, b, eqns[j]));
        }
    }
    let (p, q) = (|k: int| v(z.data[k]), |k: int| v(y.data[k]));
    assert forall|k: int| 0 <= k < z.data.len() implies #[trigger] q(k) == -1real * p(k) by {}
    sums::lemma_sum_scale(-1real, p, q, z.data.len());
    h
}

// ---- both bounds ----
/// An inner product with negated weights.
proof fn lemma_minus<S: Scalar>(v: spec_fn(S) -> real, a: AffineV<TensorV<S>>, x: TensorV<S>)
    requires
        exact::exact(v),
        pairing::is_scalar(a.biases),
    ensures
        ({
            let m = alpha_crown::minus_affine(a);
            pairing::pairing(v, m.weights, x) + v(m.biases.data[0]) == -(pairing::pairing(
                v,
                a.weights,
                x,
            ) + v(a.biases.data[0]))
        }),
{
    let m = alpha_crown::minus_affine(a);
    let w = a.weights;
    let (p, q) = (
        |k: int| v(w.data[k]) * v(x.data[k]),
        |k: int| v(m.weights.data[k]) * v(x.data[k]),
    );
    assert forall|k: int| 0 <= k < w.data.len() implies #[trigger] q(k) == -1real * p(k) by {
        exact::lemma_units(v(w.data[k]), v(x.data[k]));
    }
    sums::lemma_sum_scale(-1real, p, q, w.data.len());
}

/// Whether the ascent keeps the shapes of slopes.
pub open spec fn ascent_fits<S: Scalar>(
    g: GraphV<S>,
    b: Map<Seq<char>, IBPV<S>>,
    params: Map<Seq<char>, TensorV<S>>,
    start: StartV,
) -> bool {
    alpha_crown::best_slopes(g, b, params, start) matches Ok(p) ==> slopes_fit(b, g.equations, p)
}

/// Bounds with optimised slopes are sound: the sum of the elements of the output lies between the
/// two affine functions at every input whose operands lie in their intervals.
pub proof fn lemma_alpha_bounds_sound<S: Scalar>(
    v: spec_fn(S) -> real,
    g: GraphV<S>,
    region: IBPV<S>,
    b: Map<Seq<char>, IBPV<S>>,
    params: Map<Seq<char>, TensorV<S>>,
    start: StartV,
    low: AffineV<TensorV<S>>,
    high: AffineV<TensorV<S>>,
    x: TensorV<S>,
    f: Map<Seq<char>, TensorV<S>>,
)
    requires
        exact::exact(v),
        start is Last || start is Output,
        g.outvars.len() == 1,
        g.equations.len() > 0,
        g.outvars[0] == g.equations[g.equations.len() - 1].out,
        alpha_crown::prepared(
            g.equations,
            eval::bound(g.invars, seq![region], 1),
            Map::empty(),
            0,
        ) == Ok::<(Map<Seq<char>, IBPV<S>>, Map<Seq<char>, TensorV<S>>), Fault>((b, params)),
        relaxable(v, g, x, f, b),
        soundness::operand_inside(v, f, b, g.outvars[0]),
        ascent_fits(g, b, params, start),
        alpha_crown::negated(g) matches Ok(n) ==> ascent_fits(n, b, params, start),
        alpha_crown::alpha_bounds(g, seq![region], start) == Ok::<
            (AffineV<TensorV<S>>, AffineV<TensorV<S>>),
            Fault,
        >((low, high)),
    ensures
        pairing::pairing(v, low.weights, x) + v(low.biases.data[0]) <= support::total(
            v,
            f[g.outvars[0].name],
        ) <= pairing::pairing(v, high.weights, x) + v(high.biases.data[0]),
{
    let eqns = g.equations;
    let out = g.outvars[0];
    assert(eqns[eqns.len() - 1].out.value is None);
    assert(support::shaped(f, eqns[eqns.len() - 1].out));
    ascent::lemma_prepared_in_range(v, eqns, eval::bound(g.invars, seq![region], 1), Map::empty(), 0);
    ascent::lemma_slopes_in_range(v, g, b, params, start);
    let p = alpha_crown::best_slopes(g, b, params, start)->Ok_0;
    let r = crown::lower_bound::<S, Tensor<S>>(
        (),
        g,
        b,
        ParamsV { alphas: p, splitting: None },
        start,
    ).1->Ok_0;
    assert(support::variable(g.invars[0].name, eqns, eqns.len() as int) == out.name);
    lemma_slopes_sound(v, g, x, f, b, p, start, low, out, eqns.len(), r.1);
    let n = alpha_crown::negated(g)->Ok_0;
    lemma_negated(g);
    let h = lemma_negated_relaxable(v, g, n, x, f, b);
    ascent::lemma_slopes_in_range(v, n, b, params, start);
    let q = alpha_crown::best_slopes(n, b, params, start)->Ok_0;
    let t = crown::lower_bound::<S, Tensor<S>>(
        (),
        n,
        b,
        ParamsV { alphas: q, splitting: None },
        start,
    ).1->Ok_0;
    let neg = negation(g).out;
    let k = n.equations.len();
    assert(n.equations[k - 1] == negation(g));
    assert(support::variable(n.invars[0].name, n.equations, k as int) == neg.name);
    lemma_slopes_sound(v, n, x, h, b, q, start, t.0, neg, k, t.1);
    lemma_minus(v, t.0, x);
}

} // verus!
