//! Fixing the phases of neurons: forks cover what they fork, and what an input does is feasible.

use vstd::prelude::*;
use crate::containment;
use crate::crown;
use crate::env;
use crate::eval;
use crate::exact;
use crate::interval::{IBPTensor, IBPV};
use crate::model;
use crate::model::{Fault, TensorV, UnOpV};
use crate::nn;
use crate::nn::{EqnV, GraphV, PrimV};
use crate::node_splitting;
use crate::node_splitting::{NodeSplit, SmartSplit};
use crate::reals;
use crate::scalar;
use crate::scalar::Scalar;
use crate::support;
use crate::tensor::Tensor;

verus! {

// ---- splits as one list ----
/// Whether the names of a mapping can be listed.
pub open spec fn listed<S>(m: Map<Seq<char>, TensorV<S>>) -> bool {
    env::lists(env::sorted_names(m), m)
}

/// The elements of one tensor among those of all.
proof fn lemma_flat_part<S>(
    m: Map<Seq<char>, TensorV<S>>,
    names: Seq<Seq<char>>,
    n: nat,
    p: int,
)
    requires
        0 <= p < n <= names.len(),
    ensures
        ({
            let (o, d) = (
                node_splitting::flat_upto(m, names, p as nat).len() as int,
                m[names[p]].data,
            );
            &&& o + d.len() <= node_splitting::flat_upto(m, names, n).len()
            &&& forall|t: int|
                0 <= t < d.len() ==> node_splitting::flat_upto(m, names, n)[o + t] == #[trigger] d[t]
        }),
    decreases n,
{
    if p < n - 1 {
        lemma_flat_part(m, names, (n - 1) as nat, p);
        let o = node_splitting::flat_upto(m, names, p as nat).len() as int;
        let d = m[names[p]].data;
        let before = node_splitting::flat_upto(m, names, (n - 1) as nat);
        assert forall|t: int| 0 <= t < d.len() implies node_splitting::flat_upto(
            m,
            names,
            n,
        )[o + t] == #[trigger] d[t] by {
            assert(before[o + t] == d[t]);
        }
    }
}

/// Where the elements of a tensor stand among those of all.
pub(crate) proof fn lemma_offset<S>(m: Map<Seq<char>, TensorV<S>>, k: Seq<char>)
    requires
        listed(m),
        m.dom().contains(k),
    ensures
        0 <= node_splitting::offset(m, k),
        node_splitting::offset(m, k) + m[k].data.len() <= node_splitting::flat(m).len(),
        forall|t: int|
            0 <= t < m[k].data.len() ==> node_splitting::flat(m)[node_splitting::offset(m, k) + t]
                == #[trigger] m[k].data[t],
{
    let names = env::sorted_names(m);
    assert(env::named(names, k));
    let p = env::place(names, k);
    lemma_flat_part(m, names, names.len(), p);
}

/// Two tensors share no place among the elements of all.
proof fn lemma_apart<S>(m: Map<Seq<char>, TensorV<S>>, k: Seq<char>, l: Seq<char>, i: int)
    requires
        listed(m),
        m.dom().contains(k),
        m.dom().contains(l),
        0 <= i - node_splitting::offset(m, k) < m[k].data.len(),
        0 <= i - node_splitting::offset(m, l) < m[l].data.len(),
    ensures
        k == l,
{
    let names = env::sorted_names(m);
    assert(env::named(names, k) && env::named(names, l));
    let (p, q) = (env::place(names, k), env::place(names, l));
    if p < q {
        node_splitting::lemma_flat_monotone(m, names, (p + 1) as nat, q as nat);
    } else if q < p {
        node_splitting::lemma_flat_monotone(m, names, (q + 1) as nat, p as nat);
    }
}

/// Tensors that are made one list and taken apart again are as they were.
pub proof fn lemma_flat_round_trip<S>(m: Map<Seq<char>, TensorV<S>>)
    requires
        listed(m),
    ensures
        node_splitting::unflat(node_splitting::flat(m), m) == m,
{
    let r = node_splitting::unflat(node_splitting::flat(m), m);
    assert forall|k: Seq<char>| m.dom().contains(k) implies r[k] == m[k] by {
        lemma_offset(m, k);
        assert(r[k].data =~= m[k].data);
    }
    assert(r =~= m);
}

/// A list with one element changed makes up tensors with one element changed.
pub proof fn lemma_one_changed<S>(m: Map<Seq<char>, TensorV<S>>, i: int, x: S, k: Seq<char>)
    requires
        listed(m),
        m.dom().contains(k),
        0 <= i < node_splitting::flat(m).len(),
    ensures
        ({
            let r = node_splitting::unflat(node_splitting::flat(m).update(i, x), m);
            let t = i - node_splitting::offset(m, k);
            &&& r.dom().contains(k)
            &&& r[k].shape == m[k].shape
            &&& r[k].data == (if 0 <= t < m[k].data.len() {
                m[k].data.update(t, x)
            } else {
                m[k].data
            })
        }),
{
    let r = node_splitting::unflat(node_splitting::flat(m).update(i, x), m);
    let t = i - node_splitting::offset(m, k);
    lemma_offset(m, k);
    if 0 <= t < m[k].data.len() {
        assert(r[k].data =~= m[k].data.update(t, x));
    } else {
        assert(r[k].data =~= m[k].data);
    }
}

/// A fork has the names of what it forks.
pub proof fn lemma_fork_listed<S: Scalar>(
    splits: Map<Seq<char>, TensorV<S>>,
    scores: Map<Seq<char>, TensorV<S>>,
    j: int,
)
    requires
        listed(splits),
        0 <= j < node_splitting::forked(splits, scores).len(),
    ensures
        listed(node_splitting::forked(splits, scores)[j]),
        node_splitting::forked(splits, scores)[j].dom() == splits.dom(),
{
    let p = node_splitting::forked(splits, scores)[j];
    assert(p.dom() =~= splits.dom());
    assert(env::lists(env::sorted_names(splits), p));
    env::lemma_sorted_names(env::sorted_names(splits), p);
}

// ---- what an input does ----
/// Whether a tensor has the signs that a split asks for.
pub open spec fn signs_agree<S>(v: spec_fn(S) -> real, s: TensorV<S>, x: TensorV<S>) -> bool {
    &&& reals::full(s)
    &&& s.shape == x.shape
    &&& forall|k: int| 0 <= k < s.data.len() ==> 0real <= v(#[trigger] s.data[k]) * v(x.data[k])
}

/// Whether the operand of equation `j`, if it is an activation that is split, has the signs that
/// its split asks for.
pub open spec fn phase_agrees<S: Scalar>(
    v: spec_fn(S) -> real,
    e: Map<Seq<char>, TensorV<S>>,
    eqns: Seq<EqnV<S>>,
    splits: Map<Seq<char>, TensorV<S>>,
    j: int,
) -> bool {
    match eqns[j].prim {
        PrimV::Un(_, a) => nn::is_activation(eqns[j].prim) && splits.dom().contains(
            eqns[j].out.name,
        ) ==> signs_agree(v, splits[eqns[j].out.name], support::meant(e, a)),
        _ => true,
    }
}

/// Whether the variables of an environment have the signs that splits ask for.
pub open spec fn agrees<S: Scalar>(
    v: spec_fn(S) -> real,
    e: Map<Seq<char>, TensorV<S>>,
    eqns: Seq<EqnV<S>>,
    splits: Map<Seq<char>, TensorV<S>>,
) -> bool {
    forall|j: int| 0 <= j < eqns.len() ==> #[trigger] phase_agrees(v, e, eqns, splits, j)
}

/// Whether the parts of splits can be listed and cover them: the variables of an environment that
/// agree with the splits agree with one of the parts.
pub open spec fn fork_covers<S: Scalar, P: NodeSplit<S>>(
    v: spec_fn(S) -> real,
    e: Map<Seq<char>, TensorV<S>>,
    eqns: Seq<EqnV<S>>,
    split: P,
    splits: Map<Seq<char>, TensorV<S>>,
    scores: Map<Seq<char>, TensorV<S>>,
) -> bool {
    let parts = split.parts(splits, scores);
    &&& forall|j: int| 0 <= j < parts.len() ==> listed(#[trigger] parts[j])
    &&& agrees(v, e, eqns, splits) ==> exists|j: int|
        0 <= j < parts.len() && agrees(v, e, eqns, #[trigger] parts[j])
}

/// One element of a split changed to a sign that the input has.
proof fn lemma_sign_kept<S: Scalar>(
    v: spec_fn(S) -> real,
    s: TensorV<S>,
    r: TensorV<S>,
    x: TensorV<S>,
    t: int,
    sign: S,
)
    requires
        signs_agree(v, s, x),
        r.shape == s.shape,
        r.data == (if 0 <= t < s.data.len() {
            s.data.update(t, sign)
        } else {
            s.data
        }),
        0 <= t < s.data.len() ==> 0real <= v(sign) * v(x.data[t]),
    ensures
        signs_agree(v, r, x),
{
    assert forall|k: int| 0 <= k < r.data.len() implies 0real <= v(#[trigger] r.data[k]) * v(
        x.data[k],
    ) by {
        assert(0real <= v(s.data[k]) * v(x.data[k]));
    }
}

/// Forking the best undecided neuron covers all inputs: each has one of the two phases.
pub proof fn lemma_fork_covers<S: Scalar>(
    v: spec_fn(S) -> real,
    e: Map<Seq<char>, TensorV<S>>,
    input: Seq<char>,
    eqns: Seq<EqnV<S>>,
    splits: Map<Seq<char>, TensorV<S>>,
    scores: Map<Seq<char>, TensorV<S>>,
)
    requires
        exact::exact(v),
        support::distinct(input, eqns),
        listed(splits),
    ensures
        fork_covers::<S, SmartSplit>(v, e, eqns, SmartSplit {  }, splits, scores),
{
    let parts = node_splitting::forked(splits, scores);
    let (a, b) = (node_splitting::flat(splits), node_splitting::flat(scores));
    let n = eval::shorter(a.len(), b.len());
    assert forall|j: int| 0 <= j < parts.len() implies listed(#[trigger] parts[j]) by {
        lemma_fork_listed(splits, scores, j);
    }
    node_splitting::lemma_best_open(a, b, n);
    let split = SmartSplit {  };
    assert(split.parts(splits, scores) == parts);
    if agrees(v, e, eqns, splits) {
        match node_splitting::best_open(a, b, n) {
            None => {
                assert(agrees(v, e, eqns, parts[0]));
            },
            Some(i) => {
                exact::lemma_numbers(v);
                assert(v(S::ratio(-1, 1)) * (1int as real) == (-1int) as real);
                let (one, minus) = (scalar::one::<S>(), scalar::num::<S>(-1));
                if !agrees(v, e, eqns, parts[0]) {
                    let j = choose|j: int|
                        0 <= j < eqns.len() && !#[trigger] phase_agrees(v, e, eqns, parts[0], j);
                    assert(phase_agrees(v, e, eqns, splits, j));
                    let key = eqns[j].out.name;
                    lemma_one_changed(splits, i, one, key);
                    let t = i - node_splitting::offset(splits, key);
                    let x = match eqns[j].prim {
                        PrimV::Un(_, c) => support::meant(e, c),
                        _ => arbitrary(),
                    };
                    if !(0 <= t < splits[key].data.len() && v(x.data[t]) < 0real) {
                        if 0 <= t < splits[key].data.len() {
                            exact::lemma_units(v(x.data[t]), v(x.data[t]));
                        }
                        lemma_sign_kept(v, splits[key], parts[0][key], x, t, one);
                    }
                    assert forall|m: int| 0 <= m < eqns.len() implies #[trigger] phase_agrees(
                        v,
                        e,
                        eqns,
                        parts[1],
                        m,
                    ) by {
                        assert(phase_agrees(v, e, eqns, splits, m));
                        let l = eqns[m].out.name;
                        if let PrimV::Un(_, c) = eqns[m].prim {
                            if nn::is_activation(eqns[m].prim) && splits.dom().contains(l) {
                                lemma_one_changed(splits, i, minus, l);
                                let y = support::meant(e, c);
                                let u = i - node_splitting::offset(splits, l);
                                if 0 <= u < splits[l].data.len() {
                                    lemma_apart(splits, key, l, i);
                                    if m < j {
                                        assert(support::variable(input, eqns, m + 1)
                                            != support::variable(input, eqns, j + 1));
                                    } else if j < m {
                                        assert(support::variable(input, eqns, j + 1)
                                            != support::variable(input, eqns, m + 1));
                                    }
                                    exact::lemma_units(1real, v(y.data[u]));
                                    exact::lemma_units(v(y.data[u]), v(y.data[u]));
                                }
                                lemma_sign_kept(v, splits[l], parts[1][l], y, u, minus);
                            }
                        }
                    }
                    assert(agrees(v, e, eqns, parts[1]));
                }
            },
        }
        assert(exists|j: int| 0 <= j < parts.len() && agrees(v, e, eqns, #[trigger] parts[j]));
    }
}

// ---- feasibility ----
/// Whether an operation is a rectifier.
pub open spec fn rectifies<S>(p: PrimV<S>) -> bool {
    match p {
        PrimV::Un(UnOpV::Relu, _) => true,
        _ => false,
    }
}

/// Whether interval bounds under splits hold for all operations from equation `i` on, and none
/// of them fails.
pub open spec fn split_bounded<S: Scalar>(
    v: spec_fn(S) -> real,
    eqns: Seq<EqnV<S>>,
    b: Map<Seq<char>, IBPV<S>>,
    splits: Map<Seq<char>, TensorV<S>>,
    i: nat,
) -> bool
    decreases eqns.len() - i,
{
    i >= eqns.len() || {
        let prim = eqns[i as int].prim;
        &&& !rectifies(prim) ==> {
            &&& containment::prim_bounded(v, b, prim)
            &&& eval::prim_value::<S, IBPTensor<S>>((), b, prim).1 is Ok
        }
        &&& node_splitting::split_value(eqns[i as int], b, splits) matches Some(x) ==> split_bounded(
            v,
            eqns,
            b.insert(eqns[i as int].out.name, x),
            splits,
            i + 1,
        )
    }
}

/// What a rectifier makes of a tensor with the signs that a split asks for.
proof fn lemma_split_relu<S: Scalar>(
    v: spec_fn(S) -> real,
    x: TensorV<S>,
    y: TensorV<S>,
    b: IBPV<S>,
    s: TensorV<S>,
)
    requires
        exact::exact(v),
        containment::inside(v, x, b),
        signs_agree(v, s, x),
        model::un_tensor(UnOpV::Relu, x) == Ok::<TensorV<S>, Fault>(y),
    ensures
        node_splitting::split_relu(b, s) matches Some(c) && containment::inside(v, y, c),
{
    exact::lemma_numbers(v);
    assert forall|k: int| 0 <= k < s.data.len() implies node_splitting::can_have_sign(
        b.lb.data[k],
        b.ub.data[k],
        #[trigger] s.data[k],
    ) && v(node_splitting::split_low(b.lb.data[k], s.data[k])) <= v(y.data[k]) <= v(
        node_splitting::split_high(b.ub.data[k], s.data[k]),
    ) by {
        let (l, u, t, z) = (v(b.lb.data[k]), v(b.ub.data[k]), v(s.data[k]), v(x.data[k]));
        assert(l <= z);
        assert(v(x.data[k]) <= v(b.ub.data[k]));
        assert(y.data[k] == scalar::rectify(x.data[k]));
        assert(0real <= t * z);
        if t > 0real && z < 0real {
            lemma_opposite(t, z);
        }
        if t < 0real && z > 0real {
            exact::lemma_units(t, z);
            lemma_opposite(z, t);
        }
    }
    let c = node_splitting::split_relu(b, s)->Some_0;
    assert forall|k: int| 0 <= k < c.lb.data.len() implies v(#[trigger] c.lb.data[k]) <= v(
        y.data[k],
    ) by {
        assert(node_splitting::can_have_sign(b.lb.data[k], b.ub.data[k], s.data[k]));
    }
    assert forall|k: int| 0 <= k < y.data.len() implies v(#[trigger] y.data[k]) <= v(
        c.ub.data[k],
    ) by {
        assert(node_splitting::can_have_sign(b.lb.data[k], b.ub.data[k], s.data[k]));
    }
    assert(containment::below(v, c.lb, y));
    assert(containment::below(v, y, c.ub));
    crate::input_verdicts::lemma_between(v, c.lb, c.ub, y);
}

/// A product of numbers of opposite signs is negative.
proof fn lemma_opposite(a: real, b: real)
    by (nonlinear_arith)
    requires
        a > 0real,
        b < 0real,
    ensures
        a * b < 0real,
{
}

/// What an input does is feasible, from equation `i` on.
proof fn lemma_feasible_from<S: Scalar>(
    v: spec_fn(S) -> real,
    input: Seq<char>,
    eqns: Seq<EqnV<S>>,
    e: Map<Seq<char>, TensorV<S>>,
    b: Map<Seq<char>, IBPV<S>>,
    splits: Map<Seq<char>, TensorV<S>>,
    i: nat,
    f: Map<Seq<char>, TensorV<S>>,
)
    requires
        exact::exact(v),
        i <= eqns.len(),
        containment::all_inside(v, e, b),
        forall|j: int|
            0 <= j < eqns.len() ==> containment::solid((#[trigger] eqns[j]).prim),
        split_bounded(v, eqns, b, splits, i),
        eval::forward::<S, Tensor<S>>((), eqns, e, i).1 == Ok::<
            Map<Seq<char>, TensorV<S>>,
            Fault,
        >(f),
        agrees(v, f, eqns, splits),
        support::distinct(input, eqns),
        forall|j: int, m: int|
            0 <= j < eqns.len() && 0 <= m < nn::operands_of(eqns[j].prim).len()
                ==> support::in_scope(input, eqns, #[trigger] nn::operands_of(eqns[j].prim)[m], j),
    ensures
        node_splitting::feasible_from(eqns, b, splits, i),
    decreases eqns.len() - i,
{
    if i < eqns.len() {
        let eqn = eqns[i as int];
        let y = eval::prim_value::<S, Tensor<S>>((), e, eqn.prim).1->Ok_0;
        let r = node_splitting::split_value(eqn, b, splits);
        match eqn.prim {
            PrimV::Un(UnOpV::Relu, a) => {
                assert(nn::operands_of(eqns[i as int].prim)[0] == a);
                containment::lemma_resolved_inside(v, e, b, a);
                let x = env::resolved::<S, Tensor<S>>(e, a)->Ok_0;
                let c = crown::bounds_of(b, a)->Ok_0;
                if splits.dom().contains(eqn.out.name) {
                    assert(phase_agrees(v, f, eqns, splits, i as int));
                    crate::soundness::lemma_operand_kept(input, eqns, e, i, a);
                    lemma_split_relu(v, x, y, c, splits[eqn.out.name]);
                } else {
                    containment::lemma_un_inside(v, UnOpV::Relu, x, c);
                }
            },
            _ => {
                containment::lemma_prim_inside(v, e, b, eqn.prim);
            },
        }
        let z = r->Some_0;
        let (e2, b2) = (e.insert(eqn.out.name, y), b.insert(eqn.out.name, z));
        assert(containment::all_inside(v, e2, b2)) by {
            assert(e2.dom() =~= b2.dom());
        }
        lemma_feasible_from(v, input, eqns, e2, b2, splits, i + 1, f);
    }
}

/// The phases that an input of a box gives to the neurons are feasible on the box: splits that
/// are called infeasible fit no input.
pub proof fn lemma_feasible<S: Scalar>(
    v: spec_fn(S) -> real,
    g: GraphV<S>,
    region: IBPV<S>,
    splits: Map<Seq<char>, TensorV<S>>,
    x: TensorV<S>,
    f: Map<Seq<char>, TensorV<S>>,
)
    requires
        exact::exact(v),
        g.invars.len() == 1,
        crate::soundness::ordered(g.invars[0], g.equations),
        containment::inside(v, x, region),
        forall|j: int|
            0 <= j < g.equations.len() ==> containment::solid((#[trigger] g.equations[j]).prim),
        split_bounded(
            v,
            g.equations,
            Map::<Seq<char>, IBPV<S>>::empty().insert(g.invars[0].name, region),
            splits,
            0,
        ),
        eval::environment::<S, Tensor<S>>((), g, seq![x]).1 == Ok::<
            Map<Seq<char>, TensorV<S>>,
            Fault,
        >(f),
        agrees(v, f, g.equations, splits),
    ensures
        node_splitting::feasible(g, region, splits),
{
    let input = g.invars[0].name;
    reveal_with_fuel(eval::bound, 2);
    let e = Map::<Seq<char>, TensorV<S>>::empty().insert(input, x);
    let b = Map::<Seq<char>, IBPV<S>>::empty().insert(input, region);
    assert(eval::bound(g.invars, seq![x], 1) == e);
    assert(containment::all_inside(v, e, b)) by {
        assert(e.dom() =~= b.dom());
    }
    lemma_feasible_from(v, input, g.equations, e, b, splits, 0, f);
}

} // verus!
