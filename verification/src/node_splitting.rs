//! Branch and bound over the phases of rectifiers.

use vstd::prelude::*;
use crate::affine;
use crate::affine::AffineV;
use crate::alpha_crown;
use crate::bab;
use crate::bab::{BaBConfig, BaBResult, VerdictV};
use crate::beta_crown;
use crate::beta_crown::{BetaCrownInterpreter, PairV, SplitBound};
use crate::crown;
use crate::crown::StartV;
use crate::env;
use crate::env::Env;
use crate::error::EvalError;
use crate::eval;
use crate::eval::{EvalGenInterpreter, EvalInterpreter, Interpreter};
use crate::input_splitting;
use crate::input_splitting::UniformSplit;
use crate::interval;
use crate::interval::{IBPInterpreter, IBPTensor, IBPV};
use crate::model;
use crate::model::{Fault, TensorV, UnOpV};
use crate::nn::{ComputeGraph, EqnV, GraphV, PrimV, Primitive};
use crate::op::UnOp;
use crate::scalar;
use crate::scalar::Scalar;
use crate::tensor;
use crate::tensor::Tensor;
use crate::value;

verus! {

// ---- splits as one list ----
/// The elements of the first `k` tensors of a mapping, in the order of their names.
pub open spec fn flat_upto<S>(
    m: Map<Seq<char>, TensorV<S>>,
    names: Seq<Seq<char>>,
    k: nat,
) -> Seq<S>
    decreases k,
{
    if k == 0 {
        Seq::empty()
    } else {
        flat_upto(m, names, (k - 1) as nat) + m[names[k - 1]].data
    }
}

/// The elements of all tensors of a mapping, in the order of their names.
pub open spec fn flat<S>(m: Map<Seq<char>, TensorV<S>>) -> Seq<S> {
    flat_upto(m, env::sorted_names(m), env::sorted_names(m).len())
}

/// Where the elements of a tensor start among all elements.
pub open spec fn offset<S>(m: Map<Seq<char>, TensorV<S>>, k: Seq<char>) -> int {
    let names = env::sorted_names(m);
    flat_upto(m, names, env::place(names, k) as nat).len() as int
}

/// The tensors of the shapes in `m` that a list of elements makes up.
pub open spec fn unflat<S>(v: Seq<S>, m: Map<Seq<char>, TensorV<S>>) -> Map<
    Seq<char>,
    TensorV<S>,
> {
    Map::new(
        |k: Seq<char>| m.dom().contains(k),
        |k: Seq<char>|
            TensorV {
                shape: m[k].shape,
                data: v.subrange(offset(m, k), offset(m, k) + m[k].data.len()),
            },
    )
}

/// The sorted names of an environment are its names.
proof fn lemma_names<S: Scalar>(e: Env<Tensor<S>>)
    requires
        e.wf(),
    ensures
        env::sorted_names(crown::tensors(e)) == e.names(),
        forall|i: int|
            #![trigger e.names()[i]]
            0 <= i < e.names().len() ==> crown::tensors(e).dom().contains(e.names()[i])
                && crown::tensors(e)[e.names()[i]] == e.values()[i]@ && env::place(
                e.names(),
                e.names()[i],
            ) == i,
{
    assert(env::lists(e.names(), crown::tensors(e)));
    env::lemma_sorted_names(e.names(), crown::tensors(e));
    assert forall|i: int|
        #![trigger e.names()[i]]
        0 <= i < e.names().len() implies crown::tensors(e).dom().contains(e.names()[i])
        && crown::tensors(e)[e.names()[i]] == e.values()[i]@ && env::place(
        e.names(),
        e.names()[i],
    ) == i by {
        env::lemma_place(e.names(), i);
    }
}

/// Longer prefixes have more elements.
pub proof fn lemma_flat_monotone<S>(
    m: Map<Seq<char>, TensorV<S>>,
    names: Seq<Seq<char>>,
    i: nat,
    k: nat,
)
    requires
        i <= k,
    ensures
        flat_upto(m, names, i).len() <= flat_upto(m, names, k).len(),
    decreases k,
{
    if i < k {
        lemma_flat_monotone(m, names, i, (k - 1) as nat);
    }
}

/// The elements of all tensors, in the order of their names.
pub fn flatten_splits<S: Scalar>(env: &Env<Tensor<S>>) -> (r: Vec<S>)
    ensures
        r@ == flat(crown::tensors(*env)),
{
    let n = env.len();
    let ghost m = crown::tensors(*env);
    let ghost names = env.names();
    proof {
        lemma_names(*env);
    }
    let mut out: Vec<S> = Vec::new();
    for i in 0..n
        invariant
            n == names.len(),
            names == env.names(),
            m == crown::tensors(*env),
            forall|i: int|
                #![trigger names[i]]
                0 <= i < names.len() ==> m[names[i]] == env.values()[i]@,
            out@ == flat_upto(m, names, i as nat),
    {
        let t = env.value_at(i).values();
        assert(m[names[i as int]].data == t@);
        for j in 0..t.len()
            invariant
                out@ == flat_upto(m, names, i as nat) + t@.subrange(0, j as int),
        {
            out.push(t[j]);
            assert(t@.subrange(0, j as int).push(t@[j as int]) =~= t@.subrange(0, j + 1));
        }
        assert(t@.subrange(0, t@.len() as int) =~= t@);
    }
    out
}

/// The tensors of the shapes in `template` that a list of elements makes up.
pub fn unflatten_splits<S: Scalar>(flat: &Vec<S>, template: &Env<Tensor<S>>) -> (r: Env<Tensor<S>>)
    requires
        flat@.len() == self::flat(crown::tensors(*template)).len(),
    ensures
        crown::tensors(r) == unflat(flat@, crown::tensors(*template)),
{
    let n = template.len();
    let ghost m = crown::tensors(*template);
    let ghost names = template.names();
    let ghost goal = unflat(flat@, m);
    proof {
        lemma_names(*template);
    }
    let mut out: Env<Tensor<S>> = Env::new();
    let total = flat.len();
    let mut start: usize = 0;
    assert(crown::tensors(out) =~= Map::<Seq<char>, TensorV<S>>::empty());
    for i in 0..n
        invariant
            total == flat@.len(),
            n == names.len(),
            names == template.names(),
            template.wf(),
            m == crown::tensors(*template),
            goal == unflat(flat@, m),
            names == env::sorted_names(m),
            flat@.len() == flat_upto(m, names, n as nat).len(),
            forall|i: int|
                #![trigger names[i]]
                0 <= i < names.len() ==> m.dom().contains(names[i]) && m[names[i]]
                    == template.values()[i]@ && env::place(names, names[i]) == i,
            start == flat_upto(m, names, i as nat).len(),
            forall|k: Seq<char>|
                #[trigger]
                crown::tensors(out).dom().contains(k) ==> goal.dom().contains(k)
                    && crown::tensors(out)[k] == goal[k],
            forall|j: int| 0 <= j < i ==> crown::tensors(out).dom().contains(#[trigger] names[j]),
    {
        let t = template.value_at(i);
        let size = t.len();
        let shape = t.shape();
        proof {
            lemma_flat_monotone(m, names, (i + 1) as nat, n as nat);
            assert(m[names[i as int]] == t@);
            assert(start + size <= total);
        }
        let mut chunk: Vec<S> = Vec::new();
        for j in 0..size
            invariant
                total == flat@.len(),
                start + size <= total,
                chunk@ == flat@.subrange(start as int, start + j),
        {
            chunk.push(flat[start + j]);
            assert(flat@.subrange(start as int, start + j).push(flat@[start + j]) =~= flat@.subrange(
                start as int,
                start + j + 1,
            ));
        }
        let part = Tensor::make(tensor::copy_of(shape), chunk);
        proof {
            assert(goal[names[i as int]] == part@);
            env::lemma_scope_insert::<S, Tensor<S>>(out@, names[i as int], part);
        }
        let ghost before = crown::tensors(out);
        out.insert(template.name_at(i).clone(), part);
        assert(crown::tensors(out) == before.insert(names[i as int], part@));
        start = start + size;
    }
    proof {
        assert forall|k: Seq<char>| goal.dom().contains(k) implies #[trigger] crown::tensors(
            out,
        ).dom().contains(k) by {
            assert(m.dom().contains(k));
            assert(env::named(names, k));
            let j = env::place(names, k);
            assert(names[j] == k);
        }
        assert(crown::tensors(out) =~= goal);
    }
    out
}

// ---- choosing a neuron ----
/// The number of the first undecided neuron with the best score among the first `k`.
pub open spec fn best_open<S: Scalar>(splits: Seq<S>, scores: Seq<S>, k: nat) -> Option<int>
    decreases k,
{
    if k == 0 {
        None
    } else {
        match best_open(splits, scores, (k - 1) as nat) {
            None => if splits[k - 1].same(scalar::zero()) {
                Some(k - 1)
            } else {
                None
            },
            Some(i) => if splits[k - 1].same(scalar::zero()) && scores[i].less(scores[k - 1]) {
                Some(k - 1)
            } else {
                Some(i)
            },
        }
    }
}

/// The splits that fork the best undecided neuron, active first; without one the splits as they
/// are.
pub open spec fn forked<S: Scalar>(
    splits: Map<Seq<char>, TensorV<S>>,
    scores: Map<Seq<char>, TensorV<S>>,
) -> Seq<Map<Seq<char>, TensorV<S>>> {
    let (a, b) = (flat(splits), flat(scores));
    match best_open(a, b, eval::shorter(a.len(), b.len())) {
        None => seq![splits],
        Some(i) => seq![
            unflat(a.update(i, scalar::one()), splits),
            unflat(a.update(i, scalar::num(-1)), splits),
        ],
    }
}

/// The best undecided neuron is one of the neurons, and undecided.
pub proof fn lemma_best_open<S: Scalar>(splits: Seq<S>, scores: Seq<S>, k: nat)
    ensures
        best_open(splits, scores, k) matches Some(i) ==> 0 <= i < k && splits[i].same(
            scalar::zero(),
        ),
    decreases k,
{
    if k > 0 {
        lemma_best_open(splits, scores, (k - 1) as nat);
    }
}

/// Named tensors, mathematically.
pub open spec fn split_views<S: Scalar>(v: Seq<Env<Tensor<S>>>) -> Seq<
    Map<Seq<char>, TensorV<S>>,
> {
    Seq::new(v.len(), |i: int| crown::tensors(v[i]))
}

/// The splits that fork the best undecided neuron, active first; without one the splits as they
/// are.
pub fn split_smart<S: Scalar>(splits: &Env<Tensor<S>>, relu_scores: &Env<Tensor<S>>) -> (r: Vec<
    Env<Tensor<S>>,
>)
    ensures
        split_views(r@) == forked(crown::tensors(*splits), crown::tensors(*relu_scores)),
{
    let split_vec = flatten_splits(splits);
    let score_vec = flatten_splits(relu_scores);
    let zero = scalar::number::<S>(0);
    let n: usize = if split_vec.len() <= score_vec.len() {
        split_vec.len()
    } else {
        score_vec.len()
    };
    // Most promising undecided neuron (first-wins on ties, matching argmax).
    let mut best: Option<usize> = None;
    for i in 0..n
        invariant
            n <= split_vec@.len(),
            n <= score_vec@.len(),
            zero == scalar::zero::<S>(),
            match best {
                Some(b) => b < i && best_open(split_vec@, score_vec@, i as nat) == Some(b as int),
                None => best_open(split_vec@, score_vec@, i as nat) is None,
            },
    {
        if split_vec[i].is_eq(zero) {
            let better = match best {
                None => true,
                Some(b) => score_vec[b].is_lt(score_vec[i]),
            };
            if better {
                best = Some(i);
            }
        }
    }
    match best {
        None => {
            // Nothing left undecided: no split to make.
            let out: Vec<Env<Tensor<S>>> = vec![alpha_crown::copy_tensors(splits)];
            assert(split_views(out@) =~= seq![crown::tensors(*splits)]);
            out
        },
        Some(b) => {
            let ghost a = split_vec@;
            let mut right = flatten_splits(splits);
            let mut left = split_vec;
            left.set(b, scalar::number::<S>(1));  // chosen ReLU forced active
            right.set(b, scalar::number::<S>(-1));  // chosen ReLU forced inactive
            let out: Vec<Env<Tensor<S>>> = vec![
                unflatten_splits(&left, splits),
                unflatten_splits(&right, splits),
            ];
            proof {
                assert(left@ =~= a.update(b as int, scalar::one()));
                assert(right@ =~= a.update(b as int, scalar::num(-1)));
                assert(split_views(out@) =~= forked(
                    crown::tensors(*splits),
                    crown::tensors(*relu_scores),
                ));
            }
            out
        },
    }
}

/// A way to split the phases of neurons, for the given branching scores.
pub trait NodeSplit<S: Scalar> {
    /// The parts.
    spec fn parts(
        &self,
        splits: Map<Seq<char>, TensorV<S>>,
        scores: Map<Seq<char>, TensorV<S>>,
    ) -> Seq<Map<Seq<char>, TensorV<S>>>;

    /// The parts.
    fn split(&self, splits: &Env<Tensor<S>>, scores: &Env<Tensor<S>>) -> (r: Vec<Env<Tensor<S>>>)
        ensures
            split_views(r@) == self.parts(crown::tensors(*splits), crown::tensors(*scores)),
    ;
}

/// Forks the best undecided neuron.
pub struct SmartSplit {}

impl<S: Scalar> NodeSplit<S> for SmartSplit {
    open spec fn parts(
        &self,
        splits: Map<Seq<char>, TensorV<S>>,
        scores: Map<Seq<char>, TensorV<S>>,
    ) -> Seq<Map<Seq<char>, TensorV<S>>> {
        forked(splits, scores)
    }

    fn split(&self, splits: &Env<Tensor<S>>, scores: &Env<Tensor<S>>) -> (r: Vec<Env<Tensor<S>>>) {
        split_smart(splits, scores)
    }
}

/// Whether every neuron is decided.
pub open spec fn decided<S: Scalar>(splits: Map<Seq<char>, TensorV<S>>) -> bool {
    forall|k: Seq<char>, j: int|
        #![trigger splits[k].data[j]]
        splits.dom().contains(k) && 0 <= j < splits[k].data.len() ==> !splits[k].data[j].same(
            scalar::zero(),
        )
}

/// True when no ReLU in `splits` is left undecided (every entry is ±1), meaning the
/// branch is a leaf and cannot be refined further.
pub fn all_decided<S: Scalar>(splits: &Env<Tensor<S>>) -> (r: bool)
    ensures
        r == decided(crown::tensors(*splits)),
{
    let n = splits.len();
    let ghost m = crown::tensors(*splits);
    let ghost names = splits.names();
    let zero = scalar::number::<S>(0);
    proof {
        lemma_names(*splits);
    }
    for i in 0..n
        invariant
            n == names.len(),
            names == splits.names(),
            m == crown::tensors(*splits),
            zero == scalar::zero::<S>(),
            forall|i: int|
                #![trigger names[i]]
                0 <= i < names.len() ==> m.dom().contains(names[i]) && m[names[i]]
                    == splits.values()[i]@,
            forall|a: int, j: int|
                #![trigger m[names[a]].data[j]]
                0 <= a < i && 0 <= j < m[names[a]].data.len() ==> !m[names[a]].data[j].same(zero),
    {
        let t = splits.value_at(i).values();
        assert(m[names[i as int]].data == t@);
        for j in 0..t.len()
            invariant
                zero == scalar::zero::<S>(),
                m == crown::tensors(*splits),
                m[names[i as int]].data == t@,
                m.dom().contains(names[i as int]),
                forall|k: int| 0 <= k < j ==> !(#[trigger] t@[k]).same(zero),
        {
            if t[j].is_eq(zero) {
                assert(m[names[i as int]].data[j as int].same(zero));
                return false;
            }
        }
    }
    proof {
        assert forall|k: Seq<char>, j: int|
            #![trigger m[k].data[j]]
            m.dom().contains(k) && 0 <= j < m[k].data.len() implies !m[k].data[j].same(
            scalar::zero(),
        ) by {
            assert(env::named(names, k));
            let a = env::place(names, k);
            assert(names[a] == k);
            assert(!m[names[a]].data[j].same(zero));
        }
    }
    true
}

// ---- feasibility ----
/// Whether the input of a rectifier can have the sign that a split asks for.
pub open spec fn can_have_sign<S: Scalar>(l: S, u: S, s: S) -> bool {
    if scalar::zero::<S>().less(s) {
        scalar::zero::<S>().at_most(u)
    } else if s.less(scalar::zero()) {
        l.at_most(scalar::zero())
    } else {
        true
    }
}

/// The lower end of a rectifier under a split.
pub open spec fn split_low<S: Scalar>(l: S, s: S) -> S {
    if scalar::zero::<S>().less(s) {
        l.larger(scalar::zero())
    } else if s.less(scalar::zero()) {
        scalar::zero()
    } else {
        l.larger(scalar::zero())
    }
}

/// The upper end of a rectifier under a split.
pub open spec fn split_high<S: Scalar>(u: S, s: S) -> S {
    if scalar::zero::<S>().less(s) {
        u
    } else if s.less(scalar::zero()) {
        scalar::zero()
    } else {
        u.larger(scalar::zero())
    }
}

/// The output of a rectifier under a split, if its input can have the signs.
pub open spec fn split_relu<S: Scalar>(x: IBPV<S>, s: TensorV<S>) -> Option<IBPV<S>> {
    if s.shape == x.lb.shape && forall|k: int|
        0 <= k < s.data.len() ==> can_have_sign(x.lb.data[k], x.ub.data[k], #[trigger] s.data[k]) {
        Some(
            interval::between(
                interval::zipped(x.lb, s, |l: S, v: S| split_low(l, v)),
                interval::zipped(x.ub, s, |u: S, v: S| split_high(u, v)),
            ),
        )
    } else {
        None
    }
}

/// The bounds of the result of an equation under splits, if they are feasible.
pub open spec fn split_value<S: Scalar>(
    eqn: EqnV<S>,
    e: Map<Seq<char>, IBPV<S>>,
    splits: Map<Seq<char>, TensorV<S>>,
) -> Option<IBPV<S>> {
    match eqn.prim {
        PrimV::Un(UnOpV::Relu, a) => match crown::bounds_of(e, a) {
            Err(_) => None,
            Ok(x) => if splits.dom().contains(eqn.out.name) {
                split_relu(x, splits[eqn.out.name])
            } else {
                match interval::un_interval(UnOpV::Relu, x) {
                    Ok(v) => Some(v),
                    Err(_) => None,
                }
            },
        },
        _ => match eval::prim_value::<S, IBPTensor<S>>((), e, eqn.prim).1 {
            Ok(v) => Some(v),
            Err(_) => None,
        },
    }
}

/// Whether splits are feasible, from equation number `i` on.
pub open spec fn feasible_from<S: Scalar>(
    eqns: Seq<EqnV<S>>,
    e: Map<Seq<char>, IBPV<S>>,
    splits: Map<Seq<char>, TensorV<S>>,
    i: nat,
) -> bool
    decreases eqns.len() - i,
{
    if i >= eqns.len() {
        true
    } else {
        match split_value(eqns[i as int], e, splits) {
            None => false,
            Some(v) => feasible_from(eqns, e.insert(eqns[i as int].out.name, v), splits, i + 1),
        }
    }
}

/// Whether splits are feasible on a box: the signs that they ask for can occur, as far as interval
/// bounds with the splits taken into account can tell.
pub open spec fn feasible<S: Scalar>(
    g: GraphV<S>,
    x: IBPV<S>,
    splits: Map<Seq<char>, TensorV<S>>,
) -> bool {
    feasible_from(
        g.equations,
        Map::<Seq<char>, IBPV<S>>::empty().insert(g.invars[0].name, x),
        splits,
        0,
    )
}

/// The output of a rectifier under a split, if its input can have the signs.
fn relu_under<S: Scalar>(pre: &IBPTensor<S>, s: &Tensor<S>) -> (r: Option<IBPTensor<S>>)
    ensures
        match (r, split_relu(pre@, s@)) {
            (Some(v), Some(m)) => v@ == m,
            (None, None) => true,
            _ => false,
        },
{
    if !interval::same_shape(s.shape(), pre.lb().shape()) {
        return None;
    }
    let zero = scalar::number::<S>(0);
    let (lb, ub, sign) = (pre.lb().values(), pre.ub().values(), s.values());
    for i in 0..sign.len()
        invariant
            zero == scalar::zero::<S>(),
            lb@ == pre@.lb.data,
            ub@ == pre@.ub.data,
            sign@ == s@.data,
            lb@.len() == sign@.len(),
            ub@.len() == sign@.len(),
            forall|k: int| 0 <= k < i ==> can_have_sign(lb@[k], ub@[k], #[trigger] sign@[k]),
    {
        let fine = if zero.is_lt(sign[i]) {
            zero.is_le(ub[i])
        } else if sign[i].is_lt(zero) {
            lb[i].is_le(zero)
        } else {
            true
        };
        if !fine {
            assert(!can_have_sign(pre@.lb.data[i as int], pre@.ub.data[i as int], s@.data[i as int]));
            return None;
        }
    }
    // Propagate tightened output bounds so downstream layers see sharper intervals.
    let f_low = |l: S, v: S| -> (z: S)
        ensures
            z == split_low(l, v),
        {
            if zero.is_lt(v) {
                l.max_of(zero)
            } else if v.is_lt(zero) {
                zero
            } else {
                l.max_of(zero)
            }
        };
    let f_high = |u: S, v: S| -> (z: S)
        ensures
            z == split_high(u, v),
        {
            if zero.is_lt(v) {
                u
            } else if v.is_lt(zero) {
                zero
            } else {
                u.max_of(zero)
            }
        };
    let low = interval::zip_with(pre.lb(), s, f_low);
    let high = interval::zip_with(pre.ub(), s, f_high);
    proof {
        assert(low@ =~= interval::zipped(pre@.lb, s@, |l: S, v: S| split_low(l, v)));
        assert(high@ =~= interval::zipped(pre@.ub, s@, |u: S, v: S| split_high(u, v)));
    }
    Some(IBPTensor::spanning(low, high))
}

/// Returns false if `splits` are structurally infeasible given the original input domain.
///
/// Runs a forward IBP pass that propagates split-tightened ReLU bounds through the graph.
/// At each decided ReLU:
///   split +1 (forced active):   requires pre_ub >= 0; tightens output to [max(pre_lb,0), pre_ub]
///   split -1 (forced inactive): requires pre_lb <= 0; tightens output to [0, 0]
///
/// Compound infeasibility (e.g. split A forces split B's pre-activation entirely negative)
/// is detected because the tightened bounds propagate forward.
pub fn is_feasible<S: Scalar>(
    graph: &ComputeGraph<S>,
    in_bounds: &IBPTensor<S>,
    splits: &Env<Tensor<S>>,
) -> (r: bool)
    requires
        graph@.invars.len() > 0,
    ensures
        r == feasible(graph@, in_bounds@, crown::tensors(*splits)),
{
    let ghost ss = crown::tensors(*splits);
    let ghost eqns = graph@.equations;
    let mut bounds: Env<IBPTensor<S>> = Env::new();
    assert(graph@.invars[0] == graph.invars@[0]@);
    let first = in_bounds.dup();
    proof {
        assert(alpha_crown::intervals(bounds) =~= Map::<Seq<char>, IBPV<S>>::empty());
        env::lemma_scope_insert::<S, IBPTensor<S>>(bounds@, graph.invars@[0].name@, first);
    }
    bounds.insert(graph.invars[0].name.clone(), first);
    let ghost goal = feasible(graph@, in_bounds@, ss);
    for i in 0..graph.equations.len()
        invariant
            eqns == graph@.equations,
            ss == crown::tensors(*splits),
            goal == feasible(graph@, in_bounds@, ss),
            goal == feasible_from(eqns, alpha_crown::intervals(bounds), ss, i as nat),
    {
        let eqn = &graph.equations[i];
        assert(eqns[i as int] == eqn@);
        let out = if let Primitive::Relu(operand) = &eqn.primitive {
            let pre: IBPTensor<S> = match bounds.resolve(operand) {
                Ok(b) => b,
                Err(_) => {
                    return false;
                },
            };
            if let Some(s) = splits.get(eqn.outvar.name.as_str()) {
                match relu_under(&pre, s) {
                    Some(v) => v,
                    None => {
                        return false;
                    },
                }
            } else {
                match pre.unary(&UnOp::Relu) {
                    Ok(v) => v,
                    Err(_) => {
                        return false;
                    },
                }
            }
        } else {
            match IBPInterpreter::process_primitive(&eqn.primitive, &bounds) {
                Ok(b) => b,
                Err(_) => {
                    return false;
                },
            }
        };
        proof {
            assert(split_value(eqn@, alpha_crown::intervals(bounds), ss) == Some(out@));
            env::lemma_scope_insert::<S, IBPTensor<S>>(bounds@, eqn.outvar.name@, out);
        }
        bounds.insert(eqn.outvar.name.clone(), out);
    }
    true
}

// ---- the search ----
/// A part of the space of phases, bounded.
pub struct NodeV<S> {
    pub lb: S,
    /// relu splits
    pub splits: Map<Seq<char>, TensorV<S>>,
    /// alpha and beta params
    pub params: PairV<S>,
    /// Per-ReLU branching scores from this branch's bounding pass.
    pub scores: Map<Seq<char>, TensorV<S>>,
    pub affine: AffineV<TensorV<S>>,
}

/// One subproblem, bounded: the least value of its affine bound on the box.
pub open spec fn bounded<S: Scalar>(
    g: GraphV<S>,
    e: Map<Seq<char>, IBPV<S>>,
    x: IBPV<S>,
    splits: Map<Seq<char>, TensorV<S>>,
    warm: PairV<S>,
) -> Result<NodeV<S>, Fault> {
    match beta_crown::beta_bound(g, e, splits, StartV::Last, warm) {
        Err(f) => Err(f),
        Ok(o) => match affine::concretized::<S, Tensor<S>>((), o.bound, x.lb, x.ub).1 {
            Err(f) => Err(f),
            Ok(t) => Ok(
                NodeV {
                    lb: bab::min_of(t.data, S::top(), t.data.len()),
                    splits,
                    params: o.params,
                    scores: o.scores,
                    affine: o.bound,
                },
            ),
        },
    }
}

/// The corner of the box where the affine bound is least, if an output is negative there.
pub open spec fn falsified<S: Scalar>(g: GraphV<S>, x: IBPV<S>, a: AffineV<TensorV<S>>) -> Result<
    Option<TensorV<S>>,
    Fault,
> {
    if x.lb.shape != a.weights.shape {
        Err(Fault::Broadcast)
    } else {
        let corner = affine::least_corner(a.weights, x.lb, x.ub);
        match eval::evaluated::<S, Tensor<S>>((), g, seq![corner]).1 {
            Err(f) => Err(f),
            Ok(out) => Ok(
                if bab::min_over(out, out.len()).less(scalar::zero()) {
                    Some(corner)
                } else {
                    None
                },
            ),
        }
    }
}

/// The bounds of some nodes.
pub open spec fn node_keys<S>(heap: Seq<NodeV<S>>) -> Seq<S> {
    Seq::new(heap.len(), |i: int| heap[i].lb)
}

/// Which node comes next: the first of those with the smallest bound.
pub open spec fn next_node<S: Scalar>(heap: Seq<NodeV<S>>) -> int {
    bab::first_least(node_keys(heap), heap.len())
}

/// What a step of the search leads to: a verdict, or the nodes still open.
pub enum NodeSearchV<S> {
    Done(VerdictV<S>),
    Open(Seq<NodeV<S>>),
}

/// What the parts from number `i` on lead to, in turn. Infeasible ones are skipped; a negative
/// output ends the search; one whose bound is negative stays open.
pub open spec fn expanded<S: Scalar>(
    g: GraphV<S>,
    e: Map<Seq<char>, IBPV<S>>,
    x: IBPV<S>,
    warm: PairV<S>,
    parts: Seq<Map<Seq<char>, TensorV<S>>>,
    heap: Seq<NodeV<S>>,
    i: nat,
) -> Result<NodeSearchV<S>, Fault>
    decreases parts.len() - i,
{
    if i >= parts.len() {
        Ok(NodeSearchV::Open(heap))
    } else if !feasible(g, x, parts[i as int]) {
        expanded(g, e, x, warm, parts, heap, i + 1)
    } else {
        match bounded(g, e, x, parts[i as int], warm) {
            Err(f) => Err(f),
            Ok(child) => match falsified(g, x, child.affine) {
                Err(f) => Err(f),
                Ok(Some(cex)) => Ok(NodeSearchV::Done(VerdictV::Unsafe(seq![cex]))),
                Ok(None) => expanded(
                    g,
                    e,
                    x,
                    warm,
                    parts,
                    if child.lb.less(scalar::zero()) {
                        heap.push(child)
                    } else {
                        heap
                    },
                    i + 1,
                ),
            },
        }
    }
}

/// The verdict of at most `fuel` rounds. Where no phase is left to split, the box itself is split.
pub open spec fn node_searched<S: Scalar, P: NodeSplit<S>>(
    g: GraphV<S>,
    e: Map<Seq<char>, IBPV<S>>,
    inputs: Seq<IBPV<S>>,
    split: P,
    config: BaBConfig<S>,
    heap: Seq<NodeV<S>>,
    fuel: nat,
) -> Result<VerdictV<S>, Fault>
    decreases fuel,
{
    if fuel == 0 {
        Ok(VerdictV::Undecided)
    } else if heap.len() == 0 {
        Ok(VerdictV::Safe)
    } else {
        let node = heap[next_node(heap)];
        let rest = heap.remove(next_node(heap));
        if scalar::zero::<S>().at_most(node.lb) {
            Ok(VerdictV::Safe)
        } else {
            let parts = split.parts(node.splits, node.scores);
            if parts.len() == 0 || decided(node.splits) {
                input_splitting::input_verdict(g, inputs, UniformSplit {  }, config)
            } else {
                match expanded(g, e, inputs[0], node.params, parts, rest, 0) {
                    Err(f) => Err(f),
                    Ok(NodeSearchV::Done(v)) => Ok(v),
                    Ok(NodeSearchV::Open(next)) => node_searched(
                        g,
                        e,
                        inputs,
                        split,
                        config,
                        next,
                        (fuel - 1) as nat,
                    ),
                }
            }
        }
    }
}

/// The undecided splits of all rectifiers among the first `k` equations.
pub open spec fn open_splits<S: Scalar>(
    eqns: Seq<EqnV<S>>,
    e: Map<Seq<char>, IBPV<S>>,
    k: nat,
) -> Result<Map<Seq<char>, TensorV<S>>, Fault>
    decreases k,
{
    if k == 0 {
        Ok(Map::empty())
    } else {
        match open_splits(eqns, e, (k - 1) as nat) {
            Err(f) => Err(f),
            Ok(m) => match eqns[k - 1].prim {
                PrimV::Un(UnOpV::Relu, a) => match crown::bounds_of(e, a) {
                    Err(f) => Err(f),
                    Ok(x) => Ok(
                        m.insert(
                            eqns[k - 1].out.name,
                            model::filled(x.lb.shape, scalar::zero()),
                        ),
                    ),
                },
                _ => Ok(m),
            },
        }
    }
}

/// No slopes and multipliers.
pub open spec fn no_params<S>() -> PairV<S> {
    PairV { alphas: Map::empty(), betas: Map::empty() }
}

/// The verdict of branch and bound over the phases of rectifiers, on a box.
pub open spec fn node_verdict<S: Scalar, P: NodeSplit<S>>(
    g: GraphV<S>,
    inputs: Seq<IBPV<S>>,
    split: P,
    config: BaBConfig<S>,
) -> Result<VerdictV<S>, Fault> {
    if inputs.len() == 0 || g.invars.len() == 0 {
        Err(Fault::Graph)
    } else {
        let start = Map::<Seq<char>, IBPV<S>>::empty().insert(g.invars[0].name, inputs[0]);
        match eval::forward::<S, IBPTensor<S>>((), g.equations, start, 0).1 {
            Err(f) => Err(f),
            Ok(e) => match open_splits(g.equations, e, g.equations.len()) {
                Err(f) => Err(f),
                Ok(splits) => match bounded(g, e, inputs[0], splits, no_params()) {
                    Err(f) => Err(f),
                    Ok(root) => match falsified(g, inputs[0], root.affine) {
                        Err(f) => Err(f),
                        Ok(Some(cex)) => Ok(VerdictV::Unsafe(seq![cex])),
                        Ok(None) => node_searched(
                            g,
                            e,
                            inputs,
                            split,
                            config,
                            seq![root],
                            config.max_iters as nat,
                        ),
                    },
                },
            },
        }
    }
}

// ---- execution ----
/// A part of the space of phases, bounded.
struct Branch<S> {
    lb: S,
    splits: Env<Tensor<S>>,
    bound: SplitBound<S>,
}

spec fn node<S: Scalar>(b: Branch<S>) -> NodeV<S> {
    let o = beta_crown::split_outcome(b.bound);
    NodeV {
        lb: b.lb,
        splits: crown::tensors(b.splits),
        params: o.params,
        scores: o.scores,
        affine: o.bound,
    }
}

spec fn nodes<S: Scalar>(v: Seq<Branch<S>>) -> Seq<NodeV<S>> {
    Seq::new(v.len(), |i: int| node(v[i]))
}

/// Bounds one subproblem.
fn bound<S: Scalar>(
    graph: &ComputeGraph<S>,
    var_bounds: &Env<IBPTensor<S>>,
    x: &IBPTensor<S>,
    splits: Env<Tensor<S>>,
    warmstart: Option<(Env<Tensor<S>>, Env<Tensor<S>>)>,
) -> (r: Result<Branch<S>, EvalError>)
    ensures
        (match r {
            Ok(b) => Ok(node(b)),
            Err(e) => Err(e@),
        }) == bounded(
            graph@,
            alpha_crown::intervals(*var_bounds),
            x@,
            crown::tensors(splits),
            match warmstart {
                Some((a, b)) => beta_crown::pair(a, b),
                None => no_params(),
            },
        ),
{
    let bound = BetaCrownInterpreter::run(graph, var_bounds, &splits, None, warmstart)?;
    let mut cx: () = ();
    let t: Tensor<S> = bound.bound.concretize::<S>(x.lb(), x.ub(), &mut cx)?;
    let lb = bab::smallest(&t, S::infinity());
    Ok(Branch { lb, splits, bound })
}

/// The corner of the box where the affine bound is least, if an output is negative there.
fn try_falsify<S: Scalar>(
    graph: &ComputeGraph<S>,
    x: &IBPTensor<S>,
    branch: &Branch<S>,
) -> (r: Result<Option<Tensor<S>>, EvalError>)
    ensures
        (match r {
            Ok(Some(t)) => Ok(Some(t@)),
            Ok(None) => Ok(None),
            Err(e) => Err(e@),
        }) == falsified(graph@, x@, node(*branch).affine),
{
    let corner = branch.bound.bound.argmin_corner(x.lb(), x.ub())?;
    let inputs: Vec<Tensor<S>> = vec![corner.dup()];
    assert(value::models::<S, Tensor<S>>(inputs@) =~= seq![corner@]);
    let out = EvalInterpreter::run(graph, &inputs)?;
    let ghost ms = value::models::<S, Tensor<S>>(out@);
    let mut min: S = S::infinity();
    for i in 0..out.len()
        invariant
            ms == value::models::<S, Tensor<S>>(out@),
            min == bab::min_over(ms, i as nat),
    {
        assert(ms[i as int] == out@[i as int]@);
        min = bab::smallest(&out[i], min);
    }
    if min.is_lt(scalar::number::<S>(0)) {
        Ok(Some(corner))
    } else {
        Ok(None)
    }
}

/// Removes the node that comes next.
fn pop<S: Scalar>(heap: &mut Vec<Branch<S>>) -> (r: Branch<S>)
    requires
        old(heap)@.len() > 0,
    ensures
        node(r) == nodes(old(heap)@)[next_node(nodes(old(heap)@))],
        nodes(final(heap)@) == nodes(old(heap)@).remove(next_node(nodes(old(heap)@))),
{
    let ghost all = nodes(heap@);
    let ghost keys = node_keys(all);
    let mut best: usize = 0;
    let mut i: usize = 1;
    while i < heap.len()
        invariant
            all == nodes(heap@),
            keys == node_keys(all),
            1 <= i <= heap@.len(),
            best < i,
            best == bab::first_least(keys, i as nat),
        decreases heap@.len() - i,
    {
        assert(keys[i as int] == heap@[i as int].lb);
        assert(keys[best as int] == heap@[best as int].lb);
        if heap[i].lb.is_before(heap[best].lb) {
            best = i;
        }
        i = i + 1;
    }
    let r = heap.remove(best);
    assert(nodes(heap@) =~= all.remove(best as int));
    r
}

enum NodeSearch<S> {
    Done(BaBResult<S>),
    Open(Vec<Branch<S>>),
}

spec fn node_search_of<S: Scalar>(r: Result<NodeSearch<S>, EvalError>) -> Result<
    NodeSearchV<S>,
    Fault,
> {
    match r {
        Ok(NodeSearch::Done(v)) => Ok(NodeSearchV::Done(v@)),
        Ok(NodeSearch::Open(h)) => Ok(NodeSearchV::Open(nodes(h@))),
        Err(e) => Err(e@),
    }
}

/// What some parts lead to, in turn.
fn expand<S: Scalar>(
    graph: &ComputeGraph<S>,
    var_bounds: &Env<IBPTensor<S>>,
    x: &IBPTensor<S>,
    alphas: &Env<Tensor<S>>,
    betas: &Env<Tensor<S>>,
    parts: &Vec<Env<Tensor<S>>>,
    heap: Vec<Branch<S>>,
) -> (r: Result<NodeSearch<S>, EvalError>)
    requires
        graph@.invars.len() > 0,
    ensures
        node_search_of(r) == expanded(
            graph@,
            alpha_crown::intervals(*var_bounds),
            x@,
            beta_crown::pair(*alphas, *betas),
            split_views(parts@),
            nodes(heap@),
            0,
        ),
{
    let ghost e = alpha_crown::intervals(*var_bounds);
    let ghost warm = beta_crown::pair(*alphas, *betas);
    let ghost ps = split_views(parts@);
    let ghost goal = expanded(graph@, e, x@, warm, ps, nodes(heap@), 0);
    let mut now = heap;
    for i in 0..parts.len()
        invariant
            graph@.invars.len() > 0,
            e == alpha_crown::intervals(*var_bounds),
            warm == beta_crown::pair(*alphas, *betas),
            ps == split_views(parts@),
            goal == expanded(graph@, e, x@, warm, ps, nodes(heap@), 0),
            goal == expanded(graph@, e, x@, warm, ps, nodes(now@), i as nat),
    {
        assert(ps[i as int] == crown::tensors(parts@[i as int]));
        if is_feasible(graph, x, &parts[i]) {
            let a = alpha_crown::copy_tensors(alphas);
            let b = alpha_crown::copy_tensors(betas);
            let child = bound(
                graph,
                var_bounds,
                x,
                alpha_crown::copy_tensors(&parts[i]),
                Some((a, b)),
            )?;
            if let Some(cex) = try_falsify(graph, x, &child)? {
                let v: Vec<Tensor<S>> = vec![cex];
                assert(value::models::<S, Tensor<S>>(v@) =~= seq![cex@]);
                return Ok(NodeSearch::Done(BaBResult::Unsafe(v)));
            }
            if child.lb.is_lt(scalar::number::<S>(0)) {
                let ghost before = nodes(now@);
                let ghost c = node(child);
                now.push(child);
                assert(nodes(now@) =~= before.push(c));
            }
        }
    }
    Ok(NodeSearch::Open(now))
}

/// A failure decides the outcome.
proof fn lemma_open_splits_fail<S: Scalar>(
    eqns: Seq<EqnV<S>>,
    e: Map<Seq<char>, IBPV<S>>,
    i: nat,
    k: nat,
)
    requires
        i <= k,
        open_splits(eqns, e, i) is Err,
    ensures
        open_splits(eqns, e, k) == open_splits(eqns, e, i),
    decreases k,
{
    if i < k {
        lemma_open_splits_fail(eqns, e, i, (k - 1) as nat);
    }
}

/// The undecided splits of all rectifiers.
fn first_splits<S: Scalar>(graph: &ComputeGraph<S>, var_bounds: &Env<IBPTensor<S>>) -> (r: Result<
    Env<Tensor<S>>,
    EvalError,
>)
    ensures
        alpha_crown::params_of(r) == open_splits(
            graph@.equations,
            alpha_crown::intervals(*var_bounds),
            graph@.equations.len(),
        ),
{
    let ghost eqns = graph@.equations;
    let ghost e = alpha_crown::intervals(*var_bounds);
    let mut splits: Env<Tensor<S>> = Env::new();
    assert(crown::tensors(splits) =~= Map::<Seq<char>, TensorV<S>>::empty());
    for i in 0..graph.equations.len()
        invariant
            eqns == graph@.equations,
            e == alpha_crown::intervals(*var_bounds),
            open_splits(eqns, e, i as nat) == Ok::<Map<Seq<char>, TensorV<S>>, Fault>(
                crown::tensors(splits),
            ),
    {
        let eqn = &graph.equations[i];
        assert(eqns[i as int] == eqn@);
        proof {
            if open_splits(eqns, e, (i + 1) as nat) is Err {
                lemma_open_splits_fail(eqns, e, (i + 1) as nat, eqns.len());
            }
        }
        if let Primitive::Relu(xa) = &eqn.primitive {
            let x: IBPTensor<S> = var_bounds.resolve(xa)?;
            let s = tensor::copy_of(x.lb().shape());
            let zeros = Tensor::from_elem(s, scalar::number::<S>(0))?;
            proof {
                env::lemma_scope_insert::<S, Tensor<S>>(splits@, eqn.outvar.name@, zeros);
            }
            splits.insert(eqn.outvar.name.clone(), zeros);
        }
    }
    Ok(splits)
}

/// Searches the phases of rectifiers for a part where an output of a graph is negative. Each part
/// is bounded under its constraints; the one with the smallest bound is split first. Where no
/// phase is left to split, the box itself is split.
pub fn node_splitting_bab<S: Scalar, P: NodeSplit<S>>(
    graph: &ComputeGraph<S>,
    inputs: &Vec<IBPTensor<S>>,
    split: &P,
    config: &BaBConfig<S>,
) -> (r: Result<BaBResult<S>, EvalError>)
    requires
        config.batch_size >= 1,
    ensures
        (match r {
            Ok(v) => Ok(v@),
            Err(e) => Err(e@),
        }) == node_verdict(graph@, bab::boxes(inputs@), *split, *config),
{
    if inputs.len() == 0 || graph.invars.len() == 0 {
        return Err(EvalError::Graph);
    }
    let ghost all = bab::boxes(inputs@);
    let x = &inputs[0];
    assert(all[0] == x@);
    assert(graph@.invars[0] == graph.invars@[0]@);
    // --- Forward Pass ---
    let first = x.dup();
    let mut start: Env<IBPTensor<S>> = Env::new();
    proof {
        assert(alpha_crown::intervals(start) =~= Map::<Seq<char>, IBPV<S>>::empty());
        env::lemma_scope_insert::<S, IBPTensor<S>>(start@, graph.invars@[0].name@, first);
    }
    start.insert(graph.invars[0].name.clone(), first);
    let mut cx: () = ();
    let var_bounds = EvalGenInterpreter::forward::<S, IBPTensor<S>>(
        &graph.equations,
        start,
        &mut cx,
    )?;
    let ghost e = alpha_crown::intervals(var_bounds);
    // --- Init Split ---
    let splits = first_splits(graph, &var_bounds)?;
    let root = bound(graph, &var_bounds, x, splits, None)?;
    if let Some(cex) = try_falsify(graph, x, &root)? {
        let v: Vec<Tensor<S>> = vec![cex];
        assert(value::models::<S, Tensor<S>>(v@) =~= seq![cex@]);
        return Ok(BaBResult::Unsafe(v));
    }
    let ghost first_node = node(root);
    let mut heap: Vec<Branch<S>> = vec![root];
    assert(nodes(heap@) =~= seq![first_node]);
    search_nodes(graph, &var_bounds, inputs, split, config, heap)
}

/// The rounds of the search.
fn search_nodes<S: Scalar, P: NodeSplit<S>>(
    graph: &ComputeGraph<S>,
    var_bounds: &Env<IBPTensor<S>>,
    inputs: &Vec<IBPTensor<S>>,
    split: &P,
    config: &BaBConfig<S>,
    heap: Vec<Branch<S>>,
) -> (r: Result<BaBResult<S>, EvalError>)
    requires
        config.batch_size >= 1,
        inputs@.len() > 0,
        graph@.invars.len() > 0,
    ensures
        (match r {
            Ok(v) => Ok(v@),
            Err(e) => Err(e@),
        }) == node_searched(
            graph@,
            alpha_crown::intervals(*var_bounds),
            bab::boxes(inputs@),
            *split,
            *config,
            nodes(heap@),
            config.max_iters as nat,
        ),
{
    let ghost e = alpha_crown::intervals(*var_bounds);
    let ghost all = bab::boxes(inputs@);
    let ghost goal = node_searched(
        graph@,
        e,
        all,
        *split,
        *config,
        nodes(heap@),
        config.max_iters as nat,
    );
    let x = &inputs[0];
    let mut now = heap;
    for i in 0..config.max_iters
        invariant
            config.batch_size >= 1,
            inputs@.len() > 0,
            graph@.invars.len() > 0,
            e == alpha_crown::intervals(*var_bounds),
            all == bab::boxes(inputs@),
            all[0] == x@,
            goal == node_searched(
                graph@,
                e,
                all,
                *split,
                *config,
                nodes(heap@),
                config.max_iters as nat,
            ),
            goal == node_searched(
                graph@,
                e,
                all,
                *split,
                *config,
                nodes(now@),
                (config.max_iters - i) as nat,
            ),
    {
        if now.len() == 0 {
            return Ok(BaBResult::Safe);
        }
        let branch = pop(&mut now);
        // Smallest lb first, so if the best open branch already clears 0, all do.
        if scalar::number::<S>(0).is_le(branch.lb) {
            return Ok(BaBResult::Safe);
        }
        let children = split.split(&branch.splits, &branch.bound.scores);
        assert(split_views(children@).len() == children@.len());
        if children.len() == 0 || all_decided(&branch.splits) {
            // try input_splitting
            return input_splitting::input_splitting_bab(graph, inputs, &UniformSplit {  }, config);
        }
        match expand(
            graph,
            var_bounds,
            x,
            &branch.bound.alphas,
            &branch.bound.betas,
            &children,
            now,
        )? {
            NodeSearch::Done(v) => {
                return Ok(v);
            },
            NodeSearch::Open(next) => {
                now = next;
            },
        }
    }
    Ok(BaBResult::Undecided)
}

} // verus!
