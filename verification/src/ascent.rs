//! The ascent keeps its parameters in range: slopes between zero and one, multipliers not
//! negative.

use vstd::prelude::*;
use crate::alpha_crown;
use crate::beta_crown;
use crate::beta_crown::PairV;
use crate::crown::StartV;
use crate::eval;
use crate::exact;
use crate::grad;
use crate::interval::IBPV;
use crate::model;
use crate::model::TensorV;
use crate::nn;
use crate::nn::{EqnV, GraphV, PrimV};
use crate::scalar;
use crate::scalar::Scalar;

verus! {

/// Whether all elements of a tensor lie between zero and one.
pub open spec fn in_units<S>(v: spec_fn(S) -> real, t: TensorV<S>) -> bool {
    forall|k: int| 0 <= k < t.data.len() ==> 0real <= v(#[trigger] t.data[k]) <= 1real
}

/// Whether no element of a tensor is negative.
pub open spec fn not_negative<S>(v: spec_fn(S) -> real, t: TensorV<S>) -> bool {
    forall|k: int| 0 <= k < t.data.len() ==> 0real <= v(#[trigger] t.data[k])
}

/// Whether all slopes lie between zero and one.
pub open spec fn slopes_in_range<S>(
    v: spec_fn(S) -> real,
    m: Map<Seq<char>, TensorV<S>>,
) -> bool {
    forall|x: Seq<char>| #[trigger] m.dom().contains(x) ==> in_units(v, m[x])
}

/// Whether all slopes lie between zero and one, and no multiplier is negative.
pub open spec fn pair_in_range<S>(v: spec_fn(S) -> real, p: PairV<S>) -> bool {
    &&& slopes_in_range(v, p.alphas)
    &&& forall|x: Seq<char>| #[trigger] p.betas.dom().contains(x) ==> not_negative(v, p.betas[x])
}

/// A slope that has moved lies between zero and one.
pub proof fn lemma_next_alpha<S: Scalar>(v: spec_fn(S) -> real, p: TensorV<S>, g: TensorV<S>)
    requires
        exact::exact(v),
    ensures
        alpha_crown::next_alpha(p, g) matches Ok(t) ==> in_units(v, t),
{
    exact::lemma_numbers(v);
}

/// A multiplier that has moved is not negative.
pub proof fn lemma_next_beta<S: Scalar>(v: spec_fn(S) -> real, p: TensorV<S>, g: TensorV<S>)
    requires
        exact::exact(v),
    ensures
        beta_crown::next_beta(p, g) matches Ok(t) ==> not_negative(v, t),
{
    exact::lemma_numbers(v);
}

/// The slopes that the ascent starts from lie between zero and one.
pub proof fn lemma_first_slopes<S: Scalar>(v: spec_fn(S) -> real, x: IBPV<S>)
    requires
        exact::exact(v),
    ensures
        in_units(v, alpha_crown::first_slopes(x)),
{
    exact::lemma_numbers(v);
}

// ---- slopes alone ----
/// Slopes stay in range while the first `k` move.
proof fn lemma_ascended<S: Scalar>(
    v: spec_fn(S) -> real,
    names: Seq<(Seq<char>, Seq<usize>)>,
    grads: Seq<TensorV<S>>,
    params: Map<Seq<char>, TensorV<S>>,
    k: nat,
)
    requires
        exact::exact(v),
        slopes_in_range(v, params),
    ensures
        alpha_crown::ascended(names, grads, params, k) matches Ok(p) ==> slopes_in_range(v, p),
    decreases k,
{
    if k > 0 {
        lemma_ascended(v, names, grads, params, (k - 1) as nat);
        let r = alpha_crown::ascended(names, grads, params, (k - 1) as nat);
        if r is Ok {
            lemma_next_alpha(v, r->Ok_0[names[k - 1].0], grads[k - 1]);
        }
    }
}

/// Slopes stay in range through `n` ascent steps.
proof fn lemma_climbed<S: Scalar>(
    v: spec_fn(S) -> real,
    loss: GraphV<S>,
    names: Seq<(Seq<char>, Seq<usize>)>,
    params: Map<Seq<char>, TensorV<S>>,
    n: nat,
)
    requires
        exact::exact(v),
        slopes_in_range(v, params),
    ensures
        alpha_crown::climbed_often(loss, names, params, n) matches Ok(p) ==> slopes_in_range(v, p),
    decreases n,
{
    if n > 0 {
        reveal(alpha_crown::climbed);
        let found = alpha_crown::looked_up(names, params, names.len());
        if found is Ok {
            let grads = grad::loss_gradients(loss, found->Ok_0, None);
            if grads is Ok {
                let k = eval::shorter(names.len(), grads->Ok_0.len());
                lemma_ascended(v, names, grads->Ok_0, params, k);
            }
        }
        let next = alpha_crown::climbed(loss, names, params);
        if next is Ok {
            lemma_climbed(v, loss, names, next->Ok_0, (n - 1) as nat);
        }
    }
}

/// The optimised slopes lie between zero and one.
pub proof fn lemma_slopes_in_range<S: Scalar>(
    v: spec_fn(S) -> real,
    g: GraphV<S>,
    e: Map<Seq<char>, IBPV<S>>,
    params: Map<Seq<char>, TensorV<S>>,
    start: StartV,
)
    requires
        exact::exact(v),
        slopes_in_range(v, params),
    ensures
        alpha_crown::best_slopes(g, e, params, start) matches Ok(p) ==> slopes_in_range(v, p),
{
    if g.invars.len() > 0 {
        let x = crate::crown::bounds_of(e, g.invars[0]);
        if x is Ok {
            let names = alpha_crown::slots(g.equations, params, g.equations.len());
            let loss = alpha_crown::slope_loss(g, e, names, x->Ok_0, start);
            if loss is Ok {
                lemma_climbed(v, loss->Ok_0, names, params, alpha_crown::ITERS as nat);
            }
        }
    }
}

/// The slopes that the preparation gives lie between zero and one.
pub proof fn lemma_prepared_in_range<S: Scalar>(
    v: spec_fn(S) -> real,
    eqns: Seq<EqnV<S>>,
    e: Map<Seq<char>, IBPV<S>>,
    params: Map<Seq<char>, TensorV<S>>,
    i: nat,
)
    requires
        exact::exact(v),
        slopes_in_range(v, params),
    ensures
        alpha_crown::prepared(eqns, e, params, i) matches Ok((_, p)) ==> slopes_in_range(v, p),
    decreases eqns.len() - i,
{
    if i < eqns.len() {
        let (prim, name) = (eqns[i as int].prim, eqns[i as int].out.name);
        let r = eval::prim_value::<S, crate::interval::IBPTensor<S>>((), e, prim).1;
        if r is Ok {
            let e2 = e.insert(name, r->Ok_0);
            lemma_prepared_in_range(v, eqns, e2, params, i + 1);
            if let PrimV::Un(_, a) = prim {
                let x = crate::crown::bounds_of(e2, a);
                if nn::is_activation(prim) && x is Ok {
                    lemma_first_slopes(v, x->Ok_0);
                    let more = params.insert(name, alpha_crown::first_slopes(x->Ok_0));
                    lemma_prepared_in_range(v, eqns, e2, more, i + 1);
                }
            }
        }
    }
}

// ---- slopes and multipliers ----
/// Parameters stay in range while those of the first `k` activations move.
proof fn lemma_pair_ascended<S: Scalar>(
    v: spec_fn(S) -> real,
    names: Seq<(Seq<char>, Seq<usize>)>,
    grads: Seq<TensorV<S>>,
    p: PairV<S>,
    k: nat,
)
    requires
        exact::exact(v),
        pair_in_range(v, p),
    ensures
        beta_crown::pair_ascended(names, grads, p, k) matches Ok(q) ==> pair_in_range(v, q),
    decreases k,
{
    if k > 0 {
        lemma_pair_ascended(v, names, grads, p, (k - 1) as nat);
        let r = beta_crown::pair_ascended(names, grads, p, (k - 1) as nat);
        if r is Ok {
            let (q, name) = (r->Ok_0, names[k - 1].0);
            lemma_next_alpha(v, q.alphas[name], grads[2 * (k - 1)]);
            lemma_next_beta(v, q.betas[name], grads[2 * (k - 1) + 1]);
        }
    }
}

/// Parameters stay in range through `n` ascent steps.
proof fn lemma_pair_climbed<S: Scalar>(
    v: spec_fn(S) -> real,
    loss: GraphV<S>,
    names: Seq<(Seq<char>, Seq<usize>)>,
    p: PairV<S>,
    n: nat,
)
    requires
        exact::exact(v),
        pair_in_range(v, p),
    ensures
        beta_crown::pair_climbed_often(loss, names, p, n) matches Ok(q) ==> pair_in_range(v, q),
    decreases n,
{
    if n > 0 {
        reveal(beta_crown::pair_climbed);
        let found = beta_crown::paired(names, p, names.len());
        if found is Ok {
            let grads = grad::loss_gradients(loss, found->Ok_0, None);
            if grads is Ok {
                let k = eval::shorter(names.len(), grads->Ok_0.len() / 2);
                lemma_pair_ascended(v, names, grads->Ok_0, p, k);
            }
        }
        let next = beta_crown::pair_climbed(loss, names, p);
        if next is Ok {
            lemma_pair_climbed(v, loss, names, next->Ok_0, (n - 1) as nat);
        }
    }
}

/// The optimised slopes lie between zero and one, and no optimised multiplier is negative.
pub proof fn lemma_pair_in_range<S: Scalar>(
    v: spec_fn(S) -> real,
    g: GraphV<S>,
    e: Map<Seq<char>, IBPV<S>>,
    splits: Map<Seq<char>, TensorV<S>>,
    p: PairV<S>,
    start: StartV,
)
    requires
        exact::exact(v),
        pair_in_range(v, p),
    ensures
        beta_crown::best_pair(g, e, splits, p, start) matches Ok(q) ==> pair_in_range(v, q),
{
    if g.invars.len() > 0 {
        let x = crate::crown::bounds_of(e, g.invars[0]);
        if x is Ok {
            let names = alpha_crown::slots(g.equations, p.alphas, g.equations.len());
            let loss = beta_crown::split_loss(g, e, names, x->Ok_0, splits, start);
            if loss is Ok {
                lemma_pair_climbed(v, loss->Ok_0, names, p, alpha_crown::ITERS as nat);
            }
        }
    }
}

/// Parameters that are added where none were given are in range.
pub proof fn lemma_seeded_in_range<S: Scalar>(
    v: spec_fn(S) -> real,
    eqns: Seq<EqnV<S>>,
    e: Map<Seq<char>, IBPV<S>>,
    p: PairV<S>,
    k: nat,
)
    requires
        exact::exact(v),
        pair_in_range(v, p),
        k <= eqns.len(),
    ensures
        beta_crown::seeded(eqns, e, p, k) matches Ok(q) ==> pair_in_range(v, q),
    decreases k,
{
    if k > 0 {
        lemma_seeded_in_range(v, eqns, e, p, (k - 1) as nat);
        exact::lemma_numbers(v);
        if let PrimV::Un(_, a) = eqns[k - 1].prim {
            let x = crate::crown::bounds_of(e, a);
            if x is Ok {
                lemma_first_slopes(v, x->Ok_0);
                assert(not_negative(
                    v,
                    model::filled(x->Ok_0.lb.shape, scalar::zero::<S>()),
                ));
            }
        }
    }
}

} // verus!
