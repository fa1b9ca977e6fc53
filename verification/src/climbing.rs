//! What an ascent does to its parameters: each moves along its own gradient, step after step, in
//! exact arithmetic.

use vstd::prelude::*;
use crate::alpha_crown;
use crate::beta_crown;
use crate::beta_crown::PairV;
use crate::exact;
use crate::grad;
use crate::model::{Fault, TensorV};
use crate::nn::GraphV;
use crate::reals;
use crate::scalar::Scalar;
use crate::tightness;

verus! {

/// Whether parameters have names of their own.
pub open spec fn own_names(names: Seq<(Seq<char>, Seq<usize>)>) -> bool {
    forall|i: int, j: int|
        0 <= i < j < names.len() ==> (#[trigger] names[i]).0 != (#[trigger] names[j]).0
}

/// Whether a gradient goes with a parameter.
pub open spec fn goes_with<S>(p: TensorV<S>, g: TensorV<S>) -> bool {
    p.wf() && reals::full(g) && g.shape == p.shape
}

/// Whether each parameter has a value, and a gradient that goes with it.
pub open spec fn all_known<S>(
    names: Seq<(Seq<char>, Seq<usize>)>,
    grads: Seq<TensorV<S>>,
    params: Map<Seq<char>, TensorV<S>>,
) -> bool {
    &&& grads.len() == names.len()
    &&& forall|i: int|
        0 <= i < names.len() ==> params.dom().contains((#[trigger] names[i]).0) && goes_with(
            params[names[i].0],
            grads[i],
        )
}

/// Whether the first `k` parameters have moved along their gradients, and all else stayed.
pub open spec fn each_climbs<S: Scalar>(
    v: spec_fn(S) -> real,
    names: Seq<(Seq<char>, Seq<usize>)>,
    grads: Seq<TensorV<S>>,
    p: Map<Seq<char>, TensorV<S>>,
    q: Map<Seq<char>, TensorV<S>>,
    k: nat,
) -> bool {
    &&& q.dom() == p.dom()
    &&& forall|i: int|
        0 <= i < k ==> tightness::climbs(
            v,
            p[(#[trigger] names[i]).0],
            grads[i],
            q[names[i].0],
            Some(100real),
        )
    &&& forall|n: Seq<char>|
        (forall|i: int| 0 <= i < k ==> (#[trigger] names[i]).0 != n) ==> #[trigger] q[n] == p[n]
}

/// Slopes that move together.
proof fn lemma_ascended<S: Scalar>(
    v: spec_fn(S) -> real,
    names: Seq<(Seq<char>, Seq<usize>)>,
    grads: Seq<TensorV<S>>,
    p: Map<Seq<char>, TensorV<S>>,
    k: nat,
)
    requires
        exact::exact(v),
        own_names(names),
        all_known(names, grads, p),
        k <= names.len(),
    ensures
        alpha_crown::ascended(names, grads, p, k) is Ok,
        each_climbs(v, names, grads, p, alpha_crown::ascended(names, grads, p, k)->Ok_0, k),
    decreases k,
{
    if k > 0 {
        lemma_ascended(v, names, grads, p, (k - 1) as nat);
        let before = alpha_crown::ascended(names, grads, p, (k - 1) as nat)->Ok_0;
        let name = names[k - 1].0;
        assert forall|i: int| 0 <= i < k - 1 implies (#[trigger] names[i]).0 != name by {
            assert(names[i].0 != names[k - 1].0);
        }
        assert(before[name] == p[name]);
        assert(goes_with(p[names[k - 1].0], grads[k - 1]));
        tightness::lemma_slopes_climb(v, p[name], grads[k - 1]);
        let q = alpha_crown::ascended(names, grads, p, k)->Ok_0;
        assert(q.dom() =~= p.dom());
        assert forall|n: Seq<char>|
            (forall|i: int| 0 <= i < k ==> (#[trigger] names[i]).0 != n) implies #[trigger] q[n]
            == p[n] by {
            assert(names[k - 1].0 != n);
        }
    }
}

/// The values of parameters, in turn.
proof fn lemma_looked_up<S>(
    names: Seq<(Seq<char>, Seq<usize>)>,
    p: Map<Seq<char>, TensorV<S>>,
    k: nat,
)
    requires
        k <= names.len(),
        forall|i: int| 0 <= i < names.len() ==> p.dom().contains((#[trigger] names[i]).0),
    ensures
        alpha_crown::looked_up(names, p, k) == Ok::<Seq<TensorV<S>>, Fault>(
            Seq::new(k, |i: int| p[names[i].0]),
        ),
    decreases k,
{
    if k > 0 {
        lemma_looked_up(names, p, (k - 1) as nat);
        assert(p.dom().contains(names[k - 1].0));
        assert(Seq::new((k - 1) as nat, |i: int| p[names[i].0]).push(p[names[k - 1].0])
            =~= Seq::new(k, |i: int| p[names[i].0]));
    } else {
        assert(Seq::new(0, |i: int| p[names[i].0]) =~= Seq::empty());
    }
}

/// One step of the ascent of slopes: each moves by a hundredth of its own gradient of the loss at
/// the slopes before the step, and stays between zero and one.
pub proof fn lemma_each_slope_climbs<S: Scalar>(
    v: spec_fn(S) -> real,
    loss: GraphV<S>,
    names: Seq<(Seq<char>, Seq<usize>)>,
    p: Map<Seq<char>, TensorV<S>>,
    grads: Seq<TensorV<S>>,
)
    requires
        exact::exact(v),
        own_names(names),
        grad::loss_gradients(loss, Seq::new(names.len(), |i: int| p[names[i].0]), None) == Ok::<
            Seq<TensorV<S>>,
            Fault,
        >(grads),
        all_known(names, grads, p),
    ensures
        alpha_crown::climbed(loss, names, p) is Ok,
        each_climbs(
            v,
            names,
            grads,
            p,
            alpha_crown::climbed(loss, names, p)->Ok_0,
            names.len(),
        ),
{
    reveal(alpha_crown::climbed);
    lemma_looked_up(names, p, names.len());
    lemma_ascended(v, names, grads, p, names.len());
}

/// An ascent of some steps goes on where one of fewer steps ends.
pub proof fn lemma_climbs_on<S: Scalar>(
    loss: GraphV<S>,
    names: Seq<(Seq<char>, Seq<usize>)>,
    p: Map<Seq<char>, TensorV<S>>,
    n: nat,
    m: nat,
)
    ensures
        alpha_crown::climbed_often(loss, names, p, 1) == alpha_crown::climbed(loss, names, p),
        alpha_crown::climbed_often(loss, names, p, n + m) == (match alpha_crown::climbed_often(
            loss,
            names,
            p,
            n,
        ) {
            Ok(q) => alpha_crown::climbed_often(loss, names, q, m),
            Err(f) => Err(f),
        }),
    decreases n,
{
    reveal_with_fuel(alpha_crown::climbed_often, 2);
    if n > 0 {
        if let Ok(q) = alpha_crown::climbed(loss, names, p) {
            lemma_climbs_on(loss, names, q, (n - 1) as nat, m);
        }
    }
}

// ---- slopes and multipliers ----
/// Whether each activation has slopes and multipliers, and gradients that go with them.
pub open spec fn all_pairs_known<S>(
    names: Seq<(Seq<char>, Seq<usize>)>,
    grads: Seq<TensorV<S>>,
    p: PairV<S>,
) -> bool {
    &&& grads.len() == 2 * names.len()
    &&& forall|i: int|
        0 <= i < names.len() ==> {
            let n = (#[trigger] names[i]).0;
            &&& p.alphas.dom().contains(n)
            &&& p.betas.dom().contains(n)
            &&& goes_with(p.alphas[n], grads[2 * i])
            &&& goes_with(p.betas[n], grads[2 * i + 1])
        }
}

/// Whether the parameters of the first `k` activations have moved along their gradients, and all
/// else stayed.
pub open spec fn each_pair_climbs<S: Scalar>(
    v: spec_fn(S) -> real,
    names: Seq<(Seq<char>, Seq<usize>)>,
    grads: Seq<TensorV<S>>,
    p: PairV<S>,
    q: PairV<S>,
    k: nat,
) -> bool {
    &&& q.alphas.dom() == p.alphas.dom()
    &&& q.betas.dom() == p.betas.dom()
    &&& forall|i: int|
        0 <= i < k ==> {
            let n = (#[trigger] names[i]).0;
            &&& tightness::climbs(v, p.alphas[n], grads[2 * i], q.alphas[n], Some(100real))
            &&& tightness::climbs(v, p.betas[n], grads[2 * i + 1], q.betas[n], None)
        }
    &&& forall|n: Seq<char>|
        (forall|i: int| 0 <= i < k ==> (#[trigger] names[i]).0 != n) ==> #[trigger] q.alphas[n]
            == p.alphas[n]
    &&& forall|n: Seq<char>|
        (forall|i: int| 0 <= i < k ==> (#[trigger] names[i]).0 != n) ==> #[trigger] q.betas[n]
            == p.betas[n]
}

/// Slopes and multipliers that move together.
#[verifier::spinoff_prover]
#[verifier::rlimit(30)]
proof fn lemma_pair_ascended<S: Scalar>(
    v: spec_fn(S) -> real,
    names: Seq<(Seq<char>, Seq<usize>)>,
    grads: Seq<TensorV<S>>,
    p: PairV<S>,
    k: nat,
)
    requires
        exact::exact(v),
        own_names(names),
        all_pairs_known(names, grads, p),
        k <= names.len(),
    ensures
        beta_crown::pair_ascended(names, grads, p, k) is Ok,
        each_pair_climbs(v, names, grads, p, beta_crown::pair_ascended(names, grads, p, k)->Ok_0, k),
    decreases k,
{
    if k > 0 {
        lemma_pair_ascended(v, names, grads, p, (k - 1) as nat);
        let before = beta_crown::pair_ascended(names, grads, p, (k - 1) as nat)->Ok_0;
        let name = names[k - 1].0;
        assert forall|i: int| 0 <= i < k - 1 implies (#[trigger] names[i]).0 != name by {
            assert(names[i].0 != names[k - 1].0);
        }
        assert(before.alphas[name] == p.alphas[name]);
        assert(before.betas[name] == p.betas[name]);
        assert(goes_with(p.alphas[names[k - 1].0], grads[2 * (k - 1)]));
        tightness::lemma_slopes_climb(v, p.alphas[name], grads[2 * (k - 1)]);
        tightness::lemma_multipliers_climb(v, p.betas[name], grads[2 * (k - 1) + 1]);
        let q = beta_crown::pair_ascended(names, grads, p, k)->Ok_0;
        assert(q.alphas.dom() =~= p.alphas.dom());
        assert(q.betas.dom() =~= p.betas.dom());
        assert forall|n: Seq<char>|
            (forall|i: int| 0 <= i < k ==> (#[trigger] names[i]).0 != n) implies #[trigger] q.alphas[n]
            == p.alphas[n] by {
            assert(names[k - 1].0 != n);
        }
        assert forall|n: Seq<char>|
            (forall|i: int| 0 <= i < k ==> (#[trigger] names[i]).0 != n) implies #[trigger] q.betas[n]
            == p.betas[n] by {
            assert(names[k - 1].0 != n);
        }
    }
}

/// The slopes and the multipliers of activations, in turn.
pub open spec fn in_turn<S>(names: Seq<(Seq<char>, Seq<usize>)>, p: PairV<S>, k: nat) -> Seq<
    TensorV<S>,
> {
    Seq::new(
        2 * k,
        |i: int|
            if i % 2 == 0 {
                p.alphas[names[i / 2].0]
            } else {
                p.betas[names[i / 2].0]
            },
    )
}

/// The values of slopes and multipliers, in turn.
proof fn lemma_in_turn<S>(names: Seq<(Seq<char>, Seq<usize>)>, p: PairV<S>, k: nat)
    requires
        k <= names.len(),
        forall|i: int|
            0 <= i < names.len() ==> p.alphas.dom().contains((#[trigger] names[i]).0)
                && p.betas.dom().contains(names[i].0),
    ensures
        beta_crown::paired(names, p, k) == Ok::<Seq<TensorV<S>>, Fault>(in_turn(names, p, k)),
    decreases k,
{
    if k > 0 {
        lemma_in_turn(names, p, (k - 1) as nat);
        let n = names[k - 1].0;
        assert(p.alphas.dom().contains(names[k - 1].0));
        assert(in_turn(names, p, (k - 1) as nat).push(p.alphas[n]).push(p.betas[n]) =~= in_turn(
            names,
            p,
            k,
        ));
    } else {
        assert(in_turn(names, p, 0) =~= Seq::empty());
    }
}

/// One step of the ascent of slopes and multipliers: each moves by a hundredth of its own gradient
/// of the loss at the parameters before the step, and stays in its range.
pub proof fn lemma_each_pair_climbs<S: Scalar>(
    v: spec_fn(S) -> real,
    loss: GraphV<S>,
    names: Seq<(Seq<char>, Seq<usize>)>,
    p: PairV<S>,
    grads: Seq<TensorV<S>>,
)
    requires
        exact::exact(v),
        own_names(names),
        grad::loss_gradients(loss, in_turn(names, p, names.len()), None) == Ok::<
            Seq<TensorV<S>>,
            Fault,
        >(grads),
        all_pairs_known(names, grads, p),
    ensures
        beta_crown::pair_climbed(loss, names, p) is Ok,
        each_pair_climbs(
            v,
            names,
            grads,
            p,
            beta_crown::pair_climbed(loss, names, p)->Ok_0,
            names.len(),
        ),
{
    reveal(beta_crown::pair_climbed);
    lemma_in_turn(names, p, names.len());
    lemma_pair_ascended(v, names, grads, p, names.len());
}

/// An ascent of some steps goes on where one of fewer steps ends.
pub proof fn lemma_pairs_climb_on<S: Scalar>(
    loss: GraphV<S>,
    names: Seq<(Seq<char>, Seq<usize>)>,
    p: PairV<S>,
    n: nat,
    m: nat,
)
    ensures
        beta_crown::pair_climbed_often(loss, names, p, 1) == beta_crown::pair_climbed(
            loss,
            names,
            p,
        ),
        beta_crown::pair_climbed_often(loss, names, p, n + m) == (
        match beta_crown::pair_climbed_often(loss, names, p, n) {
            Ok(q) => beta_crown::pair_climbed_often(loss, names, q, m),
            Err(f) => Err(f),
        }),
    decreases n,
{
    reveal_with_fuel(beta_crown::pair_climbed_often, 2);
    if n > 0 {
        if let Ok(q) = beta_crown::pair_climbed(loss, names, p) {
            lemma_pairs_climb_on(loss, names, q, (n - 1) as nat, m);
        }
    }
}

} // verus!
