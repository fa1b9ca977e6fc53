//! How tight the bounds are that relaxations start from and move to, in exact arithmetic.

use vstd::prelude::*;
use crate::alpha_crown;
use crate::beta_crown;
use crate::beta_crown::PairV;
use crate::crown;
use crate::eval;
use crate::exact;
use crate::interval::{IBPTensor, IBPV};
use crate::model;
use crate::model::TensorV;
use crate::nn;
use crate::nn::{AtomV, EqnV, PrimV};
use crate::pairing;
use crate::reals;
use crate::scalar::Scalar;
use crate::support;

verus! {

// ---- the slopes that lines below a rectifier start from ----
/// Twice the area between a rectifier and the line of slope `r` through zero, from `l` to `u`.
pub open spec fn area_below(r: real, l: real, u: real) -> real {
    (1real - r) * (u * u) + r * (l * l)
}

/// Whether a slope is the one that a line below a rectifier on an interval starts from: that of
/// the line with the least area below the rectifier, zero if both have the same.
pub open spec fn starts_at(s: real, l: real, u: real) -> bool {
    &&& s == (if u <= -l {
        0real
    } else {
        1real
    })
    &&& l <= 0real <= u ==> forall|r: real|
        0real <= r <= 1real ==> area_below(s, l, u) <= #[trigger] area_below(r, l, u)
}

/// Whether the slopes of an activation are the ones that the lines below it start from.
pub open spec fn slopes_start<S: Scalar>(
    v: spec_fn(S) -> real,
    t: TensorV<S>,
    x: IBPV<S>,
) -> bool {
    &&& t.shape == x.lb.shape
    &&& t.data.len() == x.lb.data.len()
    &&& forall|k: int|
        0 <= k < t.data.len() ==> starts_at(
            v(#[trigger] t.data[k]),
            v(x.lb.data[k]),
            v(x.ub.data[k]),
        )
}

/// The line with the smaller area is the tighter one.
proof fn lemma_least_area(s: real, l: real, u: real, r: real)
    requires
        l <= 0real <= u,
        0real <= r <= 1real,
        s == (if u <= -l {
            0real
        } else {
            1real
        }),
    ensures
        area_below(s, l, u) <= area_below(r, l, u),
{
    let (p, q) = (u * u, l * l);
    if u <= -l {
        assert(p <= q) by (nonlinear_arith)
            requires
                0real <= u <= -l,
                p == u * u,
                q == l * l,
        ;
        assert((1real - 0real) * p + 0real * q <= (1real - r) * p + r * q) by (nonlinear_arith)
            requires
                p <= q,
                0real <= r,
        ;
    } else {
        assert(q <= p) by (nonlinear_arith)
            requires
                0real <= -l < u,
                p == u * u,
                q == l * l,
        ;
        assert((1real - 1real) * p + 1real * q <= (1real - r) * p + r * q) by (nonlinear_arith)
            requires
                q <= p,
                r <= 1real,
        ;
    }
}

/// The slopes that the lines below an activation start from are zero where the interval reaches at
/// least as far below zero as above, and one elsewhere. On an interval that holds zero, no line
/// through zero below the rectifier leaves less area.
pub proof fn lemma_first_slopes_tight<S: Scalar>(v: spec_fn(S) -> real, x: IBPV<S>)
    requires
        exact::exact(v),
    ensures
        slopes_start(v, alpha_crown::first_slopes(x), x),
{
    exact::lemma_numbers(v);
    let t = alpha_crown::first_slopes(x);
    assert forall|k: int| 0 <= k < t.data.len() implies starts_at(
        v(#[trigger] t.data[k]),
        v(x.lb.data[k]),
        v(x.ub.data[k]),
    ) by {
        let (s, l, u) = (v(t.data[k]), v(x.lb.data[k]), v(x.ub.data[k]));
        if l <= 0real <= u {
            assert forall|r: real| 0real <= r <= 1real implies area_below(s, l, u)
                <= #[trigger] area_below(r, l, u) by {
                lemma_least_area(s, l, u, r);
            }
        }
    }
}

/// Whether the slopes of the activation of equation `j` are the ones that its lines start from, for
/// the bounds of its operand.
pub open spec fn starts_tight<S: Scalar>(
    v: spec_fn(S) -> real,
    eqns: Seq<EqnV<S>>,
    e: Map<Seq<char>, IBPV<S>>,
    params: Map<Seq<char>, TensorV<S>>,
    j: int,
) -> bool {
    nn::is_activation(eqns[j].prim) ==> (eqns[j].prim matches PrimV::Un(_, a) ==> (crown::bounds_of(
        e,
        a,
    ) matches Ok(x) ==> params.dom().contains(eqns[j].out.name) && slopes_start(
        v,
        params[eqns[j].out.name],
        x,
    )))
}

/// An equation that binds another variable changes no bounds of an operand.
proof fn lemma_other_bound<S: Scalar>(
    e: Map<Seq<char>, IBPV<S>>,
    a: AtomV<S>,
    name: Seq<char>,
    y: IBPV<S>,
)
    requires
        a.value is Some || a.name != name,
    ensures
        crown::bounds_of(e.insert(name, y), a) == crown::bounds_of(e, a),
{
}

/// Whether the operands of every equation are constants or variables before its result.
pub open spec fn operands_known<S>(input: Seq<char>, eqns: Seq<EqnV<S>>) -> bool {
    forall|j: int, k: int|
        0 <= j < eqns.len() && 0 <= k < nn::operands_of(eqns[j].prim).len() ==> support::in_scope(
            input,
            eqns,
            #[trigger] nn::operands_of(eqns[j].prim)[k],
            j,
        )
}

/// The operand of an equation is not the result of that equation or a later one.
proof fn lemma_operand_earlier<S>(input: Seq<char>, eqns: Seq<EqnV<S>>, j: int, m: int)
    requires
        support::distinct(input, eqns),
        operands_known(input, eqns),
        0 <= j <= m < eqns.len(),
    ensures
        eqns[j].prim matches PrimV::Un(_, a) ==> a.value is Some || a.name != eqns[m].out.name,
{
    if let PrimV::Un(_, a) = eqns[j].prim {
        assert(nn::operands_of(eqns[j].prim)[0] == a);
        assert(support::in_scope(input, eqns, a, j));
        if a.value is None {
            let k = choose|k: int|
                0 <= k <= j && #[trigger] support::variable(input, eqns, k) == a.name;
            assert(support::variable(input, eqns, k) != support::variable(input, eqns, m + 1));
        }
    }
}

/// One more equation keeps the slopes of the activations before it.
proof fn lemma_slopes_kept<S: Scalar>(
    v: spec_fn(S) -> real,
    input: Seq<char>,
    eqns: Seq<EqnV<S>>,
    e: Map<Seq<char>, IBPV<S>>,
    params: Map<Seq<char>, TensorV<S>>,
    j: int,
    m: int,
    y: IBPV<S>,
    t: TensorV<S>,
)
    requires
        support::distinct(input, eqns),
        operands_known(input, eqns),
        0 <= j < m < eqns.len(),
        starts_tight(v, eqns, e, params, j),
    ensures
        starts_tight(v, eqns, e.insert(eqns[m].out.name, y), params, j),
        starts_tight(
            v,
            eqns,
            e.insert(eqns[m].out.name, y),
            params.insert(eqns[m].out.name, t),
            j,
        ),
{
    lemma_operand_earlier(input, eqns, j, m);
    assert(support::variable(input, eqns, j + 1) != support::variable(input, eqns, m + 1));
    if let PrimV::Un(_, a) = eqns[j].prim {
        lemma_other_bound(e, a, eqns[m].out.name, y);
    }
}

/// The slopes that the preparation gives, equation by equation.
proof fn lemma_prepared_tight<S: Scalar>(
    v: spec_fn(S) -> real,
    input: Seq<char>,
    eqns: Seq<EqnV<S>>,
    e: Map<Seq<char>, IBPV<S>>,
    params: Map<Seq<char>, TensorV<S>>,
    i: nat,
)
    requires
        exact::exact(v),
        support::distinct(input, eqns),
        operands_known(input, eqns),
        i <= eqns.len(),
        forall|j: int| 0 <= j < i ==> #[trigger] starts_tight(v, eqns, e, params, j),
    ensures
        alpha_crown::prepared(eqns, e, params, i) matches Ok((b, p)) ==> forall|j: int|
            0 <= j < eqns.len() ==> #[trigger] starts_tight(v, eqns, b, p, j),
    decreases eqns.len() - i,
{
    let r = alpha_crown::prepared(eqns, e, params, i);
    if i < eqns.len() && r is Ok {
        let m = i as int;
        let (prim, name) = (eqns[m].prim, eqns[m].out.name);
        let y = eval::prim_value::<S, IBPTensor<S>>((), e, prim).1->Ok_0;
        let e2 = e.insert(name, y);
        let next = if nn::is_activation(prim) {
            params.insert(name, alpha_crown::first_slopes(crown::bounds_of(e2, prim->Un_1)->Ok_0))
        } else {
            params
        };
        assert(r == alpha_crown::prepared(eqns, e2, next, i + 1));
        assert forall|j: int| 0 <= j < i + 1 implies #[trigger] starts_tight(
            v,
            eqns,
            e2,
            next,
            j,
        ) by {
            if j < m {
                assert(starts_tight(v, eqns, e, params, j));
                let t = alpha_crown::first_slopes(crown::bounds_of(e2, prim->Un_1)->Ok_0);
                lemma_slopes_kept(v, input, eqns, e, params, j, m, y, t);
            } else if nn::is_activation(prim) {
                lemma_first_slopes_tight(v, crown::bounds_of(e2, prim->Un_1)->Ok_0);
            }
        }
        lemma_prepared_tight(v, input, eqns, e2, next, i + 1);
    }
}

/// The slopes that optimization starts from: for every activation of a graph whose equations come
/// in order, those that leave the least area below it on the bounds of its operand.
pub proof fn lemma_slopes_prepared<S: Scalar>(
    v: spec_fn(S) -> real,
    input: Seq<char>,
    eqns: Seq<EqnV<S>>,
    e: Map<Seq<char>, IBPV<S>>,
)
    requires
        exact::exact(v),
        support::distinct(input, eqns),
        operands_known(input, eqns),
    ensures
        alpha_crown::prepared(eqns, e, Map::empty(), 0) matches Ok((b, p)) ==> forall|j: int|
            0 <= j < eqns.len() ==> #[trigger] starts_tight(v, eqns, b, p, j),
{
    lemma_prepared_tight(v, input, eqns, e, Map::empty(), 0);
}

/// Whether parameters that were not given start where they should: slopes at the tightest, and
/// multipliers at zero.
pub open spec fn pair_starts<S: Scalar>(
    v: spec_fn(S) -> real,
    eqns: Seq<EqnV<S>>,
    e: Map<Seq<char>, IBPV<S>>,
    q: PairV<S>,
    j: int,
) -> bool {
    nn::is_activation(eqns[j].prim) ==> (eqns[j].prim matches PrimV::Un(_, a) ==> {
        let name = eqns[j].out.name;
        crown::bounds_of(e, a) matches Ok(x) && q.alphas.dom().contains(name)
            && q.betas.dom().contains(name) && slopes_start(v, q.alphas[name], x)
            && q.betas[name].shape == x.lb.shape && forall|k: int|
            0 <= k < q.betas[name].data.len() ==> v(#[trigger] q.betas[name].data[k]) == 0real
    })
}

/// The names of the first `k` results.
pub open spec fn results<S>(eqns: Seq<EqnV<S>>, k: nat) -> Set<Seq<char>> {
    Set::new(|x: Seq<char>| exists|j: int| 0 <= j < k && (#[trigger] eqns[j]).out.name == x)
}

/// The first `k` activations.
proof fn lemma_seeded_tight<S: Scalar>(
    v: spec_fn(S) -> real,
    input: Seq<char>,
    eqns: Seq<EqnV<S>>,
    e: Map<Seq<char>, IBPV<S>>,
    k: nat,
)
    requires
        exact::exact(v),
        support::distinct(input, eqns),
        k <= eqns.len(),
    ensures
        beta_crown::seeded(
            eqns,
            e,
            PairV { alphas: Map::empty(), betas: Map::empty() },
            k,
        ) matches Ok(q) ==> {
            &&& forall|j: int| 0 <= j < k ==> #[trigger] pair_starts(v, eqns, e, q, j)
            &&& forall|x: Seq<char>| #[trigger]
                q.alphas.dom().contains(x) ==> results(eqns, k).contains(x)
            &&& forall|x: Seq<char>| #[trigger]
                q.betas.dom().contains(x) ==> results(eqns, k).contains(x)
        },
    decreases k,
{
    let none = PairV::<S> { alphas: Map::empty(), betas: Map::empty() };
    exact::lemma_numbers(v);
    if k > 0 {
        let m = k - 1;
        lemma_seeded_tight(v, input, eqns, e, m as nat);
        let before = beta_crown::seeded(eqns, e, none, m as nat);
        let after = beta_crown::seeded(eqns, e, none, k);
        if after is Ok {
            let (p, q) = (before->Ok_0, after->Ok_0);
            let name = eqns[m].out.name;
            assert(!p.alphas.dom().contains(name) && !p.betas.dom().contains(name)) by {
                if p.alphas.dom().contains(name) || p.betas.dom().contains(name) {
                    let j = choose|j: int| 0 <= j < m && (#[trigger] eqns[j]).out.name == name;
                    assert(support::variable(input, eqns, j + 1) != support::variable(
                        input,
                        eqns,
                        m + 1,
                    ));
                }
            }
            if let PrimV::Un(_, a) = eqns[m].prim {
                if nn::is_activation(eqns[m].prim) {
                    lemma_first_slopes_tight(v, crown::bounds_of(e, a)->Ok_0);
                }
            }
            assert forall|j: int| 0 <= j < k implies #[trigger] pair_starts(v, eqns, e, q, j) by {
                if j < m {
                    assert(pair_starts(v, eqns, e, p, j));
                    assert(support::variable(input, eqns, j + 1) != support::variable(
                        input,
                        eqns,
                        m + 1,
                    ));
                }
            }
            assert(results(eqns, k).contains(name)) by {
                assert(eqns[m].out.name == name);
            }
            assert forall|x: Seq<char>| results(eqns, m as nat).contains(
                x,
            ) implies #[trigger] results(eqns, k).contains(x) by {
                let j = choose|j: int| 0 <= j < m && (#[trigger] eqns[j]).out.name == x;
                assert(eqns[j].out.name == x);
            }
        }
    }
}

/// The parameters that a bound under constraints starts from, where none are given: for every
/// activation the slopes of least area, and multipliers of zero.
pub proof fn lemma_pair_starts<S: Scalar>(
    v: spec_fn(S) -> real,
    input: Seq<char>,
    eqns: Seq<EqnV<S>>,
    e: Map<Seq<char>, IBPV<S>>,
)
    requires
        exact::exact(v),
        support::distinct(input, eqns),
    ensures
        beta_crown::seeded(
            eqns,
            e,
            PairV { alphas: Map::empty(), betas: Map::empty() },
            eqns.len(),
        ) matches Ok(q) ==> forall|j: int|
            0 <= j < eqns.len() ==> #[trigger] pair_starts(v, eqns, e, q, j),
{
    lemma_seeded_tight(v, input, eqns, e, eqns.len());
}

// ---- steps along the gradient ----
/// The point of an interval from zero to `top`, or from zero on, that is nearest to `x`.
pub open spec fn nearest(x: real, top: Option<real>) -> real {
    if x < 0real {
        0real
    } else {
        match top {
            Some(t) => if t < x {
                t
            } else {
                x
            },
            None => x,
        }
    }
}

/// Whether parameters have moved by a hundredth of their gradient, and back into the range from
/// zero to a hundredth of `top`.
pub open spec fn climbs<S: Scalar>(
    v: spec_fn(S) -> real,
    p: TensorV<S>,
    g: TensorV<S>,
    q: TensorV<S>,
    top: Option<real>,
) -> bool {
    &&& q.shape == p.shape
    &&& q.data.len() == p.data.len()
    &&& forall|k: int|
        0 <= k < p.data.len() ==> 100real * v(#[trigger] q.data[k]) == nearest(
            100real * v(p.data[k]) + v(g.data[k]),
            top,
        )
}

/// A parameter that moves along its gradient.
proof fn lemma_nudged<S: Scalar>(v: spec_fn(S) -> real, p: TensorV<S>, g: TensorV<S>)
    requires
        exact::exact(v),
        p.wf(),
        reals::full(g),
        g.shape == p.shape,
    ensures
        alpha_crown::nudged(p, g) matches Ok(t) && t.shape == p.shape && t.data.len()
            == p.data.len() && forall|k: int|
            0 <= k < p.data.len() ==> 100real * (v(#[trigger] t.data[k]) - v(p.data[k])) == v(
                g.data[k],
            ),
{
    let rate = S::ratio(1, 100);
    assert(v(rate) * (100int as real) == 1int as real);
    let scaled = model::mapped(g, |x: S| x.times(S::ratio(1, 100)));
    pairing::lemma_same_shape(p.shape);
    let t = alpha_crown::nudged(p, g)->Ok_0;
    pairing::lemma_add_same(v, p, scaled, t);
    assert forall|k: int| 0 <= k < p.data.len() implies 100real * (v(#[trigger] t.data[k]) - v(
        p.data[k],
    )) == v(g.data[k]) by {
        let (a, r) = (v(g.data[k]), v(rate));
        assert(v(scaled.data[k]) == a * r);
        assert(100real * (a * r) == a) by (nonlinear_arith)
            requires
                r * 100real == 1real,
        ;
    }
}

/// A slope moves by a hundredth of its gradient, upwards where that is positive, and stays between
/// zero and one.
pub proof fn lemma_slopes_climb<S: Scalar>(v: spec_fn(S) -> real, p: TensorV<S>, g: TensorV<S>)
    requires
        exact::exact(v),
        p.wf(),
        reals::full(g),
        g.shape == p.shape,
    ensures
        alpha_crown::next_alpha(p, g) matches Ok(q) && climbs(v, p, g, q, Some(100real)),
{
    exact::lemma_numbers(v);
    lemma_nudged(v, p, g);
    let t = alpha_crown::nudged(p, g)->Ok_0;
    let q = alpha_crown::next_alpha(p, g)->Ok_0;
    assert forall|k: int| 0 <= k < p.data.len() implies 100real * v(#[trigger] q.data[k])
        == nearest(100real * v(p.data[k]) + v(g.data[k]), Some(100real)) by {
        assert(100real * (v(t.data[k]) - v(p.data[k])) == v(g.data[k]));
    }
}

/// A multiplier moves by a hundredth of its gradient, upwards where that is positive, and stays
/// at zero or more.
pub proof fn lemma_multipliers_climb<S: Scalar>(
    v: spec_fn(S) -> real,
    p: TensorV<S>,
    g: TensorV<S>,
)
    requires
        exact::exact(v),
        p.wf(),
        reals::full(g),
        g.shape == p.shape,
    ensures
        beta_crown::next_beta(p, g) matches Ok(q) && climbs(v, p, g, q, None),
{
    exact::lemma_numbers(v);
    lemma_nudged(v, p, g);
    let t = alpha_crown::nudged(p, g)->Ok_0;
    let q = beta_crown::next_beta(p, g)->Ok_0;
    assert forall|k: int| 0 <= k < p.data.len() implies 100real * v(#[trigger] q.data[k])
        == nearest(100real * v(p.data[k]) + v(g.data[k]), None) by {
        assert(100real * (v(t.data[k]) - v(p.data[k])) == v(g.data[k]));
    }
}

} // verus!
