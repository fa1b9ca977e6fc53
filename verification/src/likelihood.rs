//! What the softmax is, and the gradient of the loss that is built on it, in exact arithmetic.

use vstd::prelude::*;
use crate::exact;
use crate::grad;
use crate::manipulate;
use crate::model;
use crate::model::TensorV;
use crate::pairing;
use crate::reals;
use crate::scalar;
use crate::scalar::Scalar;
use crate::sums;

verus! {

/// Whether the elements of `p` on a line along axis 1 are positive and sum up to one, in proportion
/// to the exponentials of those of `t`, all less one number.
pub open spec fn shares<S: Scalar>(
    v: spec_fn(S) -> real,
    t: TensorV<S>,
    p: TensorV<S>,
    q: int,
) -> bool {
    exists|m: S| #[trigger] shares_less(v, t, p, q, m)
}

/// The same, for the number `m`.
pub open spec fn shares_less<S: Scalar>(
    v: spec_fn(S) -> real,
    t: TensorV<S>,
    p: TensorV<S>,
    q: int,
    m: S,
) -> bool {
    let a = t.shape[1] as int;
    let inner = model::inner_size(t.shape, 1) as int;
    let z = sums::sum(
        |i: int| v(t.data[reals::on_line(a, inner, q, i)].minus(m).exponential()),
        a as nat,
    );
    &&& z > 0real
    &&& forall|i: int|
        0 <= i < a ==> v(#[trigger] p.data[reals::on_line(a, inner, q, i)]) * z == v(
            t.data[reals::on_line(a, inner, q, i)].minus(m).exponential(),
        )
    &&& sums::sum(|i: int| v(p.data[reals::on_line(a, inner, q, i)]), a as nat) == 1real
}

/// A sum of positive numbers.
proof fn lemma_sum_positive(f: spec_fn(int) -> real, n: nat)
    requires
        n > 0,
        forall|i: int| 0 <= i < n ==> #[trigger] f(i) > 0real,
    ensures
        sums::sum(f, n) > 0real,
    decreases n,
{
    if n > 1 {
        lemma_sum_positive(f, (n - 1) as nat);
    } else {
        assert(sums::sum(f, 0) == 0real);
    }
    assert(f(n - 1) > 0real);
}

/// The softmax on each line along axis 1.
pub proof fn lemma_softmax_shares<S: Scalar>(v: spec_fn(S) -> real, t: TensorV<S>, q: int)
    requires
        exact::exact(v),
        t.shape.len() >= 2,
        reals::full(t),
        t.shape[1] > 0,
        0 <= q < model::outer_size(t.shape, 1) * model::inner_size(t.shape, 1),
    ensures
        grad::softmax(t).shape == t.shape,
        shares(v, t, grad::softmax(t), q),
{
    let a = t.shape[1] as int;
    let inner = model::inner_size(t.shape, 1) as int;
    let outer = model::outer_size(t.shape, 1) as int;
    manipulate::lemma_remove(t.shape, 1);
    let p = grad::softmax(t);
    let e = grad::line_exp(t);
    let m = grad::line_max(t.data, a, inner, q, a as nat);
    let f = |i: int| v(t.data[reals::on_line(a, inner, q, i)].minus(m).exponential());
    let g = |i: int| v(e.data[reals::on_line(a, inner, q, i)]);
    let h = |i: int| v(p.data[reals::on_line(a, inner, q, i)]);
    let whole = model::line_sum(e.data, a, inner, q, a as nat);
    assert forall|i: int| 0 <= i < a implies #[trigger] g(i) == f(i) && h(i) == v(
        e.data[reals::on_line(a, inner, q, i)].over(whole),
    ) by {
        reals::lemma_on_line(outer, a, inner, q, i);
        manipulate::lemma_row(q, outer, inner);
        let r = reals::on_line(a, inner, q, i);
        assert((r / inner / a) * inner + r % inner == q);
    }
    sums::lemma_sum_same(g, f, a as nat);
    reals::lemma_line_sum(v, e.data, a, inner, q, a as nat);
    let z = sums::sum(f, a as nat);
    assert(v(whole) == z);
    lemma_sum_positive(f, a as nat);
    assert forall|i: int| 0 <= i < a implies #[trigger] f(i) == z * h(i) by {
        assert(g(i) == f(i));
        exact::lemma_units(z, h(i));
    }
    sums::lemma_sum_scale(z, h, f, a as nat);
    let total = sums::sum(h, a as nat);
    exact::lemma_units(z, total);
    if total < 1real {
        exact::lemma_cancel(z, 1real, total);
    } else if total > 1real {
        exact::lemma_cancel(z, total, 1real);
    }
    assert forall|i: int| 0 <= i < a implies v(
        #[trigger] p.data[reals::on_line(a, inner, q, i)],
    ) * z == v(t.data[reals::on_line(a, inner, q, i)].minus(m).exponential()) by {
        assert(f(i) == z * h(i));
        exact::lemma_units(z, h(i));
    }
    assert(shares_less(v, t, p, q, m));
}

/// The gradient of the loss for labels of the shape of the logits: as many times as there are
/// samples, it is what the softmax exceeds the labels by.
pub proof fn lemma_excess<S: Scalar>(
    v: spec_fn(S) -> real,
    logits: TensorV<S>,
    labels: TensorV<S>,
    k: int,
)
    requires
        exact::exact(v),
        logits.shape.len() >= 2,
        logits.shape[0] > 0,
        logits.wf(),
        logits.shape.len() <= isize::MAX,
        labels.shape == logits.shape,
        0 <= k < logits.data.len(),
    ensures
        ({
            let r = grad::xent_grad(logits, labels);
            &&& r is Ok
            &&& r->Ok_0.shape == logits.shape
            &&& r->Ok_0.data.len() == logits.data.len()
            &&& v(r->Ok_0.data[k]) * (logits.shape[0] as real) == v(
                grad::softmax(logits).data[k],
            ) - v(labels.data[k])
        }),
{
    pairing::lemma_same_shape(logits.shape);
    pairing::lemma_same_index(k, logits.shape);
    let n = logits.shape[0] as int;
    assert(v(S::ratio(n, 1)) * (1int as real) == n as real);
    exact::lemma_units(v(S::ratio(n, 1)), 0real);
    assert(v(scalar::num::<S>(n)) == n as real);
}

} // verus!
