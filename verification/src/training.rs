//! What training does with samples: every batch meets the labels of its own samples, batches come
//! one after the other, and a step of the optimiser moves each parameter against its gradient.

use vstd::prelude::*;
use crate::exact;
use crate::manipulate;
use crate::mlp::LayerV;
use crate::model::{Fault, TensorV};
use crate::scalar;
use crate::scalar::Scalar;
use crate::shape;
use crate::train;
use crate::train::{AdamV, MomentV};

verus! {

// ---- batches ----
/// What training leads to: layers and the state of the optimiser, or a failure.
pub type Outcome<S> = Result<(Seq<LayerV<S>>, AdamV<S>), Fault>;

/// Whether row `i` of one matrix is row `j` of another.
pub open spec fn same_row<S>(a: TensorV<S>, i: int, b: TensorV<S>, j: int) -> bool {
    &&& a.shape.len() == 2
    &&& b.shape.len() == 2
    &&& a.shape[1] == b.shape[1]
    &&& forall|c: int|
        #![trigger a.data[i * a.shape[1] + c]]
        #![trigger b.data[j * b.shape[1] + c]]
        0 <= c < a.shape[1] ==> a.data[i * a.shape[1] + c] == b.data[j * b.shape[1] + c]
}

/// Whether the rows of two matrices that two lists name from some places on are the same.
pub open spec fn same_rows<S>(
    a: TensorV<S>,
    idx: Seq<usize>,
    p: int,
    b: TensorV<S>,
    jdx: Seq<usize>,
    q: int,
    count: int,
) -> bool {
    &&& a.shape.len() == 2
    &&& b.shape.len() == 2
    &&& a.shape[1] == b.shape[1]
    &&& forall|r: int|
        0 <= r < count ==> same_row(a, (#[trigger] idx[p + r]) as int, b, jdx[q + r] as int)
}

/// Batches of the same rows are the same.
proof fn lemma_same_batch<S>(
    a: TensorV<S>,
    idx: Seq<usize>,
    p: int,
    b: TensorV<S>,
    jdx: Seq<usize>,
    q: int,
    count: usize,
)
    requires
        same_rows(a, idx, p, b, jdx, q, count as int),
    ensures
        train::rows(a, idx, p, count) == train::rows(b, jdx, q, count),
{
    let (x, y) = (train::rows(a, idx, p, count), train::rows(b, jdx, q, count));
    let cols = a.shape[1] as int;
    assert forall|k: int| 0 <= k < x.data.len() implies x.data[k] == y.data[k] by {
        manipulate::lemma_row(k, count as int, cols);
        let (r, c) = (k / cols, k % cols);
        assert(same_row(a, idx[p + r] as int, b, jdx[q + r] as int));
        assert(a.data[idx[p + r] * a.shape[1] + c] == b.data[jdx[q + r] * b.shape[1] + c]);
    }
    assert(x.data =~= y.data);
    assert(x.shape =~= y.shape);
}

/// Training from some places on is the same where the rows of samples and labels are.
proof fn lemma_same_batches<S: Scalar>(
    layers: Seq<LayerV<S>>,
    state: AdamV<S>,
    data: TensorV<S>,
    labels: TensorV<S>,
    idx: Seq<usize>,
    p: nat,
    data2: TensorV<S>,
    labels2: TensorV<S>,
    jdx: Seq<usize>,
    q: nat,
    batch: usize,
    lr: S,
)
    requires
        p <= idx.len(),
        q <= jdx.len(),
        idx.len() - p == jdx.len() - q,
        same_rows(data, idx, p as int, data2, jdx, q as int, idx.len() - p),
        same_rows(labels, idx, p as int, labels2, jdx, q as int, idx.len() - p),
    ensures
        train::after_batches(layers, state, data, labels, idx, batch, lr, p)
            == train::after_batches(layers, state, data2, labels2, jdx, batch, lr, q),
    decreases idx.len() - p,
{
    if batch > 0 && p + batch <= idx.len() {
        lemma_same_batch(data, idx, p as int, data2, jdx, q as int, batch);
        lemma_same_batch(labels, idx, p as int, labels2, jdx, q as int, batch);
        let (x, y) = (
            train::rows(data, idx, p as int, batch),
            train::rows(labels, idx, p as int, batch),
        );
        let next = train::after_batch(layers, state, x, y, batch, data.shape[1], lr);
        if next is Ok {
            let (pp, qq) = ((p + batch) as nat, (q + batch) as nat);
            assert forall|r: int| 0 <= r < idx.len() - pp implies same_row(
                data,
                (#[trigger] idx[pp + r]) as int,
                data2,
                jdx[qq + r] as int,
            ) by {
                assert(idx[p + (batch + r)] == idx[pp + r]);
                assert(jdx[q + (batch + r)] == jdx[qq + r]);
            }
            assert forall|r: int| 0 <= r < idx.len() - pp implies same_row(
                labels,
                (#[trigger] idx[pp + r]) as int,
                labels2,
                jdx[qq + r] as int,
            ) by {
                assert(idx[p + (batch + r)] == idx[pp + r]);
                assert(jdx[q + (batch + r)] == jdx[qq + r]);
            }
            lemma_same_batches(
                next->Ok_0.0,
                next->Ok_0.1,
                data,
                labels,
                idx,
                pp,
                data2,
                labels2,
                jdx,
                qq,
                batch,
                lr,
            );
        }
    }
}

/// Only the rows of the samples count, in the order in which they are listed: with samples and
/// labels renumbered alike, an epoch ends alike.
pub proof fn lemma_samples_renumbered<S: Scalar>(
    layers: Seq<LayerV<S>>,
    state: AdamV<S>,
    data: TensorV<S>,
    labels: TensorV<S>,
    idx: Seq<usize>,
    data2: TensorV<S>,
    labels2: TensorV<S>,
    jdx: Seq<usize>,
    batch: usize,
    lr: S,
)
    requires
        idx.len() == jdx.len(),
        same_rows(data, idx, 0, data2, jdx, 0, idx.len() as int),
        same_rows(labels, idx, 0, labels2, jdx, 0, idx.len() as int),
    ensures
        train::after_batches(layers, state, data, labels, idx, batch, lr, 0)
            == train::after_batches(layers, state, data2, labels2, jdx, batch, lr, 0),
{
    lemma_same_batches(layers, state, data, labels, idx, 0, data2, labels2, jdx, 0, batch, lr);
}

/// What follows some training.
pub open spec fn followed<S: Scalar>(
    first: Outcome<S>,
    data: TensorV<S>,
    labels: TensorV<S>,
    idx: Seq<usize>,
    batch: usize,
    lr: S,
) -> Outcome<S> {
    match first {
        Err(f) => Err(f),
        Ok((l, s)) => train::after_batches(l, s, data, labels, idx, batch, lr, 0),
    }
}

/// Training on a list of samples from some place on, with more samples behind them.
proof fn lemma_appended<S: Scalar>(
    layers: Seq<LayerV<S>>,
    state: AdamV<S>,
    data: TensorV<S>,
    labels: TensorV<S>,
    a: Seq<usize>,
    b: Seq<usize>,
    batch: usize,
    lr: S,
    p: nat,
    n: nat,
)
    requires
        batch > 0,
        data.shape.len() == 2,
        labels.shape.len() == 2,
        p <= a.len(),
        a.len() - p == n * batch,
    ensures
        train::after_batches(layers, state, data, labels, a + b, batch, lr, p) == followed(
            train::after_batches(layers, state, data, labels, a, batch, lr, p),
            data,
            labels,
            b,
            batch,
            lr,
        ),
    decreases n,
{
    let c = a + b;
    if n == 0 {
        assert(a.len() == p) by (nonlinear_arith)
            requires
                a.len() - p == n * batch,
                n == 0,
        ;
        assert forall|r: int| 0 <= r < b.len() implies c[p + r] == #[trigger] b[r] by {}
        lemma_same_batches(layers, state, data, labels, c, p, data, labels, b, 0, batch, lr);
    } else {
        let m = (n - 1) as nat;
        assert(n * batch == m * batch + batch) by (nonlinear_arith)
            requires
                n == m + 1,
        ;
        assert(0 <= m * batch) by (nonlinear_arith);
        assert forall|r: int| 0 <= r < batch implies (#[trigger] c[p + r]) == a[p + r] by {}
        lemma_same_batch(data, c, p as int, data, a, p as int, batch);
        lemma_same_batch(labels, c, p as int, labels, a, p as int, batch);
        let (x, y) = (
            train::rows(data, a, p as int, batch),
            train::rows(labels, a, p as int, batch),
        );
        let next = train::after_batch(layers, state, x, y, batch, data.shape[1], lr);
        if next is Ok {
            lemma_appended(
                next->Ok_0.0,
                next->Ok_0.1,
                data,
                labels,
                a,
                b,
                batch,
                lr,
                (p + batch) as nat,
                m,
            );
        }
    }
}

/// Batches come one after the other: an epoch over two lists of samples, of which the first fills
/// whole batches, is an epoch over the first list followed by one over the second. So no batch
/// sees a sample or a label of another.
pub proof fn lemma_epochs_in_turn<S: Scalar>(
    layers: Seq<LayerV<S>>,
    state: AdamV<S>,
    data: TensorV<S>,
    labels: TensorV<S>,
    a: Seq<usize>,
    b: Seq<usize>,
    batch: usize,
    lr: S,
)
    requires
        batch > 0,
        data.shape.len() == 2,
        labels.shape.len() == 2,
        a.len() % (batch as nat) == 0,
    ensures
        train::after_batches(layers, state, data, labels, a + b, batch, lr, 0) == followed(
            train::after_batches(layers, state, data, labels, a, batch, lr, 0),
            data,
            labels,
            b,
            batch,
            lr,
        ),
{
    let n = a.len() / (batch as nat);
    vstd::arithmetic::div_mod::lemma_fundamental_div_mod(a.len() as int, batch as int);
    assert(n * batch == batch * n) by (nonlinear_arith);
    lemma_appended(layers, state, data, labels, a, b, batch, lr, 0, n);
}

/// One batch: row `r` of what is trained on is the sample that `idx[r]` names, and row `r` of what
/// it is trained against is the label of that sample.
pub proof fn lemma_one_batch<S: Scalar>(
    layers: Seq<LayerV<S>>,
    state: AdamV<S>,
    data: TensorV<S>,
    labels: TensorV<S>,
    idx: Seq<usize>,
    x: TensorV<S>,
    y: TensorV<S>,
    lr: S,
)
    requires
        0 < idx.len() <= usize::MAX,
        data.shape.len() == 2,
        labels.shape.len() == 2,
        x.wf(),
        x.shape == seq![idx.len() as usize, data.shape[1]],
        y.wf(),
        y.shape == seq![idx.len() as usize, labels.shape[1]],
        forall|r: int|
            0 <= r < idx.len() ==> same_row(x, r, data, (#[trigger] idx[r]) as int) && same_row(
                y,
                r,
                labels,
                idx[r] as int,
            ),
    ensures
        train::after_batches(layers, state, data, labels, idx, idx.len() as usize, lr, 0)
            == train::after_batch(layers, state, x, y, idx.len() as usize, data.shape[1], lr),
{
    let batch = idx.len() as usize;
    lemma_gathered(data, idx, x);
    lemma_gathered(labels, idx, y);
    assert(seq![batch, data.shape[1]] =~= x.shape);
    assert(seq![batch, labels.shape[1]] =~= y.shape);
    let next = train::after_batch(layers, state, x, y, batch, data.shape[1], lr);
    if next is Ok {
        reveal_with_fuel(train::after_batches, 2);
    }
}

/// The rows that a whole list names.
proof fn lemma_gathered<S>(t: TensorV<S>, idx: Seq<usize>, x: TensorV<S>)
    requires
        0 < idx.len() <= usize::MAX,
        t.shape.len() == 2,
        x.wf(),
        x.shape == seq![idx.len() as usize, t.shape[1]],
        forall|r: int| 0 <= r < idx.len() ==> same_row(x, r, t, (#[trigger] idx[r]) as int),
    ensures
        train::rows(t, idx, 0, idx.len() as usize) == x,
{
    let batch = idx.len() as usize;
    let cols = t.shape[1] as int;
    let got = train::rows(t, idx, 0, batch);
    train::lemma_product2(x.shape);
    assert forall|k: int| 0 <= k < got.data.len() implies got.data[k] == x.data[k] by {
        manipulate::lemma_row(k, batch as int, cols);
        let (r, c) = (k / cols, k % cols);
        assert(idx[0 + r] == idx[r]);
        assert(same_row(x, r, t, idx[r] as int));
        assert(x.data[r * x.shape[1] + c] == t.data[idx[r] * t.shape[1] + c]);
        vstd::arithmetic::div_mod::lemma_fundamental_div_mod(k, cols);
        assert(r * cols + c == k) by (nonlinear_arith)
            requires
                k == cols * r + c,
        ;
    }
    assert(got.data =~= x.data);
    assert(got.shape =~= x.shape);
}

/// Samples that fill no batch change nothing.
pub proof fn lemma_left_over<S: Scalar>(
    layers: Seq<LayerV<S>>,
    state: AdamV<S>,
    data: TensorV<S>,
    labels: TensorV<S>,
    idx: Seq<usize>,
    batch: usize,
    lr: S,
)
    requires
        idx.len() < batch,
    ensures
        train::after_batches(layers, state, data, labels, idx, batch, lr, 0) == Ok::<
            (Seq<LayerV<S>>, AdamV<S>),
            Fault,
        >((layers, state)),
{
}

// ---- the optimiser ----
/// Whether a parameter and its moments have taken one step of the Adam optimiser: the moments are
/// running means of the gradient and of its square, and the parameter has moved against the first,
/// scaled by the root of the second; both are corrected by `c1` and `c2`.
pub open spec fn moved<S: Scalar>(
    v: spec_fn(S) -> real,
    w: S,
    m: S,
    s: S,
    g: S,
    c1: real,
    c2: real,
    lr: real,
    w2: S,
    m2: S,
    s2: S,
) -> bool {
    &&& 10real * v(m2) == 9real * v(m) + v(g)
    &&& 1000real * v(s2) == 999real * v(s) + v(g) * v(g)
    &&& c1 != 0real && c2 > 0real && v(s2) >= 0real ==> exists|root: real| #[trigger]
        paced(root, v(w) - v(w2), v(m2), v(s2), v(S::ratio(1, 100000000)), c1, c2, lr)
}

/// Whether `root` is the root of the corrected second moment, and a step of length `z` is the
/// corrected first moment times the rate over it.
pub open spec fn paced(
    root: real,
    z: real,
    m: real,
    s: real,
    eps: real,
    c1: real,
    c2: real,
    lr: real,
) -> bool {
    root >= 0real && root * root * c2 == s && z * (root + eps) * c1 == lr * m
}

/// One number that the optimiser moves.
proof fn lemma_moved<S: Scalar>(
    v: spec_fn(S) -> real,
    w: S,
    m: S,
    s: S,
    g: S,
    c1: S,
    c2: S,
    lr: S,
)
    requires
        exact::exact(v),
    ensures
        ({
            let (m2, s2) = (train::first_moment(m, g), train::second_moment(s, g));
            moved(
                v,
                w,
                m,
                s,
                g,
                v(c1),
                v(c2),
                v(lr),
                train::adjusted(w, m2, s2, c1, c2, lr),
                m2,
                s2,
            )
        }),
{
    exact::lemma_numbers(v);
    let (m2, s2) = (train::first_moment(m, g), train::second_moment(s, g));
    let (b1, b2, eps) = (S::ratio(9, 10), S::ratio(999, 1000), S::ratio(1, 100000000));
    assert(v(b1) * (10int as real) == 9int as real);
    assert(v(b2) * (1000int as real) == 999int as real);
    assert(v(eps) * (100000000int as real) == 1int as real);
    assert(v(eps) > 0real);
    let (a, b, x, y, z) = (v(b1), v(b2), v(m), v(s), v(g));
    assert(10real * (x * a + z * (1real - a)) == 9real * x + z) by (nonlinear_arith)
        requires
            a * 10real == 9real,
    ;
    assert(1000real * (y * b + z * z * (1real - b)) == 999real * y + z * z) by (nonlinear_arith)
        requires
            b * 1000real == 999real,
    ;
    if v(c1) != 0real && v(c2) > 0real && v(s2) >= 0real {
        let q = s2.over(c2);
        assert(v(q) * v(c2) == v(s2));
        let (qq, cc) = (v(q), v(c2));
        assert(qq >= 0real) by (nonlinear_arith)
            requires
                qq * cc >= 0real,
                cc > 0real,
        ;
        let root = v(q.root());
        assert(root * root == v(q));
        let den = q.root().plus(eps);
        assert(v(den) > 0real);
        let h = m2.over(c1);
        let f = h.over(den);
        assert(v(f) * v(den) == v(h));
        assert(v(h) * v(c1) == v(m2));
        let w2 = train::adjusted(w, m2, s2, c1, c2, lr);
        assert(v(w) - v(w2) == v(f) * v(lr));
        let (ff, dd, hh, kk, ll, mm) = (v(f), v(den), v(h), v(c1), v(lr), v(m2));
        assert(ff * ll * dd * kk == ll * mm) by (nonlinear_arith)
            requires
                ff * dd == hh,
                hh * kk == mm,
        ;
        assert(paced(root, v(w) - v(w2), v(m2), v(s2), v(eps), v(c1), v(c2), v(lr)));
    }
}

/// Whether a tensor of parameters and its moments have taken one step.
pub open spec fn all_moved<S: Scalar>(
    v: spec_fn(S) -> real,
    w: TensorV<S>,
    mo: MomentV<S>,
    g: TensorV<S>,
    c1: real,
    c2: real,
    lr: real,
    w2: TensorV<S>,
    mo2: MomentV<S>,
) -> bool {
    &&& w2.shape == w.shape
    &&& w2.data.len() == w.data.len()
    &&& forall|k: int|
        0 <= k < w.data.len() ==> moved(
            v,
            w.data[k],
            mo.m.data[k],
            mo.v.data[k],
            g.data[k],
            c1,
            c2,
            lr,
            #[trigger] w2.data[k],
            mo2.m.data[k],
            mo2.v.data[k],
        )
}

/// Whether moments and a gradient fill the shape of parameters.
pub open spec fn matches<S>(w: TensorV<S>, mo: MomentV<S>, g: TensorV<S>) -> bool {
    &&& mo.m.shape == w.shape && mo.m.data.len() == w.data.len()
    &&& mo.v.shape == w.shape && mo.v.data.len() == w.data.len()
    &&& g.shape == w.shape && g.data.len() == w.data.len()
}

/// One tensor of parameters.
proof fn lemma_updated<S: Scalar>(
    v: spec_fn(S) -> real,
    w: TensorV<S>,
    mo: MomentV<S>,
    g: TensorV<S>,
    c1: S,
    c2: S,
    lr: S,
)
    requires
        exact::exact(v),
        matches(w, mo, g),
    ensures
        train::updated(w, mo, g, c1, c2, lr) matches Ok((w2, mo2)) && all_moved(
            v,
            w,
            mo,
            g,
            v(c1),
            v(c2),
            v(lr),
            w2,
            mo2,
        ),
{
    let (w2, mo2) = train::updated(w, mo, g, c1, c2, lr)->Ok_0;
    assert forall|k: int| 0 <= k < w.data.len() implies moved(
        v,
        w.data[k],
        mo.m.data[k],
        mo.v.data[k],
        g.data[k],
        v(c1),
        v(c2),
        v(lr),
        #[trigger] w2.data[k],
        mo2.m.data[k],
        mo2.v.data[k],
    ) by {
        lemma_moved(v, w.data[k], mo.m.data[k], mo.v.data[k], g.data[k], c1, c2, lr);
    }
}

/// Whether layers, moments and gradients fit.
pub open spec fn all_match<S>(
    layers: Seq<LayerV<S>>,
    state: AdamV<S>,
    grads_w: Seq<TensorV<S>>,
    grads_b: Seq<TensorV<S>>,
) -> bool {
    &&& state.w.len() == layers.len()
    &&& state.b.len() == layers.len()
    &&& grads_w.len() == layers.len()
    &&& grads_b.len() == layers.len()
    &&& forall|i: int|
        0 <= i < layers.len() ==> matches((#[trigger] layers[i]).w, state.w[i], grads_w[i])
            && matches(layers[i].b, state.b[i], grads_b[i])
}

/// Whether layer `i` has taken one step of rate `lr`, where the state had the powers `p1` and `p2`
/// of the decay rates before it.
pub open spec fn layer_moved<S: Scalar>(
    v: spec_fn(S) -> real,
    layers: Seq<LayerV<S>>,
    state: AdamV<S>,
    grads_w: Seq<TensorV<S>>,
    grads_b: Seq<TensorV<S>>,
    lr: S,
    next: Seq<LayerV<S>>,
    end: AdamV<S>,
    i: int,
) -> bool {
    let (c1, c2) = (1real - v(end.beta1powt), 1real - v(end.beta2powt));
    &&& all_moved(v, layers[i].w, state.w[i], grads_w[i], c1, c2, v(lr), next[i].w, end.w[i])
    &&& all_moved(v, layers[i].b, state.b[i], grads_b[i], c1, c2, v(lr), next[i].b, end.b[i])
}

/// The first `k` layers.
proof fn lemma_layers_moved<S: Scalar>(
    v: spec_fn(S) -> real,
    layers: Seq<LayerV<S>>,
    state: AdamV<S>,
    grads_w: Seq<TensorV<S>>,
    grads_b: Seq<TensorV<S>>,
    lr: S,
    k: nat,
)
    requires
        exact::exact(v),
        all_match(layers, state, grads_w, grads_b),
        k <= layers.len(),
    ensures
        train::walked(layers, state, grads_w, grads_b, lr, k) matches Ok((next, end)) && {
            &&& next.len() == layers.len()
            &&& end.w.len() == layers.len()
            &&& end.b.len() == layers.len()
            &&& end.beta1powt == state.beta1powt
            &&& end.beta2powt == state.beta2powt
            &&& forall|i: int|
                0 <= i < k ==> #[trigger] layer_moved(
                    v,
                    layers,
                    state,
                    grads_w,
                    grads_b,
                    lr,
                    next,
                    end,
                    i,
                )
            &&& forall|i: int|
                k <= i < layers.len() ==> #[trigger] next[i] == layers[i] && end.w[i] == state.w[i]
                    && end.b[i] == state.b[i]
        },
    decreases k,
{
    if k > 0 {
        let j = k - 1;
        lemma_layers_moved(v, layers, state, grads_w, grads_b, lr, j as nat);
        exact::lemma_numbers(v);
        let (ls, st) = train::walked(layers, state, grads_w, grads_b, lr, j as nat)->Ok_0;
        assert(ls[j] == layers[j]);
        assert(matches(layers[j].w, state.w[j], grads_w[j]));
        let c1 = scalar::one::<S>().minus(st.beta1powt);
        let c2 = scalar::one::<S>().minus(st.beta2powt);
        lemma_updated(v, layers[j].w, state.w[j], grads_w[j], c1, c2, lr);
        lemma_updated(v, layers[j].b, state.b[j], grads_b[j], c1, c2, lr);
        let (next, end) = train::walked(layers, state, grads_w, grads_b, lr, k)->Ok_0;
        assert forall|i: int| 0 <= i < k implies #[trigger] layer_moved(
            v,
            layers,
            state,
            grads_w,
            grads_b,
            lr,
            next,
            end,
            i,
        ) by {
            if i < j {
                assert(layer_moved(v, layers, state, grads_w, grads_b, lr, ls, st, i));
            }
        }
    }
}

/// A step of the Adam optimiser: each parameter of each layer moves against its own gradient, and
/// the powers of the decay rates grow by one factor each.
pub proof fn lemma_adam_step<S: Scalar>(
    v: spec_fn(S) -> real,
    layers: Seq<LayerV<S>>,
    state: AdamV<S>,
    grads_w: Seq<TensorV<S>>,
    grads_b: Seq<TensorV<S>>,
    lr: S,
)
    requires
        exact::exact(v),
        all_match(layers, state, grads_w, grads_b),
    ensures
        train::adam_step(layers, state, grads_w, grads_b, lr) matches Ok((next, end)) && {
            &&& next.len() == layers.len()
            &&& 10real * v(end.beta1powt) == 9real * v(state.beta1powt)
            &&& 1000real * v(end.beta2powt) == 999real * v(state.beta2powt)
            &&& forall|i: int|
                0 <= i < layers.len() ==> #[trigger] layer_moved(
                    v,
                    layers,
                    state,
                    grads_w,
                    grads_b,
                    lr,
                    next,
                    end,
                    i,
                )
        },
{
    let more = train::one_more(state);
    assert(all_match(layers, more, grads_w, grads_b));
    lemma_layers_moved(v, layers, more, grads_w, grads_b, lr, layers.len());
    let (next, end) = train::adam_step(layers, state, grads_w, grads_b, lr)->Ok_0;
    let (b1, b2) = (v(S::ratio(9, 10)), v(S::ratio(999, 1000)));
    assert(b1 * (10int as real) == 9int as real);
    assert(b2 * (1000int as real) == 999int as real);
    let (p, q) = (v(state.beta1powt), v(state.beta2powt));
    assert(10real * (p * b1) == 9real * p) by (nonlinear_arith)
        requires
            b1 * 10real == 9real,
    ;
    assert(1000real * (q * b2) == 999real * q) by (nonlinear_arith)
        requires
            b2 * 1000real == 999real,
    ;
    assert forall|i: int| 0 <= i < layers.len() implies #[trigger] layer_moved(
        v,
        layers,
        state,
        grads_w,
        grads_b,
        lr,
        next,
        end,
        i,
    ) by {
        assert(layer_moved(v, layers, more, grads_w, grads_b, lr, next, end, i));
    }
}

/// The first step of the optimiser goes against the gradient, and no further than the rate.
pub proof fn lemma_first_step<S: Scalar>(
    v: spec_fn(S) -> real,
    w: S,
    g: S,
    lr: real,
    w2: S,
    m2: S,
    s2: S,
)
    requires
        exact::exact(v),
        lr >= 0real,
        // the moments are zero, and the corrections are those of the first step
        moved(
            v,
            w,
            scalar::zero(),
            scalar::zero(),
            g,
            1real - v(S::ratio(9, 10)),
            1real - v(S::ratio(999, 1000)),
            lr,
            w2,
            m2,
            s2,
        ),
    ensures
        v(g) >= 0real ==> v(w) - lr <= v(w2) <= v(w),
        v(g) <= 0real ==> v(w) <= v(w2) <= v(w) + lr,
        v(g) != 0real && lr > 0real ==> v(w2) != v(w),
{
    exact::lemma_numbers(v);
    let (b1, b2, eps) = (v(S::ratio(9, 10)), v(S::ratio(999, 1000)), v(S::ratio(1, 100000000)));
    assert(b1 * (10int as real) == 9int as real);
    assert(b2 * (1000int as real) == 999int as real);
    assert(eps * (100000000int as real) == 1int as real);
    assert(eps > 0real);
    let (c1, c2) = (1real - b1, 1real - b2);
    let (x, z) = (v(g), v(w) - v(w2));
    assert(10real * c1 == 1real);
    assert(1000real * c2 == 1real);
    exact::lemma_square(x);
    assert(9real * 0real == 0real && 999real * 0real == 0real);
    assert(v(s2) >= 0real);
    let root = choose|root: real| #[trigger] paced(root, z, v(m2), v(s2), eps, c1, c2, lr);
    assert(root * root == x * x) by (nonlinear_arith)
        requires
            root * root * c2 == v(s2),
            1000real * c2 == 1real,
            1000real * v(s2) == x * x,
    ;
    assert(z * (root + eps) == lr * x) by (nonlinear_arith)
        requires
            z * (root + eps) * c1 == lr * v(m2),
            10real * c1 == 1real,
            10real * v(m2) == x,
    ;
    if x >= 0real {
        assert(root == x) by (nonlinear_arith)
            requires
                root * root == x * x,
                root >= 0real,
                x >= 0real,
        ;
        assert(0real <= z <= lr) by (nonlinear_arith)
            requires
                z * (x + eps) == lr * x,
                x >= 0real,
                eps > 0real,
                lr >= 0real,
        ;
    }
    if x <= 0real {
        let y = -x;
        assert(root == y) by (nonlinear_arith)
            requires
                root * root == x * x,
                root >= 0real,
                y >= 0real,
                y == -x,
        ;
        let u = -z;
        assert(u * (y + eps) == lr * y) by (nonlinear_arith)
            requires
                z * (root + eps) == lr * x,
                root == y,
                y == -x,
                u == -z,
        ;
        assert(0real <= u <= lr) by (nonlinear_arith)
            requires
                u * (y + eps) == lr * y,
                y >= 0real,
                eps > 0real,
                lr >= 0real,
        ;
    }
    if x != 0real && lr > 0real && z == 0real {
        assert(lr * x != 0real) by (nonlinear_arith)
            requires
                lr > 0real,
                x != 0real,
        ;
        exact::lemma_units(root + eps, z);
    }
}

/// The state that training starts from: no moments, and powers of one, so that the first step has
/// the corrections that belong to it.
pub proof fn lemma_first_state<S: Scalar>(v: spec_fn(S) -> real, layers: Seq<LayerV<S>>)
    requires
        exact::exact(v),
    ensures
        ({
            let st = train::first_state(layers);
            &&& v(st.beta1powt) == 1real
            &&& v(st.beta2powt) == 1real
            &&& st.w.len() == layers.len()
            &&& st.b.len() == layers.len()
            &&& forall|i: int, k: int|
                #![trigger st.w[i].m.data[k]]
                #![trigger st.w[i].v.data[k]]
                0 <= i < layers.len() && 0 <= k < shape::product(layers[i].w.shape) ==> v(
                    st.w[i].m.data[k],
                ) == 0real && v(st.w[i].v.data[k]) == 0real
            &&& forall|i: int, k: int|
                #![trigger st.b[i].m.data[k]]
                #![trigger st.b[i].v.data[k]]
                0 <= i < layers.len() && 0 <= k < shape::product(layers[i].b.shape) ==> v(
                    st.b[i].m.data[k],
                ) == 0real && v(st.b[i].v.data[k]) == 0real
        }),
{
    exact::lemma_numbers(v);
}

} // verus!
