//! Training: shuffling, batches, and the Adam optimiser.

use vstd::prelude::*;
use rand::distr::Uniform;
use rand::rngs::Xoshiro128PlusPlus;
use rand::{RngExt, SeedableRng};
use crate::error::EvalError;
use crate::grad;
use crate::grad::GradInterpreter;
use crate::interval;
use crate::mlp;
use crate::mlp::{Layer, LayerV};
use crate::model;
use crate::model::{Fault, TensorV};
use crate::nn::ComputeGraph;
use crate::scalar;
use crate::scalar::Scalar;
use crate::shape;
use crate::tensor;
use crate::tensor::Tensor;
use crate::value;

verus! {

// ---- shuffling ----
/// The state of the random number generator.
#[verifier::external_type_specification]
#[verifier::external_body]
pub struct ExXoshiro128PlusPlus(rand::rngs::Xoshiro128PlusPlus);

/// The generator that `rand::SeedableRng::seed_from_u64` makes of a key. Nothing is said of its
/// state.
#[verifier::external_body]
pub(crate) fn seeded(key: u64) -> Xoshiro128PlusPlus {
    Xoshiro128PlusPlus::seed_from_u64(key)
}

/// A number drawn by `rand::RngExt::sample` from `rand::distr::Uniform` over the numbers below
/// `high`: it is below `high`. Which one it is depends on the state of the generator, of which
/// nothing is said.
#[verifier::external_body]
pub(crate) fn draw(rng: &mut Xoshiro128PlusPlus, high: usize) -> (r: usize)
    requires
        high > 0,
    ensures
        r < high,
{
    rng.sample(Uniform::new(0, high).unwrap())
}

/// A sequence with two elements swapped.
pub open spec fn swapped(v: Seq<usize>, i: int, j: int) -> Seq<usize> {
    v.update(i, v[j]).update(j, v[i])
}

/// A sequence after the last `k` of its elements have each been swapped with one before it, or
/// with itself, as `draws` says.
pub open spec fn shuffled(v: Seq<usize>, draws: Seq<usize>, k: nat) -> Seq<usize>
    decreases k,
{
    if k == 0 {
        v
    } else {
        let i = v.len() - k;
        swapped(
            shuffled(v, draws, (k - 1) as nat),
            i as int,
            draws[k - 1] as int % (i + 1),
        )
    }
}

/// Shuffling keeps the length.
pub proof fn lemma_shuffled_len(v: Seq<usize>, draws: Seq<usize>, k: nat)
    requires
        k <= v.len(),
    ensures
        shuffled(v, draws, k).len() == v.len(),
    decreases k,
{
    if k > 0 {
        lemma_shuffled_len(v, draws, (k - 1) as nat);
        let (i, d) = (v.len() - k, draws[k - 1] as int);
        assert(0 <= d % (i + 1) < i + 1) by (nonlinear_arith)
            requires
                i >= 0,
        ;
    }
}

/// Swapping two elements changes no multiplicity.
proof fn lemma_swap(v: Seq<usize>, i: int, j: int)
    requires
        0 <= i < v.len(),
        0 <= j < v.len(),
    ensures
        swapped(v, i, j).to_multiset() == v.to_multiset(),
{
    broadcast use vstd::seq_lib::group_to_multiset_ensures;

    let w = v.update(i, v[j]);
    vstd::seq_lib::to_multiset_update(v, i, v[j]);
    vstd::seq_lib::to_multiset_update(w, j, v[i]);
    assert(w[j] == v[j]);
    assert(v.to_multiset().count(v[i]) > 0) by {
        assert(v.contains(v[i]));
    }
    assert(swapped(v, i, j).to_multiset() =~= v.to_multiset());
}

/// Shuffling changes no multiplicity: the result is a permutation.
pub proof fn lemma_shuffled_permutation(v: Seq<usize>, draws: Seq<usize>, k: nat)
    requires
        k <= v.len(),
    ensures
        shuffled(v, draws, k).to_multiset() == v.to_multiset(),
    decreases k,
{
    if k > 0 {
        let w = shuffled(v, draws, (k - 1) as nat);
        lemma_shuffled_permutation(v, draws, (k - 1) as nat);
        lemma_shuffled_len(v, draws, (k - 1) as nat);
        let i = v.len() - k;
        let d = draws[k - 1] as int;
        assert(0 <= d % (i + 1) < i + 1) by (nonlinear_arith)
            requires
                i >= 0,
        ;
        lemma_swap(w, i as int, d % (i + 1));
    }
}

/// Shuffles a list: from the last element to the first, each is swapped with one before it, or
/// with itself, as `draws` says.
pub fn shuffle_with(idx: &mut Vec<usize>, draws: &Vec<usize>)
    requires
        draws@.len() == old(idx)@.len(),
    ensures
        final(idx)@ == shuffled(old(idx)@, draws@, draws@.len()),
{
    let n = idx.len();
    for k in 0..n
        invariant
            n == old(idx)@.len(),
            n == draws@.len(),
            idx@.len() == n,
            idx@ == shuffled(old(idx)@, draws@, k as nat),
    {
        let i = n - 1 - k;
        // swap each i with a j before it (or with itself)
        let j = draws[k] % (i + 1);
        let (a, b) = (idx[i], idx[j]);
        idx.set(i, b);
        idx.set(j, a);
    }
}

/// The number of samples of a training set, which has as many rows of inputs as of labels; the two
/// numbers where they differ.
pub fn matching_rows(inputs: usize, labels: usize) -> (r: Result<usize, (usize, usize)>)
    ensures
        r == (if inputs == labels {
            Ok::<usize, (usize, usize)>(inputs)
        } else {
            Err((inputs, labels))
        }),
{
    if inputs == labels {
        Ok(inputs)
    } else {
        Err((inputs, labels))
    }
}

/// Draws as many numbers as there are elements, each below one less than that, and shuffles by
/// them. Lists of fewer than two elements are an error.
pub fn shuffle(idx: &mut Vec<usize>, rng: &mut Xoshiro128PlusPlus) -> (r: Result<(), EvalError>)
    ensures
        match r {
            Ok(_) => old(idx)@.len() >= 2 && exists|draws: Seq<usize>|
                draws.len() == old(idx)@.len() && (forall|i: int|
                    0 <= i < draws.len() ==> #[trigger] draws[i] < old(idx)@.len() - 1)
                    && final(idx)@ == #[trigger] shuffled(old(idx)@, draws, draws.len()),
            Err(e) => old(idx)@.len() < 2 && e@ == Fault::Empty && final(idx)@ == old(idx)@,
        },
        final(idx)@.to_multiset() == old(idx)@.to_multiset(),
{
    let n = idx.len();
    if n < 2 {
        return Err(EvalError::Empty);
    }
    let mut draws: Vec<usize> = Vec::new();
    for k in 0..n
        invariant
            n >= 2,
            draws@.len() == k,
            forall|i: int| 0 <= i < k ==> #[trigger] draws@[i] < n - 1,
    {
        let d = draw(rng, n - 1);
        draws.push(d);
    }
    proof {
        lemma_shuffled_permutation(idx@, draws@, draws@.len());
    }
    shuffle_with(idx, &draws);
    Ok(())
}

/// The random number generator of a training run.
pub fn generator(rng_key: u64) -> Xoshiro128PlusPlus {
    seeded(rng_key)
}

// ---- batches ----
/// The rows of a matrix with the numbers `idx[pos]` to `idx[pos + count - 1]`.
pub open spec fn rows<S>(t: TensorV<S>, idx: Seq<usize>, pos: int, count: usize) -> TensorV<S> {
    let cols = t.shape[1] as int;
    TensorV {
        shape: seq![count, t.shape[1]],
        data: Seq::new(
            (count * cols) as nat,
            |k: int| t.data[idx[pos + k / cols] * cols + k % cols],
        ),
    }
}

/// A matrix has as many elements as rows times columns.
pub(crate) proof fn lemma_product2(s: Seq<usize>)
    requires
        s.len() == 2,
    ensures
        shape::product(s) == s[0] * s[1],
{
    let s1 = s.drop_last();
    let s0 = s1.drop_last();
    assert(shape::product(s0) == 1);
    assert(shape::product(s1) == 1 * s[0]);
    assert(shape::product(s) == shape::product(s1) * s[1]);
}

/// Some rows of a matrix.
pub fn gather_rows<S: Scalar>(t: &Tensor<S>, idx: &Vec<usize>, pos: usize, count: usize) -> (r:
    Result<Tensor<S>, EvalError>)
    requires
        t@.shape.len() == 2,
        pos + count <= idx@.len(),
        forall|i: int| 0 <= i < idx@.len() ==> #[trigger] idx@[i] < t@.shape[0],
    ensures
        tensor::outcome(r) == (if shape::fits(seq![count, t@.shape[1]]) {
            Ok(rows(t@, idx@, pos as int, count))
        } else {
            Err(Fault::Size)
        }),
{
    let s = t.shape();
    let cols = s[1];
    let out_shape: Vec<usize> = vec![count, cols];
    assert(out_shape@ =~= seq![count, t@.shape[1]]);
    if !shape::check_fits(&out_shape) {
        return Err(EvalError::Size);
    }
    let values = t.values();
    let ghost goal = rows(t@, idx@, pos as int, count);
    proof {
        lemma_product2(s@);
        lemma_product2(out_shape@);
    }
    let total = shape::size_of(&out_shape, 0, 2);
    assert(out_shape@.subrange(0, 2) =~= out_shape@);
    let mut data: Vec<S> = Vec::new();
    for k in 0..total
        invariant
            total == count * cols,
            cols == t@.shape[1],
            values@ == t@.data,
            values@.len() == t@.shape[0] * cols,
            pos + count <= idx@.len(),
            forall|i: int| 0 <= i < idx@.len() ==> #[trigger] idx@[i] < t@.shape[0],
            goal == rows(t@, idx@, pos as int, count),
            data@.len() == k,
            forall|j: int| 0 <= j < k ==> #[trigger] data@[j] == goal.data[j],
    {
        proof {
            let (q, c, n) = (k as int, cols as int, count as int);
            assert(c > 0 && 0 <= q / c < n && 0 <= q % c < c) by (nonlinear_arith)
                requires
                    0 <= q < n * c,
                    c >= 0,
                    n >= 0,
            ;
        }
        let (row, col) = (k / cols, k % cols);
        proof {
            let (a, h, c, j) = (
                idx@[pos + row] as int,
                t@.shape[0] as int,
                cols as int,
                col as int,
            );
            assert(0 <= a * c && a * c + j < h * c) by (nonlinear_arith)
                requires
                    0 <= a < h,
                    0 <= j < c,
            ;
            assert(pos + row < idx.len());
            assert(a * c + j < values.len());
        }
        data.push(values[idx[pos + row] * cols + col]);
    }
    assert(data@ =~= goal.data);
    Ok(Tensor::make(out_shape, data))
}

// ---- the optimiser ----
/// The running mean of the gradients.
pub open spec fn first_moment<S: Scalar>(m: S, g: S) -> S {
    let b1 = S::ratio(9, 10);
    m.times(b1).plus(g.times(scalar::one::<S>().minus(b1)))
}

/// The running mean of the squared gradients.
pub open spec fn second_moment<S: Scalar>(v: S, g: S) -> S {
    let b2 = S::ratio(999, 1000);
    v.times(b2).plus(g.times(g).times(scalar::one::<S>().minus(b2)))
}

/// A parameter after a step of rate `lr`, for moments `m` and `v` that are corrected by `c1` and
/// `c2`.
pub open spec fn adjusted<S: Scalar>(w: S, m: S, v: S, c1: S, c2: S, lr: S) -> S {
    w.minus(
        m.over(c1).over(v.over(c2).root().plus(S::ratio(1, 100000000))).times(lr),
    )
}

/// The moments of one tensor of parameters.
pub struct MomentV<S> {
    pub m: TensorV<S>,
    pub v: TensorV<S>,
}

/// The moments after a gradient.
pub open spec fn next_moments<S: Scalar>(old: MomentV<S>, g: TensorV<S>) -> MomentV<S> {
    MomentV {
        m: interval::zipped(old.m, g, |m: S, g: S| first_moment(m, g)),
        v: interval::zipped(old.v, g, |v: S, g: S| second_moment(v, g)),
    }
}

/// Parameters after a step.
pub open spec fn stepped<S: Scalar>(w: TensorV<S>, mo: MomentV<S>, c1: S, c2: S, lr: S) -> TensorV<
    S,
> {
    TensorV {
        shape: w.shape,
        data: Seq::new(
            w.data.len(),
            |k: int| adjusted(w.data[k], mo.m.data[k], mo.v.data[k], c1, c2, lr),
        ),
    }
}

/// The moments of one tensor of parameters.
#[derive(Debug)]
pub struct Moments<S> {
    /// first moment (mean)
    pub m: Tensor<S>,
    /// second moment (variance)
    pub v: Tensor<S>,
}

impl<S> View for Moments<S> {
    type V = MomentV<S>;

    open spec fn view(&self) -> MomentV<S> {
        MomentV { m: self.m@, v: self.v@ }
    }
}

/// One update of a tensor of parameters with its moments. A gradient of another shape is an error.
pub open spec fn updated<S: Scalar>(
    w: TensorV<S>,
    old: MomentV<S>,
    g: TensorV<S>,
    c1: S,
    c2: S,
    lr: S,
) -> Result<(TensorV<S>, MomentV<S>), Fault> {
    if old.m.shape != w.shape || old.v.shape != w.shape || g.shape != w.shape {
        Err(Fault::Broadcast)
    } else {
        Ok((stepped(w, next_moments(old, g), c1, c2, lr), next_moments(old, g)))
    }
}

/// One update of a tensor of parameters with its moments.
fn update<S: Scalar>(w: &Tensor<S>, old: &Moments<S>, g: &Tensor<S>, c1: S, c2: S, lr: S) -> (r:
    Result<(Tensor<S>, Moments<S>), EvalError>)
    ensures
        (match r {
            Ok((t, mo)) => Ok((t@, mo@)),
            Err(e) => Err(e@),
        }) == updated(w@, old@, g@, c1, c2, lr),
{
    if !interval::same_shape(old.m.shape(), w.shape()) || !interval::same_shape(
        old.v.shape(),
        w.shape(),
    ) || !interval::same_shape(g.shape(), w.shape()) {
        return Err(EvalError::Broadcast);
    }
    let one = scalar::number::<S>(1);
    let b1 = S::from_ratio(9, 10);
    let b2 = S::from_ratio(999, 1000);
    let f1 = |m: S, g: S| -> (z: S)
        ensures
            z == first_moment(m, g),
        { m.mul(b1).add(g.mul(one.sub(b1))) };
    let f2 = |v: S, g: S| -> (z: S)
        ensures
            z == second_moment(v, g),
        { v.mul(b2).add(g.mul(g).mul(one.sub(b2))) };
    let m = interval::zip_with(&old.m, g, f1);
    let v = interval::zip_with(&old.v, g, f2);
    proof {
        let next = next_moments(old@, g@);
        assert(m@ =~= next.m);
        assert(v@ =~= next.v);
    }
    let eps = S::from_ratio(1, 100000000);
    let (wv, mv, vv) = (w.values(), m.values(), v.values());
    let ghost goal = stepped(w@, next_moments(old@, g@), c1, c2, lr);
    let mut data: Vec<S> = Vec::new();
    for k in 0..wv.len()
        invariant
            wv@ == w@.data,
            mv@ == m@.data,
            vv@ == v@.data,
            mv@.len() == wv@.len(),
            vv@.len() == wv@.len(),
            eps == S::ratio(1, 100000000),
            m@ == next_moments(old@, g@).m,
            v@ == next_moments(old@, g@).v,
            goal == stepped(w@, next_moments(old@, g@), c1, c2, lr),
            data@.len() == k,
            forall|j: int| 0 <= j < k ==> #[trigger] data@[j] == goal.data[j],
    {
        let d = mv[k].div(c1).div(vv[k].div(c2).sqrt().add(eps)).mul(lr);
        data.push(wv[k].sub(d));
    }
    assert(data@ =~= goal.data);
    let t = Tensor::make(tensor::copy_of(w.shape()), data);
    Ok((t, Moments { m, v }))
}

/// The state of the Adam optimiser.
#[verifier::ext_equal]
pub struct AdamV<S> {
    pub w: Seq<MomentV<S>>,
    pub b: Seq<MomentV<S>>,
    pub beta1powt: S,
    pub beta2powt: S,
}

/// The state of the Adam optimiser.
#[derive(Debug)]
pub struct AdamState<S> {
    /// moments of weights
    pub w: Vec<Moments<S>>,
    /// moments of biases
    pub b: Vec<Moments<S>>,
    /// decay rate for first moment (mean)
    pub beta1powt: S,
    /// decay rate for second moment (variance)
    pub beta2powt: S,
}

/// Mathematical moments.
pub open spec fn moment_views<S>(v: Seq<Moments<S>>) -> Seq<MomentV<S>> {
    Seq::new(v.len(), |i: int| v[i]@)
}

impl<S> View for AdamState<S> {
    type V = AdamV<S>;

    open spec fn view(&self) -> AdamV<S> {
        AdamV {
            w: moment_views(self.w@),
            b: moment_views(self.b@),
            beta1powt: self.beta1powt,
            beta2powt: self.beta2powt,
        }
    }
}

/// Moments of zero, of the shape of a tensor.
pub open spec fn no_moments<S: Scalar>(t: TensorV<S>) -> MomentV<S> {
    MomentV {
        m: model::filled(t.shape, scalar::zero()),
        v: model::filled(t.shape, scalar::zero()),
    }
}

/// The state before the first step.
pub open spec fn first_state<S: Scalar>(layers: Seq<LayerV<S>>) -> AdamV<S> {
    AdamV {
        w: Seq::new(layers.len(), |i: int| no_moments(layers[i].w)),
        b: Seq::new(layers.len(), |i: int| no_moments(layers[i].b)),
        beta1powt: scalar::one(),
        beta2powt: scalar::one(),
    }
}

/// The layers and the state after a step on the first `k` layers; `state` holds the new powers.
pub open spec fn walked<S: Scalar>(
    layers: Seq<LayerV<S>>,
    state: AdamV<S>,
    grads_w: Seq<TensorV<S>>,
    grads_b: Seq<TensorV<S>>,
    lr: S,
    k: nat,
) -> Result<(Seq<LayerV<S>>, AdamV<S>), Fault>
    decreases k,
{
    if k == 0 {
        Ok((layers, state))
    } else {
        match walked(layers, state, grads_w, grads_b, lr, (k - 1) as nat) {
            Err(f) => Err(f),
            Ok((ls, st)) => {
                let i = k - 1;
                let c1 = scalar::one::<S>().minus(st.beta1powt);
                let c2 = scalar::one::<S>().minus(st.beta2powt);
                match updated(ls[i].w, st.w[i], grads_w[i], c1, c2, lr) {
                    Err(f) => Err(f),
                    Ok((w, mw)) => match updated(ls[i].b, st.b[i], grads_b[i], c1, c2, lr) {
                        Err(f) => Err(f),
                        Ok((b, mb)) => Ok(
                            (
                                ls.update(i, LayerV { w, b }),
                                AdamV { w: st.w.update(i, mw), b: st.b.update(i, mb), ..st },
                            ),
                        ),
                    },
                }
            },
        }
    }
}

/// The state with the powers of one more step.
pub open spec fn one_more<S: Scalar>(state: AdamV<S>) -> AdamV<S> {
    AdamV {
        beta1powt: state.beta1powt.times(S::ratio(9, 10)),
        beta2powt: state.beta2powt.times(S::ratio(999, 1000)),
        ..state
    }
}

/// The layers and the state after a step.
pub open spec fn adam_step<S: Scalar>(
    layers: Seq<LayerV<S>>,
    state: AdamV<S>,
    grads_w: Seq<TensorV<S>>,
    grads_b: Seq<TensorV<S>>,
    lr: S,
) -> Result<(Seq<LayerV<S>>, AdamV<S>), Fault> {
    walked(layers, one_more(state), grads_w, grads_b, lr, layers.len())
}

/// A failure decides the outcome.
proof fn lemma_walk_fails<S: Scalar>(
    layers: Seq<LayerV<S>>,
    state: AdamV<S>,
    grads_w: Seq<TensorV<S>>,
    grads_b: Seq<TensorV<S>>,
    lr: S,
    i: nat,
    k: nat,
)
    requires
        i <= k,
        walked(layers, state, grads_w, grads_b, lr, i) is Err,
    ensures
        walked(layers, state, grads_w, grads_b, lr, k) == walked(
            layers,
            state,
            grads_w,
            grads_b,
            lr,
            i,
        ),
    decreases k,
{
    if i < k {
        lemma_walk_fails(layers, state, grads_w, grads_b, lr, i, (k - 1) as nat);
    }
}

/// A step keeps the powers.
proof fn lemma_walk_powers<S: Scalar>(
    layers: Seq<LayerV<S>>,
    state: AdamV<S>,
    grads_w: Seq<TensorV<S>>,
    grads_b: Seq<TensorV<S>>,
    lr: S,
    k: nat,
)
    requires
        k <= layers.len(),
        k <= state.w.len(),
        k <= state.b.len(),
    ensures
        walked(layers, state, grads_w, grads_b, lr, k) matches Ok((ls, st)) ==> {
            &&& st.beta1powt == state.beta1powt
            &&& st.beta2powt == state.beta2powt
            &&& ls.len() == layers.len()
            &&& st.w.len() == state.w.len()
            &&& st.b.len() == state.b.len()
        },
    decreases k,
{
    if k > 0 {
        lemma_walk_powers(layers, state, grads_w, grads_b, lr, (k - 1) as nat);
    }
}

/// Moments of zero, of the shape of a tensor.
fn zero_moments<S: Scalar>(t: &Tensor<S>) -> (r: Moments<S>)
    ensures
        r@ == no_moments(t@),
{
    let zero = scalar::number::<S>(0);
    let f = |x: S| -> (y: S)
        ensures
            y == scalar::zero::<S>(),
        { zero };
    let s = t.shape();
    let m = t.mapv(f);
    let v = t.mapv(f);
    assert(m@ =~= model::filled(t@.shape, scalar::zero()));
    assert(v@ =~= model::filled(t@.shape, scalar::zero()));
    Moments { m, v }
}

impl<S: Scalar> AdamState<S> {
    /// The state before the first step.
    pub fn new(layers: &Vec<Layer<S>>) -> (r: Self)
        ensures
            r@ == first_state(mlp::layer_views(layers@)),
    {
        let ghost ls = mlp::layer_views(layers@);
        let mut w: Vec<Moments<S>> = Vec::new();
        let mut b: Vec<Moments<S>> = Vec::new();
        for i in 0..layers.len()
            invariant
                ls == mlp::layer_views(layers@),
                w@.len() == i,
                b@.len() == i,
                forall|j: int| 0 <= j < i ==> (#[trigger] w@[j])@ == no_moments(ls[j].w),
                forall|j: int| 0 <= j < i ==> (#[trigger] b@[j])@ == no_moments(ls[j].b),
        {
            assert(ls[i as int] == layers@[i as int]@);
            w.push(zero_moments(&layers[i].w));
            b.push(zero_moments(&layers[i].b));
        }
        let one = scalar::number::<S>(1);
        assert(moment_views(w@) =~= first_state(ls).w);
        assert(moment_views(b@) =~= first_state(ls).b);
        AdamState { w, b, beta1powt: one, beta2powt: one }
    }
}

/// Layers and optimiser state, mathematically.
pub open spec fn trained<S>(r: Result<(Vec<Layer<S>>, AdamState<S>), EvalError>) -> Result<
    (Seq<LayerV<S>>, AdamV<S>),
    Fault,
> {
    match r {
        Ok((l, s)) => Ok((mlp::layer_views(l@), s@)),
        Err(e) => Err(e@),
    }
}

/// Makes one step of the Adam optimiser.
pub fn step<S: Scalar>(
    layers: Vec<Layer<S>>,
    state: AdamState<S>,
    grads_w: &Vec<Tensor<S>>,
    grads_b: &Vec<Tensor<S>>,
    lr: S,
) -> (r: Result<(Vec<Layer<S>>, AdamState<S>), EvalError>)
    requires
        state@.w.len() == layers@.len(),
        state@.b.len() == layers@.len(),
        grads_w@.len() == layers@.len(),
        grads_b@.len() == layers@.len(),
    ensures
        trained(r) == adam_step(
            mlp::layer_views(layers@),
            state@,
            value::models::<S, Tensor<S>>(grads_w@),
            value::models::<S, Tensor<S>>(grads_b@),
            lr,
        ),
{
    let ghost ls = mlp::layer_views(layers@);
    let ghost gw = value::models::<S, Tensor<S>>(grads_w@);
    let ghost gb = value::models::<S, Tensor<S>>(grads_b@);
    let ghost st0 = one_more(state@);
    let n = layers.len();
    let mut now = layers;
    let mut opt = state;
    // update beta1powt / beta2powt
    opt.beta1powt = opt.beta1powt.mul(S::from_ratio(9, 10));
    opt.beta2powt = opt.beta2powt.mul(S::from_ratio(999, 1000));
    assert(opt@ =~= st0);
    let one = scalar::number::<S>(1);
    let bc1 = one.sub(opt.beta1powt);
    let bc2 = one.sub(opt.beta2powt);
    // for each layer...
    for i in 0..n
        invariant
            n == ls.len(),
            n == now@.len(),
            opt.w@.len() == n,
            opt.b@.len() == n,
            ls == mlp::layer_views(layers@),
            st0 == one_more(state@),
            st0.w.len() == n,
            st0.b.len() == n,
            gw == value::models::<S, Tensor<S>>(grads_w@),
            gb == value::models::<S, Tensor<S>>(grads_b@),
            grads_w@.len() == n,
            grads_b@.len() == n,
            bc1 == scalar::one::<S>().minus(st0.beta1powt),
            bc2 == scalar::one::<S>().minus(st0.beta2powt),
            walked(ls, st0, gw, gb, lr, i as nat) == Ok::<(Seq<LayerV<S>>, AdamV<S>), Fault>(
                (mlp::layer_views(now@), opt@),
            ),
    {
        proof {
            lemma_walk_powers(ls, st0, gw, gb, lr, i as nat);
            if walked(ls, st0, gw, gb, lr, (i + 1) as nat) is Err {
                lemma_walk_fails(ls, st0, gw, gb, lr, (i + 1) as nat, n as nat);
            }
            assert(gw[i as int] == grads_w@[i as int]@);
            assert(gb[i as int] == grads_b@[i as int]@);
        }
        let ghost before = mlp::layer_views(now@);
        let ghost st = opt@;
        assert(before[i as int] == now@[i as int]@);
        assert(st.w[i as int] == opt.w@[i as int]@);
        assert(st.b[i as int] == opt.b@[i as int]@);
        // ... update weight
        let (w, mw) = update(&now[i].w, &opt.w[i], &grads_w[i], bc1, bc2, lr)?;
        // ... and update bias
        let (b, mb) = update(&now[i].b, &opt.b[i], &grads_b[i], bc1, bc2, lr)?;
        let layer = Layer { w, b };
        let ghost (lv, wv, bv) = (layer@, mw@, mb@);
        now.set(i, layer);
        opt.w.set(i, mw);
        opt.b.set(i, mb);
        proof {
            assert(mlp::layer_views(now@) =~= before.update(i as int, lv));
            assert(moment_views(opt.w@) =~= st.w.update(i as int, wv));
            assert(moment_views(opt.b@) =~= st.b.update(i as int, bv));
        }
    }
    Ok((now, opt))
}

// ---- an epoch ----
/// The inputs of the graph of a perceptron: the batch, then the weights and biases of the first
/// `k` layers.
pub open spec fn graph_inputs<S>(x: TensorV<S>, layers: Seq<LayerV<S>>, k: nat) -> Seq<TensorV<S>>
    decreases k,
{
    if k == 0 {
        seq![x]
    } else {
        graph_inputs(x, layers, (k - 1) as nat).push(layers[k - 1].w).push(layers[k - 1].b)
    }
}

/// Every second gradient, from number `first` on.
pub open spec fn every_second<S>(grads: Seq<TensorV<S>>, first: int, n: nat) -> Seq<TensorV<S>> {
    Seq::new(n, |i: int| grads[first + 2 * i])
}

/// The layers and the state after one batch. The gradients are those of the mean softmax cross
/// entropy.
#[verifier::opaque]
pub open spec fn after_batch<S: Scalar>(
    layers: Seq<LayerV<S>>,
    state: AdamV<S>,
    x: TensorV<S>,
    y: TensorV<S>,
    batch: usize,
    in_size: usize,
    lr: S,
) -> Result<(Seq<LayerV<S>>, AdamV<S>), Fault> {
    let g = mlp::mlp_graph(layers, batch, in_size);
    let n = layers.len();
    match grad::loss_gradients(g, graph_inputs(x, layers, n), Some(y)) {
        Err(f) => Err(f),
        Ok(grads) => if grads.len() != 2 * n + 1 {
            Err(Fault::Graph)
        } else {
            adam_step(layers, state, every_second(grads, 1, n), every_second(grads, 2, n), lr)
        },
    }
}

/// The layers and the state after the batches from position `pos` on. Samples that fill no batch
/// are left out.
pub open spec fn after_batches<S: Scalar>(
    layers: Seq<LayerV<S>>,
    state: AdamV<S>,
    data: TensorV<S>,
    labels: TensorV<S>,
    idx: Seq<usize>,
    batch: usize,
    lr: S,
    pos: nat,
) -> Result<(Seq<LayerV<S>>, AdamV<S>), Fault>
    decreases idx.len() - pos,
{
    if batch == 0 || pos + batch > idx.len() {
        Ok((layers, state))
    } else if !shape::fits(seq![batch, data.shape[1]]) || !shape::fits(
        seq![batch, labels.shape[1]],
    ) {
        Err(Fault::Size)
    } else {
        match after_batch(
            layers,
            state,
            rows(data, idx, pos as int, batch),
            rows(labels, idx, pos as int, batch),
            batch,
            data.shape[1],
            lr,
        ) {
            Err(f) => Err(f),
            Ok((l, s)) => after_batches(l, s, data, labels, idx, batch, lr, (pos + batch) as nat),
        }
    }
}

/// Trains on one batch.
pub fn train_batch<S: Scalar>(
    layers: Vec<Layer<S>>,
    state: AdamState<S>,
    x: Tensor<S>,
    y: &Tensor<S>,
    batch_size: usize,
    in_size: usize,
    lr: S,
) -> (r: Result<(Vec<Layer<S>>, AdamState<S>), EvalError>)
    requires
        state@.w.len() == layers@.len(),
        state@.b.len() == layers@.len(),
    ensures
        trained(r) == after_batch(
            mlp::layer_views(layers@),
            state@,
            x@,
            y@,
            batch_size,
            in_size,
            lr,
        ),
        r matches Ok((l, s)) ==> l@.len() == layers@.len() && s@.w.len() == layers@.len()
            && s@.b.len() == layers@.len(),
{
    proof {
        reveal(after_batch);
    }
    let ghost ls = mlp::layer_views(layers@);
    let n = layers.len();
    let cg = ComputeGraph::from_layers(&layers, batch_size, in_size);
    // inputs: [x, W0, b0, W1, b1, ...]
    let ghost xv = x@;
    let mut inputs: Vec<Tensor<S>> = vec![x];
    assert(value::models::<S, Tensor<S>>(inputs@) =~= seq![xv]);
    for i in 0..n
        invariant
            n == layers@.len(),
            ls == mlp::layer_views(layers@),
            value::models::<S, Tensor<S>>(inputs@) == graph_inputs(xv, ls, i as nat),
    {
        let ghost before = value::models::<S, Tensor<S>>(inputs@);
        assert(ls[i as int] == layers@[i as int]@);
        inputs.push(layers[i].w.dup());
        inputs.push(layers[i].b.dup());
        assert(value::models::<S, Tensor<S>>(inputs@) =~= before.push(ls[i as int].w).push(
            ls[i as int].b,
        ));
    }
    let grads = GradInterpreter::run_loss(&cg, &inputs, Some(y))?;
    let ghost gs = value::models::<S, Tensor<S>>(grads@);
    // grads[0] = dx (unused), grads[1 + 2i] = dWi, grads[2 + 2i] = dbi
    if grads.len() % 2 != 1 || grads.len() / 2 != n {
        return Err(EvalError::Graph);
    }
    let mut grads_w: Vec<Tensor<S>> = Vec::new();
    let mut grads_b: Vec<Tensor<S>> = Vec::new();
    for i in 0..n
        invariant
            grads@.len() == 2 * n + 1,
            gs == value::models::<S, Tensor<S>>(grads@),
            grads_w@.len() == i,
            grads_b@.len() == i,
            forall|j: int| 0 <= j < i ==> (#[trigger] grads_w@[j])@ == gs[1 + 2 * j],
            forall|j: int| 0 <= j < i ==> (#[trigger] grads_b@[j])@ == gs[2 + 2 * j],
    {
        assert(2 + 2 * i < grads.len());
        grads_w.push(grads[1 + 2 * i].dup());
        grads_b.push(grads[2 + 2 * i].dup());
    }
    proof {
        assert(value::models::<S, Tensor<S>>(grads_w@) =~= every_second(gs, 1, n as nat));
        assert(value::models::<S, Tensor<S>>(grads_b@) =~= every_second(gs, 2, n as nat));
        lemma_walk_powers(
            ls,
            one_more(state@),
            every_second(gs, 1, n as nat),
            every_second(gs, 2, n as nat),
            lr,
            n as nat,
        );
    }
    // optimizer: walks grad
    let out = step(layers, state, &grads_w, &grads_b, lr)?;
    assert(mlp::layer_views(out.0@).len() == out.0@.len());
    Ok(out)
}

/// Trains on all full batches of a shuffled data set, in order.
pub fn train_epoch<S: Scalar>(
    layers: Vec<Layer<S>>,
    state: AdamState<S>,
    data: &Tensor<S>,
    labels: &Tensor<S>,
    idx: &Vec<usize>,
    batch_size: usize,
    lr: S,
) -> (r: Result<(Vec<Layer<S>>, AdamState<S>), EvalError>)
    requires
        batch_size > 0,
        state@.w.len() == layers@.len(),
        state@.b.len() == layers@.len(),
        data@.shape.len() == 2,
        labels@.shape.len() == 2,
        forall|i: int| 0 <= i < idx@.len() ==> #[trigger] idx@[i] < data@.shape[0],
        forall|i: int| 0 <= i < idx@.len() ==> #[trigger] idx@[i] < labels@.shape[0],
    ensures
        trained(r) == after_batches(
            mlp::layer_views(layers@),
            state@,
            data@,
            labels@,
            idx@,
            batch_size,
            lr,
            0,
        ),
{
    let ghost goal = after_batches(
        mlp::layer_views(layers@),
        state@,
        data@,
        labels@,
        idx@,
        batch_size,
        lr,
        0,
    );
    let in_size = data.shape()[1];
    let n = idx.len();
    let mut now = layers;
    let mut opt = state;
    let mut pos: usize = 0;
    while batch_size <= n - pos
        invariant
            n == idx@.len(),
            pos <= n,
            batch_size > 0,
            in_size == data@.shape[1],
            data@.shape.len() == 2,
            labels@.shape.len() == 2,
            opt@.w.len() == now@.len(),
            opt@.b.len() == now@.len(),
            forall|i: int| 0 <= i < idx@.len() ==> #[trigger] idx@[i] < data@.shape[0],
            forall|i: int| 0 <= i < idx@.len() ==> #[trigger] idx@[i] < labels@.shape[0],
            goal == after_batches(
                mlp::layer_views(layers@),
                state@,
                data@,
                labels@,
                idx@,
                batch_size,
                lr,
                0,
            ),
            goal == after_batches(
                mlp::layer_views(now@),
                opt@,
                data@,
                labels@,
                idx@,
                batch_size,
                lr,
                pos as nat,
            ),
        decreases n - pos,
    {
        let x = gather_rows(data, idx, pos, batch_size)?;
        let y = gather_rows(labels, idx, pos, batch_size)?;
        let (l, s) = train_batch(now, opt, x, &y, batch_size, in_size, lr)?;
        now = l;
        opt = s;
        pos = pos + batch_size;
    }
    Ok((now, opt))
}

/// The numbers below `n`, in order.
pub fn identity(n: usize) -> (r: Vec<usize>)
    ensures
        r@ == Seq::new(n as nat, |i: int| i as usize),
{
    let mut out: Vec<usize> = Vec::new();
    for i in 0..n
        invariant
            out@ == Seq::new(i as nat, |j: int| j as usize),
    {
        out.push(i);
        assert(out@ =~= Seq::new((i + 1) as nat, |j: int| j as usize));
    }
    out
}

} // verus!
