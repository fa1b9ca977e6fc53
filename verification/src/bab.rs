//! Branch and bound: what its variants share.

use vstd::prelude::*;
use crate::interval::{IBPTensor, IBPV};
use crate::model::TensorV;
use crate::scalar::Scalar;
use crate::tensor::Tensor;
use crate::value;

verus! {

/// The verdict on the property that no output of a graph is negative.
#[derive(Debug)]
pub enum BaBResult<S> {
    /// No input violates the property
    Safe,
    /// Inputs that violate the property
    Unsafe(Vec<Tensor<S>>),
    /// Neither was found
    Undecided,
}

/// A mathematical verdict.
#[verifier::ext_equal]
pub enum VerdictV<S> {
    Safe,
    Unsafe(Seq<TensorV<S>>),
    Undecided,
}

impl<S: Scalar> View for BaBResult<S> {
    type V = VerdictV<S>;

    open spec fn view(&self) -> VerdictV<S> {
        match self {
            BaBResult::Safe => VerdictV::Safe,
            BaBResult::Unsafe(v) => VerdictV::Unsafe(value::models::<S, Tensor<S>>(v@)),
            BaBResult::Undecided => VerdictV::Undecided,
        }
    }
}

/// How far to search.
#[derive(Debug, Clone, Copy)]
pub struct BaBConfig<S> {
    /// how many branches to classify per batched IBP forward pass
    pub batch_size: usize,
    /// minimum width of intervals for further splitting (a formal break-off point)
    pub min_width: S,
    /// maximum iterations of branch-and-bound (another formal break-off point)
    pub max_iters: usize,
}

impl<S: Scalar> Default for BaBConfig<S> {
    fn default() -> (r: Self)
        ensures
            r == (BaBConfig::<S> {
                batch_size: 64,
                min_width: S::ratio(1, 1000000),
                max_iters: 1000000,
            }),
    {
        BaBConfig {
            batch_size: 64,
            min_width: S::from_ratio(1, 1000000),
            max_iters: 1_000_000,
        }
    }
}

// ---- least elements ----
/// The smallest of the first `k` elements and `x`.
pub open spec fn min_of<S: Scalar>(data: Seq<S>, x: S, k: nat) -> S
    decreases k,
{
    if k == 0 {
        x
    } else {
        min_of(data, x, (k - 1) as nat).smaller(data[k - 1])
    }
}

/// The smallest element of the first `k` tensors.
pub open spec fn min_over<S: Scalar>(ts: Seq<TensorV<S>>, k: nat) -> S
    decreases k,
{
    if k == 0 {
        S::top()
    } else {
        min_of(ts[k - 1].data, min_over(ts, (k - 1) as nat), ts[k - 1].data.len())
    }
}

/// The smallest of the elements of a tensor and `x`.
pub(crate) fn smallest<S: Scalar>(t: &Tensor<S>, x: S) -> (r: S)
    ensures
        r == min_of(t@.data, x, t@.data.len()),
{
    let v = t.values();
    let mut m: S = x;
    for i in 0..v.len()
        invariant
            v@ == t@.data,
            m == min_of(t@.data, x, i as nat),
    {
        m = m.min_of(v[i]);
    }
    m
}

/// Whether some element is negative.
pub open spec fn some_negative<S: Scalar>(t: TensorV<S>) -> bool {
    exists|k: int| 0 <= k < t.data.len() && (#[trigger] t.data[k]).less(crate::scalar::zero())
}

/// Whether some element is negative.
pub(crate) fn has_negative<S: Scalar>(t: &Tensor<S>) -> (r: bool)
    ensures
        r == some_negative(t@),
{
    let v = t.values();
    let zero = crate::scalar::number::<S>(0);
    for i in 0..v.len()
        invariant
            v@ == t@.data,
            zero == crate::scalar::zero::<S>(),
            forall|k: int| 0 <= k < i ==> !(#[trigger] t@.data[k]).less(zero),
    {
        if v[i].is_lt(zero) {
            assert(t@.data[i as int].less(zero));
            return true;
        }
    }
    false
}

/// The number of the first of the first `k` numbers that none comes before.
pub open spec fn first_least<S: Scalar>(keys: Seq<S>, k: nat) -> int
    decreases k,
{
    if k <= 1 {
        0
    } else {
        let i = first_least(keys, (k - 1) as nat);
        if keys[k - 1].before(keys[i]) {
            k - 1
        } else {
            i
        }
    }
}

/// The first of the smallest numbers is one of the numbers.
pub proof fn lemma_first_least<S: Scalar>(keys: Seq<S>, k: nat)
    requires
        0 < k <= keys.len(),
    ensures
        0 <= first_least(keys, k) < k,
    decreases k,
{
    if k > 1 {
        lemma_first_least(keys, (k - 1) as nat);
    }
}

/// The intervals of a list, mathematically.
pub open spec fn boxes<S: Scalar>(v: Seq<IBPTensor<S>>) -> Seq<IBPV<S>> {
    value::models::<S, IBPTensor<S>>(v)
}

/// A copy of a list of intervals.
pub(crate) fn copy_boxes<S: Scalar>(v: &Vec<IBPTensor<S>>) -> (r: Vec<IBPTensor<S>>)
    ensures
        boxes(r@) == boxes(v@),
{
    let mut out: Vec<IBPTensor<S>> = Vec::new();
    for i in 0..v.len()
        invariant
            out@.len() == i,
            forall|j: int| 0 <= j < i ==> (#[trigger] out@[j])@ == v@[j]@,
    {
        out.push(v[i].dup());
    }
    assert(boxes(out@) =~= boxes(v@));
    out
}

} // verus!
