//! Intervals of tensors.

use vstd::prelude::*;
use crate::env::Env;
use crate::env;
use crate::error::EvalError;
use crate::eval;
use crate::eval::{EvalGenInterpreter, Interpreter};
use crate::model;
use crate::model::{BinOpV, Fault, TensorV, UnOpV};
use crate::nn::{ComputeGraph, GraphV, Primitive};
use crate::op::{BinOp, UnOp};
use crate::scalar;
use crate::scalar::Scalar;
use crate::shape;
use crate::tensor;
use crate::tensor::Tensor;
use crate::value;
use crate::value::Value;

verus! {

/// The tensors between two tensors of one shape. `is_point` says that both are known to be
/// equal.
#[derive(Debug)]
pub struct IBPTensor<S> {
    lb: Tensor<S>,
    ub: Tensor<S>,
    is_point: bool,
}

/// A mathematical interval.
#[verifier::ext_equal]
pub struct IBPV<S> {
    pub lb: TensorV<S>,
    pub ub: TensorV<S>,
    pub is_point: bool,
}

impl<S> View for IBPTensor<S> {
    type V = IBPV<S>;

    closed spec fn view(&self) -> IBPV<S> {
        IBPV { lb: self.lb@, ub: self.ub@, is_point: self.is_point }
    }
}

impl<S> IBPTensor<S> {
    #[verifier::type_invariant]
    spec fn inv(self) -> bool {
        self.lb@.shape == self.ub@.shape
    }
}

// ---- elementwise combinations ----
/// Two tensors of one shape combined element by element.
pub open spec fn zipped<S>(a: TensorV<S>, b: TensorV<S>, f: spec_fn(S, S) -> S) -> TensorV<S> {
    TensorV { shape: a.shape, data: Seq::new(a.data.len(), |k: int| f(a.data[k], b.data[k])) }
}

/// The smallest of four numbers.
pub open spec fn least<S: Scalar>(a: S, b: S, c: S, d: S) -> S {
    a.smaller(b).smaller(c).smaller(d)
}

/// The largest of four numbers.
pub open spec fn greatest<S: Scalar>(a: S, b: S, c: S, d: S) -> S {
    a.larger(b).larger(c).larger(d)
}

/// The elementwise smallest of four tensors of one shape.
pub open spec fn least_of<S: Scalar>(
    a: TensorV<S>,
    b: TensorV<S>,
    c: TensorV<S>,
    d: TensorV<S>,
) -> TensorV<S> {
    TensorV {
        shape: a.shape,
        data: Seq::new(
            a.data.len(),
            |k: int| least(a.data[k], b.data[k], c.data[k], d.data[k]),
        ),
    }
}

/// The elementwise largest of four tensors of one shape.
pub open spec fn greatest_of<S: Scalar>(
    a: TensorV<S>,
    b: TensorV<S>,
    c: TensorV<S>,
    d: TensorV<S>,
) -> TensorV<S> {
    TensorV {
        shape: a.shape,
        data: Seq::new(
            a.data.len(),
            |k: int| greatest(a.data[k], b.data[k], c.data[k], d.data[k]),
        ),
    }
}

/// Whether two tensors of one shape are numerically equal.
pub open spec fn all_same<S: Scalar>(a: TensorV<S>, b: TensorV<S>) -> bool {
    forall|k: int| 0 <= k < a.data.len() ==> (#[trigger] a.data[k]).same(b.data[k])
}

/// The interval between two tensors of one shape.
pub open spec fn between<S: Scalar>(lb: TensorV<S>, ub: TensorV<S>) -> IBPV<S> {
    IBPV { lb, ub, is_point: all_same(lb, ub) }
}

/// Two tensors of one shape combined element by element.
pub(crate) fn zip_with<S: Scalar, F: Fn(S, S) -> S>(a: &Tensor<S>, b: &Tensor<S>, f: F) -> (r:
    Tensor<S>)
    requires
        a@.shape == b@.shape,
        forall|x: S, y: S| call_requires(f, (x, y)),
    ensures
        r@.shape == a@.shape,
        r@.data.len() == a@.data.len(),
        forall|k: int|
            0 <= k < r@.data.len() ==> call_ensures(
                f,
                (a@.data[k], b@.data[k]),
                #[trigger] r@.data[k],
            ),
{
    let s = a.shape();
    let (x, y) = (a.values(), b.values());
    let mut data: Vec<S> = Vec::new();
    for i in 0..x.len()
        invariant
            x@ == a@.data,
            y@ == b@.data,
            x@.len() == y@.len(),
            forall|x: S, y: S| call_requires(f, (x, y)),
            data@.len() == i,
            forall|k: int| 0 <= k < i ==> call_ensures(f, (x@[k], y@[k]), #[trigger] data@[k]),
    {
        data.push(f(x[i], y[i]));
    }
    Tensor::make(tensor::copy_of(s), data)
}

/// The elementwise sum of two tensors of one shape.
pub(crate) fn plus_of<S: Scalar>(a: &Tensor<S>, b: &Tensor<S>) -> (r: Tensor<S>)
    requires
        a@.shape == b@.shape,
    ensures
        r@ == zipped(a@, b@, |x: S, y: S| x.plus(y)),
{
    let f = |x: S, y: S| -> (z: S)
        ensures
            z == x.plus(y),
        { x.add(y) };
    let r = zip_with(a, b, f);
    assert(r@ =~= zipped(a@, b@, |x: S, y: S| x.plus(y)));
    r
}

/// The elementwise difference of two tensors of one shape.
pub(crate) fn minus_of<S: Scalar>(a: &Tensor<S>, b: &Tensor<S>) -> (r: Tensor<S>)
    requires
        a@.shape == b@.shape,
    ensures
        r@ == zipped(a@, b@, |x: S, y: S| x.minus(y)),
{
    let f = |x: S, y: S| -> (z: S)
        ensures
            z == x.minus(y),
        { x.sub(y) };
    let r = zip_with(a, b, f);
    assert(r@ =~= zipped(a@, b@, |x: S, y: S| x.minus(y)));
    r
}

/// The elementwise smallest of four tensors of one shape.
pub(crate) fn min4<S: Scalar>(a: &Tensor<S>, b: &Tensor<S>, c: &Tensor<S>, d: &Tensor<S>) -> (r:
    Tensor<S>)
    requires
        a@.shape == b@.shape,
        a@.shape == c@.shape,
        a@.shape == d@.shape,
    ensures
        r@ == least_of(a@, b@, c@, d@),
{
    let f = |x: S, y: S| -> (z: S)
        ensures
            z == x.smaller(y),
        { x.min_of(y) };
    let ab = zip_with(a, b, f);
    let abc = zip_with(&ab, c, f);
    let r = zip_with(&abc, d, f);
    proof {
        assert forall|k: int| 0 <= k < r@.data.len() implies r@.data[k] == least(
            a@.data[k],
            b@.data[k],
            c@.data[k],
            d@.data[k],
        ) by {
            assert(ab@.data[k] == a@.data[k].smaller(b@.data[k]));
            assert(abc@.data[k] == ab@.data[k].smaller(c@.data[k]));
        }
        assert(r@ =~= least_of(a@, b@, c@, d@));
    }
    r
}

/// The elementwise largest of four tensors of one shape.
pub(crate) fn max4<S: Scalar>(a: &Tensor<S>, b: &Tensor<S>, c: &Tensor<S>, d: &Tensor<S>) -> (r:
    Tensor<S>)
    requires
        a@.shape == b@.shape,
        a@.shape == c@.shape,
        a@.shape == d@.shape,
    ensures
        r@ == greatest_of(a@, b@, c@, d@),
{
    let f = |x: S, y: S| -> (z: S)
        ensures
            z == x.larger(y),
        { x.max_of(y) };
    let ab = zip_with(a, b, f);
    let abc = zip_with(&ab, c, f);
    let r = zip_with(&abc, d, f);
    proof {
        assert forall|k: int| 0 <= k < r@.data.len() implies r@.data[k] == greatest(
            a@.data[k],
            b@.data[k],
            c@.data[k],
            d@.data[k],
        ) by {
            assert(ab@.data[k] == a@.data[k].larger(b@.data[k]));
            assert(abc@.data[k] == ab@.data[k].larger(c@.data[k]));
        }
        assert(r@ =~= greatest_of(a@, b@, c@, d@));
    }
    r
}

/// Whether two tensors of one shape are numerically equal.
pub(crate) fn same_values<S: Scalar>(a: &Tensor<S>, b: &Tensor<S>) -> (r: bool)
    requires
        a@.shape == b@.shape,
    ensures
        r == all_same(a@, b@),
{
    let s = a.shape();
    let (x, y) = (a.values(), b.values());
    for i in 0..x.len()
        invariant
            x@ == a@.data,
            y@ == b@.data,
            x@.len() == y@.len(),
            forall|k: int| 0 <= k < i ==> (#[trigger] a@.data[k]).same(b@.data[k]),
    {
        if !x[i].is_eq(y[i]) {
            assert(!a@.data[i as int].same(b@.data[i as int]));
            return false;
        }
    }
    true
}

/// Whether two lists of lengths are equal.
pub(crate) fn same_shape(a: &[usize], b: &[usize]) -> (r: bool)
    ensures
        r == (a@ == b@),
{
    if a.len() != b.len() {
        return false;
    }
    for i in 0..a.len()
        invariant
            a@.len() == b@.len(),
            forall|k: int| 0 <= k < i ==> a@[k] == b@[k],
    {
        if a[i] != b[i] {
            return false;
        }
    }
    assert(a@ =~= b@);
    true
}

// ---- what the operations do to intervals ----
/// The lower end of the squares of an interval.
pub open spec fn square_low<S: Scalar>(l: S, u: S) -> S {
    if scalar::zero::<S>().at_most(l) {
        l.times(l)
    } else if u.less(scalar::zero()) {
        u.times(u)
    } else {
        scalar::zero()
    }
}

/// The upper end of the squares of an interval.
pub open spec fn square_high<S: Scalar>(l: S, u: S) -> S {
    if scalar::zero::<S>().at_most(l) {
        u.times(u)
    } else if u.less(scalar::zero()) {
        l.times(l)
    } else {
        l.times(l).larger(u.times(u))
    }
}

/// Whether an interval holds zero.
pub open spec fn holds_zero<S: Scalar>(l: S, u: S) -> bool {
    l.at_most(scalar::zero()) && scalar::zero::<S>().at_most(u)
}

/// The lower end of the reciprocals of an interval.
pub open spec fn reciprocal_low<S: Scalar>(l: S, u: S) -> S {
    if holds_zero(l, u) {
        S::bottom()
    } else {
        scalar::one::<S>().over(u)
    }
}

/// The upper end of the reciprocals of an interval.
pub open spec fn reciprocal_high<S: Scalar>(l: S, u: S) -> S {
    if holds_zero(l, u) {
        S::top()
    } else {
        scalar::one::<S>().over(l)
    }
}

/// Where the Gaussian error linear unit is smallest.
pub open spec fn gelu_arg_min<S: Scalar>() -> S {
    S::ratio(-751791524693564, 1000000000000000)
}

/// The smallest value of the Gaussian error linear unit.
pub open spec fn gelu_min<S: Scalar>() -> S {
    S::ratio(-16997120747990366, 100000000000000000)
}

/// The lower end of the Gaussian error linear units of an interval.
pub open spec fn gelu_low<S: Scalar>(l: S, u: S) -> S {
    if gelu_arg_min::<S>().at_most(l) {
        scalar::gelu_of(l)
    } else if u.less(gelu_arg_min()) {
        scalar::gelu_of(u)
    } else {
        gelu_min()
    }
}

/// The upper end of the Gaussian error linear units of an interval.
pub open spec fn gelu_high<S: Scalar>(l: S, u: S) -> S {
    if gelu_arg_min::<S>().at_most(l) {
        scalar::gelu_of(u)
    } else if u.less(gelu_arg_min()) {
        scalar::gelu_of(l)
    } else {
        scalar::gelu_of(l).larger(scalar::gelu_of(u))
    }
}

/// The interval between the results of an operation at both ends.
pub open spec fn at_ends<S: Scalar>(op: UnOpV<S>, x: IBPV<S>) -> Result<IBPV<S>, Fault> {
    match (model::un_tensor(op, x.lb), model::un_tensor(op, x.ub)) {
        (Ok(l), Ok(u)) => Ok(between(l, u)),
        (Err(f), _) => Err(f),
        (_, Err(f)) => Err(f),
    }
}

/// An operation on one interval.
pub open spec fn un_interval<S: Scalar>(op: UnOpV<S>, x: IBPV<S>) -> Result<IBPV<S>, Fault> {
    match op {
        UnOpV::Neg => Ok(
            between(
                model::mapped(x.ub, |v: S| v.opposite()),
                model::mapped(x.lb, |v: S| v.opposite()),
            ),
        ),
        UnOpV::Square => Ok(
            between(
                zipped(x.lb, x.ub, |l: S, u: S| square_low(l, u)),
                zipped(x.lb, x.ub, |l: S, u: S| square_high(l, u)),
            ),
        ),
        UnOpV::Reciprocal => Ok(
            between(
                zipped(x.lb, x.ub, |l: S, u: S| reciprocal_low(l, u)),
                zipped(x.lb, x.ub, |l: S, u: S| reciprocal_high(l, u)),
            ),
        ),
        UnOpV::Gelu => Ok(
            between(
                zipped(x.lb, x.ub, |l: S, u: S| gelu_low(l, u)),
                zipped(x.lb, x.ub, |l: S, u: S| gelu_high(l, u)),
            ),
        ),
        _ => at_ends(op, x),
    }
}

/// The sum of two intervals, with broadcasting.
pub open spec fn sum_interval<S: Scalar>(a: IBPV<S>, b: IBPV<S>) -> Result<IBPV<S>, Fault> {
    match (
        model::bin_tensor(BinOpV::Add, a.lb, b.lb),
        model::bin_tensor(BinOpV::Add, a.ub, b.ub),
    ) {
        (Ok(l), Ok(u)) => Ok(IBPV { lb: l, ub: u, is_point: a.is_point && b.is_point }),
        (Err(f), _) => Err(f),
        (_, Err(f)) => Err(f),
    }
}

/// The hull of an operation at the four pairs of ends.
pub open spec fn corner_hull<S: Scalar>(op: BinOpV, a: IBPV<S>, b: IBPV<S>) -> Result<
    IBPV<S>,
    Fault,
> {
    match (
        model::bin_tensor(op, a.lb, b.lb),
        model::bin_tensor(op, a.lb, b.ub),
        model::bin_tensor(op, a.ub, b.lb),
        model::bin_tensor(op, a.ub, b.ub),
    ) {
        (Ok(ll), Ok(lu), Ok(ul), Ok(uu)) => Ok(
            between(least_of(ll, lu, ul, uu), greatest_of(ll, lu, ul, uu)),
        ),
        (Err(f), _, _, _) => Err(f),
        (_, Err(f), _, _) => Err(f),
        (_, _, Err(f), _) => Err(f),
        (_, _, _, Err(f)) => Err(f),
    }
}

/// The interval of centre `mid` and radius `ran`.
pub open spec fn around<S: Scalar>(mid: TensorV<S>, ran: TensorV<S>) -> IBPV<S> {
    between(
        zipped(mid, ran, |x: S, y: S| x.minus(y)),
        zipped(mid, ran, |x: S, y: S| x.plus(y)),
    )
}

/// Half the sum of two tensors of one shape.
pub open spec fn middle<S: Scalar>(a: TensorV<S>, b: TensorV<S>) -> TensorV<S> {
    zipped(a, b, |x: S, y: S| x.plus(y).times(scalar::half()))
}

/// Half the difference of two tensors of one shape.
pub open spec fn radius<S: Scalar>(a: TensorV<S>, b: TensorV<S>) -> TensorV<S> {
    zipped(a, b, |x: S, y: S| x.minus(y).times(scalar::half()))
}

/// The elementwise magnitude.
pub open spec fn magnitudes<S: Scalar>(a: TensorV<S>) -> TensorV<S> {
    model::mapped(a, |x: S| x.magnitude())
}

/// The interval of an operation that is linear in each operand: around the result at the centre
/// where one operand is a point, else the hull of the results at the ends.
pub open spec fn linear_interval<S: Scalar>(op: BinOpV, a: IBPV<S>, b: IBPV<S>) -> Result<
    IBPV<S>,
    Fault,
> {
    if a.is_point {
        match (
            model::bin_tensor(op, a.lb, middle(b.ub, b.lb)),
            model::bin_tensor(op, magnitudes(a.lb), radius(b.ub, b.lb)),
        ) {
            (Ok(m), Ok(r)) => Ok(around(m, r)),
            (Err(f), _) => Err(f),
            (_, Err(f)) => Err(f),
        }
    } else if b.is_point {
        match (
            model::bin_tensor(op, middle(a.lb, a.ub), b.lb),
            model::bin_tensor(op, radius(a.ub, a.lb), magnitudes(b.lb)),
        ) {
            (Ok(m), Ok(r)) => Ok(around(m, r)),
            (Err(f), _) => Err(f),
            (_, Err(f)) => Err(f),
        }
    } else {
        corner_hull(op, a, b)
    }
}

/// An operation on two intervals.
pub open spec fn bin_interval<S: Scalar>(op: BinOpV, a: IBPV<S>, b: IBPV<S>) -> Result<
    IBPV<S>,
    Fault,
> {
    match op {
        BinOpV::Add => sum_interval(a, b),
        BinOpV::Mul => corner_hull(op, a, b),
        BinOpV::Dot | BinOpV::Conv(_) => linear_interval(op, a, b),
        BinOpV::ConvKernelGrad(_, _) => Err(Fault::Unsupported),
    }
}

/// The selection between two intervals by a third.
pub open spec fn select_interval<S: Scalar>(p: IBPV<S>, x: IBPV<S>, y: IBPV<S>) -> Result<
    IBPV<S>,
    Fault,
> {
    if p.is_point {
        match (
            model::select_tensor(p.lb, x.lb, y.lb),
            model::select_tensor(p.ub, x.ub, y.ub),
        ) {
            (Ok(l), Ok(u)) => Ok(between(l, u)),
            (Err(f), _) => Err(f),
            (_, Err(f)) => Err(f),
        }
    } else {
        match (
            model::select_tensor(p.lb, x.lb, y.lb),
            model::select_tensor(p.lb, x.ub, y.ub),
            model::select_tensor(p.ub, x.lb, y.lb),
            model::select_tensor(p.ub, x.ub, y.ub),
        ) {
            (Ok(ll), Ok(lu), Ok(rl), Ok(ru)) => Ok(
                between(
                    zipped(ll, rl, |a: S, b: S| a.smaller(b)),
                    zipped(lu, ru, |a: S, b: S| a.larger(b)),
                ),
            ),
            (Err(f), _, _, _) => Err(f),
            (_, Err(f), _, _) => Err(f),
            (_, _, Err(f), _) => Err(f),
            (_, _, _, Err(f)) => Err(f),
        }
    }
}

/// A result that holds an interval, over mathematical intervals.
pub open spec fn interval_of<S>(r: Result<IBPTensor<S>, EvalError>) -> Result<IBPV<S>, Fault> {
    match r {
        Ok(t) => Ok(t@),
        Err(e) => Err(e@),
    }
}

impl<S: Scalar> IBPTensor<S> {
    /// The interval between two tensors. Tensors of different shapes are an error.
    pub fn new(lb: Tensor<S>, ub: Tensor<S>) -> (r: Result<IBPTensor<S>, EvalError>)
        ensures
            interval_of(r) == (if lb@.shape == ub@.shape {
                Ok(between(lb@, ub@))
            } else {
                Err(Fault::Interval)
            }),
    {
        if !same_shape(lb.shape(), ub.shape()) {
            return Err(EvalError::Interval);
        }
        Ok(Self::spanning(lb, ub))
    }

    /// The interval between two tensors of one shape.
    pub(crate) fn spanning(lb: Tensor<S>, ub: Tensor<S>) -> (r: IBPTensor<S>)
        requires
            lb@.shape == ub@.shape,
        ensures
            r@ == between(lb@, ub@),
    {
        let is_point = same_values(&lb, &ub);
        IBPTensor { lb, ub, is_point }
    }

    /// The interval that holds one tensor.
    pub fn point(t: Tensor<S>) -> (r: IBPTensor<S>)
        ensures
            r@ == between(t@, t@),
    {
        let copy = t.dup();
        Self::spanning(copy, t)
    }

    /// The lower end.
    pub fn lb(&self) -> (r: &Tensor<S>)
        ensures
            r@ == self@.lb,
            self@.lb.shape == self@.ub.shape,
    {
        proof {
            use_type_invariant(self);
        }
        &self.lb
    }

    /// The upper end.
    pub fn ub(&self) -> (r: &Tensor<S>)
        ensures
            r@ == self@.ub,
            self@.lb.shape == self@.ub.shape,
    {
        proof {
            use_type_invariant(self);
        }
        &self.ub
    }

    /// Whether both ends are known to be equal.
    pub fn is_point(&self) -> (r: bool)
        ensures
            r == self@.is_point,
    {
        self.is_point
    }

    /// A copy.
    pub fn dup(&self) -> (r: IBPTensor<S>)
        ensures
            r@ == self@,
    {
        proof {
            use_type_invariant(self);
        }
        IBPTensor { lb: self.lb.dup(), ub: self.ub.dup(), is_point: self.is_point }
    }

    /// The interval of an elementwise operation, by its ends.
    fn zip_ends<F: Fn(S, S) -> S, G: Fn(S, S) -> S>(&self, f: F, g: G) -> (r: IBPTensor<S>)
        requires
            forall|x: S, y: S| call_requires(f, (x, y)),
            forall|x: S, y: S| call_requires(g, (x, y)),
        ensures
            r@.lb.shape == self@.lb.shape,
            r@.ub.shape == self@.lb.shape,
            r@.is_point == all_same(r@.lb, r@.ub),
            r@.lb.data.len() == self@.lb.data.len(),
            r@.ub.data.len() == self@.lb.data.len(),
            forall|k: int|
                0 <= k < r@.lb.data.len() ==> call_ensures(
                    f,
                    (self@.lb.data[k], self@.ub.data[k]),
                    #[trigger] r@.lb.data[k],
                ),
            forall|k: int|
                0 <= k < r@.ub.data.len() ==> call_ensures(
                    g,
                    (self@.lb.data[k], self@.ub.data[k]),
                    #[trigger] r@.ub.data[k],
                ),
    {
        proof {
            use_type_invariant(self);
        }
        let lb = zip_with(&self.lb, &self.ub, f);
        let ub = zip_with(&self.lb, &self.ub, g);
        Self::spanning(lb, ub)
    }

    /// The negation.
    fn ibp_neg(&self) -> (r: IBPTensor<S>)
        ensures
            un_interval(UnOpV::Neg, self@) == Ok::<IBPV<S>, Fault>(r@),
    {
        proof {
            use_type_invariant(self);
        }
        let f = |x: S| -> (y: S)
            ensures
                y == x.opposite(),
            { x.neg() };
        let lb = self.ub.mapv(f);
        let ub = self.lb.mapv(f);
        assert(lb@ =~= model::mapped(self@.ub, |v: S| v.opposite()));
        assert(ub@ =~= model::mapped(self@.lb, |v: S| v.opposite()));
        Self::spanning(lb, ub)
    }

    /// The squares.
    pub(crate) fn ibp_square(&self) -> (r: IBPTensor<S>)
        ensures
            un_interval(UnOpV::Square, self@) == Ok::<IBPV<S>, Fault>(r@),
    {
        let zero = scalar::number::<S>(0);
        let f = |l: S, u: S| -> (y: S)
            ensures
                y == square_low(l, u),
            {
                if zero.is_le(l) {
                    l.mul(l)
                } else if u.is_lt(zero) {
                    u.mul(u)
                } else {
                    zero
                }
            };
        let g = |l: S, u: S| -> (y: S)
            ensures
                y == square_high(l, u),
            {
                if zero.is_le(l) {
                    u.mul(u)
                } else if u.is_lt(zero) {
                    l.mul(l)
                } else {
                    l.mul(l).max_of(u.mul(u))
                }
            };
        let r = self.zip_ends(f, g);
        assert(r@.lb =~= zipped(self@.lb, self@.ub, |l: S, u: S| square_low(l, u)));
        assert(r@.ub =~= zipped(self@.lb, self@.ub, |l: S, u: S| square_high(l, u)));
        r
    }

    /// The reciprocals.
    pub(crate) fn ibp_reciprocal(&self) -> (r: IBPTensor<S>)
        ensures
            un_interval(UnOpV::Reciprocal, self@) == Ok::<IBPV<S>, Fault>(r@),
    {
        let zero = scalar::number::<S>(0);
        let one = scalar::number::<S>(1);
        let f = |l: S, u: S| -> (y: S)
            ensures
                y == reciprocal_low(l, u),
            {
                if l.is_le(zero) && zero.is_le(u) {
                    S::neg_infinity()
                } else {
                    one.div(u)
                }
            };
        let g = |l: S, u: S| -> (y: S)
            ensures
                y == reciprocal_high(l, u),
            {
                if l.is_le(zero) && zero.is_le(u) {
                    S::infinity()
                } else {
                    one.div(l)
                }
            };
        let r = self.zip_ends(f, g);
        assert(r@.lb =~= zipped(self@.lb, self@.ub, |l: S, u: S| reciprocal_low(l, u)));
        assert(r@.ub =~= zipped(self@.lb, self@.ub, |l: S, u: S| reciprocal_high(l, u)));
        r
    }

    /// The Gaussian error linear units.
    pub(crate) fn ibp_gelu(&self) -> (r: IBPTensor<S>)
        ensures
            un_interval(UnOpV::Gelu, self@) == Ok::<IBPV<S>, Fault>(r@),
    {
        let arg = S::from_ratio(-751791524693564, 1000000000000000);
        let min = S::from_ratio(-16997120747990366, 100000000000000000);
        let f = |l: S, u: S| -> (y: S)
            ensures
                y == gelu_low(l, u),
            {
                if arg.is_le(l) {
                    l.mul(scalar::normcdf(l))
                } else if u.is_lt(arg) {
                    u.mul(scalar::normcdf(u))
                } else {
                    min
                }
            };
        let g = |l: S, u: S| -> (y: S)
            ensures
                y == gelu_high(l, u),
            {
                if arg.is_le(l) {
                    u.mul(scalar::normcdf(u))
                } else if u.is_lt(arg) {
                    l.mul(scalar::normcdf(l))
                } else {
                    l.mul(scalar::normcdf(l)).max_of(u.mul(scalar::normcdf(u)))
                }
            };
        let r = self.zip_ends(f, g);
        assert(r@.lb =~= zipped(self@.lb, self@.ub, |l: S, u: S| gelu_low(l, u)));
        assert(r@.ub =~= zipped(self@.lb, self@.ub, |l: S, u: S| gelu_high(l, u)));
        r
    }

    /// An operation on one interval.
    pub fn unary(&self, op: &UnOp<S>) -> (r: Result<IBPTensor<S>, EvalError>)
        ensures
            interval_of(r) == un_interval(op@, self@),
    {
        proof {
            use_type_invariant(self);
        }
        match op {
            UnOp::Neg => Ok(self.ibp_neg()),
            UnOp::Square => Ok(self.ibp_square()),
            UnOp::Reciprocal => Ok(self.ibp_reciprocal()),
            UnOp::Gelu => Ok(self.ibp_gelu()),
            _ => {
                let lb = self.lb.unary(op)?;
                let ub = self.ub.unary(op)?;
                Ok(Self::spanning(lb, ub))
            },
        }
    }

    /// The hull of an operation at the four pairs of ends.
    fn hull(op: &BinOp, a: &IBPTensor<S>, b: &IBPTensor<S>) -> (r: Result<IBPTensor<S>, EvalError>)
        ensures
            interval_of(r) == corner_hull(op@, a@, b@),
    {
        proof {
            use_type_invariant(a);
            use_type_invariant(b);
        }
        let ll = a.lb.pairwise(op, &b.lb)?;
        let lu = a.lb.pairwise(op, &b.ub)?;
        let ul = a.ub.pairwise(op, &b.lb)?;
        let uu = a.ub.pairwise(op, &b.ub)?;
        Ok(Self::spanning(min4(&ll, &lu, &ul, &uu), max4(&ll, &lu, &ul, &uu)))
    }

    /// The interval of an operation that is linear in each operand.
    pub(crate) fn ibp_linear(op: &BinOp, a: &IBPTensor<S>, b: &IBPTensor<S>) -> (r: Result<
        IBPTensor<S>,
        EvalError,
    >)
        ensures
            interval_of(r) == linear_interval(op@, a@, b@),
    {
        proof {
            use_type_invariant(a);
            use_type_invariant(b);
        }
        let half = S::from_ratio(1, 2);
        let mid = |x: S, y: S| -> (z: S)
            ensures
                z == x.plus(y).times(scalar::half()),
            { x.add(y).mul(half) };
        let ran = |x: S, y: S| -> (z: S)
            ensures
                z == x.minus(y).times(scalar::half()),
            { x.sub(y).mul(half) };
        let abs = |x: S| -> (y: S)
            ensures
                y == x.magnitude(),
            { x.abs() };
        if a.is_point {
            let ym = zip_with(&b.ub, &b.lb, mid);
            assert(ym@ =~= middle(b@.ub, b@.lb));
            let yr = zip_with(&b.ub, &b.lb, ran);
            assert(yr@ =~= radius(b@.ub, b@.lb));
            let m = a.lb.pairwise(op, &ym)?;
            let xa = a.lb.mapv(abs);
            assert(xa@ =~= magnitudes(a@.lb));
            let r = xa.pairwise(op, &yr)?;
            Ok(Self::spanning(minus_of(&m, &r), plus_of(&m, &r)))
        } else if b.is_point {
            let xm = zip_with(&a.lb, &a.ub, mid);
            assert(xm@ =~= middle(a@.lb, a@.ub));
            let xr = zip_with(&a.ub, &a.lb, ran);
            assert(xr@ =~= radius(a@.ub, a@.lb));
            let m = xm.pairwise(op, &b.lb)?;
            let ya = b.lb.mapv(abs);
            assert(ya@ =~= magnitudes(b@.lb));
            let r = xr.pairwise(op, &ya)?;
            Ok(Self::spanning(minus_of(&m, &r), plus_of(&m, &r)))
        } else {
            Self::hull(op, a, b)
        }
    }

    /// An operation on two intervals.
    pub fn pairwise(&self, op: &BinOp, b: &IBPTensor<S>) -> (r: Result<IBPTensor<S>, EvalError>)
        ensures
            interval_of(r) == bin_interval(op@, self@, b@),
    {
        proof {
            use_type_invariant(self);
            use_type_invariant(b);
        }
        match op {
            BinOp::Add => {
                let lb = self.lb.add(&b.lb)?;
                let ub = self.ub.add(&b.ub)?;
                Ok(IBPTensor { lb, ub, is_point: self.is_point && b.is_point })
            },
            BinOp::Mul => Self::hull(op, self, b),
            BinOp::Dot | BinOp::Conv(_) => Self::ibp_linear(op, self, b),
            BinOp::ConvKernelGrad(_, _) => Err(EvalError::Unsupported),
        }
    }

    /// The selection between two intervals by a third.
    pub fn ibp_where(condition: &IBPTensor<S>, x: &IBPTensor<S>, y: &IBPTensor<S>) -> (r: Result<
        IBPTensor<S>,
        EvalError,
    >)
        ensures
            interval_of(r) == select_interval(condition@, x@, y@),
    {
        proof {
            use_type_invariant(condition);
            use_type_invariant(x);
            use_type_invariant(y);
        }
        if condition.is_point {
            let lb = Tensor::select(&condition.lb, &x.lb, &y.lb)?;
            let ub = Tensor::select(&condition.ub, &x.ub, &y.ub)?;
            return Ok(Self::spanning(lb, ub));
        }
        let ll = Tensor::select(&condition.lb, &x.lb, &y.lb)?;
        let lu = Tensor::select(&condition.lb, &x.ub, &y.ub)?;
        let rl = Tensor::select(&condition.ub, &x.lb, &y.lb)?;
        let ru = Tensor::select(&condition.ub, &x.ub, &y.ub)?;
        let f = |a: S, b: S| -> (z: S)
            ensures
                z == a.smaller(b),
            { a.min_of(b) };
        let g = |a: S, b: S| -> (z: S)
            ensures
                z == a.larger(b),
            { a.max_of(b) };
        let lb = zip_with(&ll, &rl, f);
        assert(lb@ =~= zipped(ll@, rl@, |a: S, b: S| a.smaller(b)));
        let ub = zip_with(&lu, &ru, g);
        assert(ub@ =~= zipped(lu@, ru@, |a: S, b: S| a.larger(b)));
        Ok(Self::spanning(lb, ub))
    }
}

impl<S: Scalar> Clone for IBPTensor<S> {
    fn clone(&self) -> (r: IBPTensor<S>)
        ensures
            r@ == self@,
    {
        self.dup()
    }
}

impl<S: Scalar> Value<S> for IBPTensor<S> {
    type M = IBPV<S>;

    type Cx = ();

    type C = ();

    open spec fn m(&self) -> IBPV<S> {
        self@
    }

    open spec fn c(cx: &()) -> () {
        ()
    }

    open spec fn shape_of(m: IBPV<S>) -> Seq<usize> {
        m.lb.shape
    }

    open spec fn constant(t: TensorV<S>) -> IBPV<S> {
        between(t, t)
    }

    open spec fn tensor_of(m: IBPV<S>) -> Option<TensorV<S>> {
        None
    }

    open spec fn unary(c: (), op: UnOpV<S>, a: IBPV<S>) -> ((), Result<IBPV<S>, Fault>) {
        ((), un_interval(op, a))
    }

    open spec fn binary(c: (), op: BinOpV, a: IBPV<S>, b: IBPV<S>) -> (
        (),
        Result<IBPV<S>, Fault>,
    ) {
        ((), bin_interval(op, a, b))
    }

    open spec fn select(c: (), p: IBPV<S>, x: IBPV<S>, y: IBPV<S>) -> (
        (),
        Result<IBPV<S>, Fault>,
    ) {
        ((), select_interval(p, x, y))
    }

    fn dims(&self) -> (r: &[usize]) {
        self.lb.shape()
    }

    fn copy(&self) -> (r: Self) {
        self.dup()
    }

    fn lift(t: Tensor<S>) -> (r: Self) {
        IBPTensor::point(t)
    }

    fn as_tensor(&self) -> (r: Option<&Tensor<S>>) {
        None
    }

    fn apply1(&self, op: &UnOp<S>, cx: &mut ()) -> (r: Result<Self, EvalError>) {
        IBPTensor::unary(self, op)
    }

    fn apply2(&self, op: &BinOp, b: &Self, cx: &mut ()) -> (r: Result<Self, EvalError>) {
        self.pairwise(op, b)
    }

    fn apply3(p: &Self, x: &Self, y: &Self, cx: &mut ()) -> (r: Result<Self, EvalError>) {
        IBPTensor::ibp_where(p, x, y)
    }
}

/// Propagates intervals through a graph.
pub struct IBPInterpreter {}

impl IBPInterpreter {
    /// The interval of the result of one operation.
    pub fn process_primitive<S: Scalar>(primitive: &Primitive<S>, env: &Env<IBPTensor<S>>) -> (r:
        Result<IBPTensor<S>, EvalError>)
        ensures
            value::result::<S, IBPTensor<S>>(r) == eval::prim_value::<S, IBPTensor<S>>(
                (),
                env::scope::<S, IBPTensor<S>>(env@),
                primitive@,
            ).1,
    {
        let mut cx: () = ();
        EvalGenInterpreter::process_primitive::<S, IBPTensor<S>>(primitive, env, &mut cx)
    }
}

impl<S: Scalar> Interpreter<S, IBPTensor<S>> for IBPInterpreter {
    open spec fn meaning(g: GraphV<S>, inputs: Seq<IBPV<S>>) -> Result<Seq<IBPV<S>>, Fault> {
        eval::evaluated::<S, IBPTensor<S>>((), g, inputs).1
    }

    fn run(graph: &ComputeGraph<S>, inputs: &Vec<IBPTensor<S>>) -> (r: Result<
        Vec<IBPTensor<S>>,
        EvalError,
    >) {
        let mut cx: () = ();
        EvalGenInterpreter::run::<S, IBPTensor<S>>(graph, inputs, &mut cx)
    }
}

} // verus!
