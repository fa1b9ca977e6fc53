//! Tensors.

use vstd::prelude::*;
use crate::error::EvalError;
use crate::model;
use crate::model::{Fault, TensorV};
use crate::scalar;
use crate::scalar::Scalar;
use crate::shape;

verus! {

/// A dense tensor in row-major order.
#[derive(Debug, PartialEq)]
pub struct Tensor<S> {
    shape: Vec<usize>,
    data: Vec<S>,
}

impl<S> View for Tensor<S> {
    type V = TensorV<S>;

    closed spec fn view(&self) -> TensorV<S> {
        TensorV { shape: self.shape@, data: self.data@ }
    }
}

impl<S> Tensor<S> {
    #[verifier::type_invariant]
    spec fn inv(self) -> bool {
        self@.wf()
    }
}

/// A result that holds a tensor, over mathematical tensors.
pub open spec fn outcome<S>(r: Result<Tensor<S>, EvalError>) -> Result<TensorV<S>, Fault> {
    match r {
        Ok(t) => Ok(t@),
        Err(e) => Err(e@),
    }
}

/// A copy of a list of lengths.
pub fn copy_of(v: &[usize]) -> (r: Vec<usize>)
    ensures
        r@ == v@,
{
    let mut out: Vec<usize> = Vec::new();
    for i in 0..v.len()
        invariant
            out@ == v@.subrange(0, i as int),
    {
        out.push(v[i]);
    }
    assert(out@ =~= v@);
    out
}

impl<S: Scalar> Tensor<S> {
    /// The tensor with the given shape and elements. A shape that no tensor can have and an
    /// element count that does not match the shape are errors.
    pub fn from_shape_vec(shape: Vec<usize>, data: Vec<S>) -> (r: Result<Tensor<S>, EvalError>)
        ensures
            outcome(r) == (if !shape::fits(shape@) {
                Err(Fault::Size)
            } else if data@.len() != shape::product(shape@) {
                Err(Fault::Reshape)
            } else {
                Ok(TensorV { shape: shape@, data: data@ })
            }),
    {
        if !shape::check_fits(&shape) {
            return Err(EvalError::Size);
        }
        let n = shape.len();
        let size = shape::size_of(&shape, 0, n);
        assert(shape@.subrange(0, n as int) =~= shape@);
        if data.len() != size {
            return Err(EvalError::Reshape);
        }
        Ok(Tensor { shape, data })
    }

    /// The tensor with the given shape and elements.
    pub(crate) fn make(shape: Vec<usize>, data: Vec<S>) -> (r: Tensor<S>)
        requires
            (TensorV { shape: shape@, data: data@ }).wf(),
        ensures
            r@ == (TensorV { shape: shape@, data: data@ }),
    {
        Tensor { shape, data }
    }

    /// The tensor without axes that holds `x`.
    pub fn from_scalar(x: S) -> (r: Tensor<S>)
        ensures
            r@ == model::scalar_tensor(x),
    {
        let shape: Vec<usize> = Vec::new();
        let data: Vec<S> = vec![x];
        assert(data@ =~= seq![x]);
        Tensor { shape, data }
    }

    /// The tensor of the given shape whose elements are all `x`.
    pub fn from_elem(shape: Vec<usize>, x: S) -> (r: Result<Tensor<S>, EvalError>)
        ensures
            outcome(r) == (if shape::fits(shape@) {
                Ok(model::filled(shape@, x))
            } else {
                Err(Fault::Size)
            }),
    {
        if !shape::check_fits(&shape) {
            return Err(EvalError::Size);
        }
        let n = shape.len();
        let size = shape::size_of(&shape, 0, n);
        assert(shape@.subrange(0, n as int) =~= shape@);
        let mut data: Vec<S> = Vec::new();
        for i in 0..size
            invariant
                data@ == Seq::new(i as nat, |k: int| x),
        {
            data.push(x);
            assert(data@ =~= Seq::new((i + 1) as nat, |k: int| x));
        }
        Ok(Tensor { shape, data })
    }

    /// The axis lengths.
    pub fn shape(&self) -> (r: &[usize])
        ensures
            r@ == self@.shape,
            self@.wf(),
    {
        proof {
            use_type_invariant(self);
        }
        &self.shape
    }

    /// The number of axes.
    pub fn ndim(&self) -> (r: usize)
        ensures
            r == self@.shape.len(),
    {
        self.shape.len()
    }

    /// The number of elements.
    pub fn len(&self) -> (r: usize)
        ensures
            r == self@.data.len(),
            r == shape::product(self@.shape),
            r <= isize::MAX,
    {
        proof {
            use_type_invariant(self);
            shape::lemma_volume_bounds(self.shape@);
        }
        self.data.len()
    }

    /// The elements in row-major order.
    pub fn values(&self) -> (r: &[S])
        ensures
            r@ == self@.data,
            self@.wf(),
    {
        proof {
            use_type_invariant(self);
        }
        &self.data
    }

    /// The elements in row-major order.
    pub fn into_inner(self) -> (r: Vec<S>)
        ensures
            r@ == self@.data,
    {
        let Tensor { shape, data } = self;
        data
    }

    /// The element at the given coordinates, if they lie in the tensor.
    pub fn get(&self, coordinates: &[usize]) -> (r: Option<S>)
        ensures
            r == (if shape::in_shape(coordinates@, self@.shape) {
                Some(self@.data[shape::ravel(coordinates@, self@.shape)])
            } else {
                None
            }),
    {
        proof {
            use_type_invariant(self);
        }
        if coordinates.len() != self.shape.len() {
            return None;
        }
        for i in 0..coordinates.len()
            invariant
                coordinates@.len() == self.shape@.len(),
                forall|j: int| 0 <= j < i ==> #[trigger] coordinates@[j] < self.shape@[j],
        {
            if coordinates[i] >= self.shape[i] {
                return None;
            }
        }
        let k = shape::multi_to_flat(coordinates, &self.shape);
        Some(self.data[k])
    }

    /// A copy.
    pub fn dup(&self) -> (r: Tensor<S>)
        ensures
            r@ == self@,
    {
        proof {
            use_type_invariant(self);
        }
        let mut data: Vec<S> = Vec::new();
        for i in 0..self.data.len()
            invariant
                data@ == self.data@.subrange(0, i as int),
        {
            data.push(self.data[i]);
        }
        assert(data@ =~= self.data@);
        Tensor { shape: copy_of(&self.shape), data }
    }

    /// The tensor with `f` applied to every element.
    pub fn mapv<F: Fn(S) -> S>(&self, f: F) -> (r: Tensor<S>)
        requires
            forall|x: S| call_requires(f, (x,)),
        ensures
            r@.shape == self@.shape,
            r@.data.len() == self@.data.len(),
            forall|k: int|
                0 <= k < r@.data.len() ==> call_ensures(f, (self@.data[k],), #[trigger] r@.data[k]),
    {
        proof {
            use_type_invariant(self);
        }
        let mut data: Vec<S> = Vec::new();
        for i in 0..self.data.len()
            invariant
                forall|x: S| call_requires(f, (x,)),
                data@.len() == i,
                forall|k: int|
                    0 <= k < i ==> call_ensures(f, (self.data@[k],), #[trigger] data@[k]),
        {
            data.push(f(self.data[i]));
        }
        Tensor { shape: copy_of(&self.shape), data }
    }

    /// The sum of all elements, from the first on.
    pub fn sum(&self) -> (r: S)
        ensures
            r == model::total(self@.data, self@.data.len()),
    {
        let mut acc: S = scalar::number::<S>(0);
        for i in 0..self.data.len()
            invariant
                acc == model::total(self.data@, i as nat),
        {
            acc = acc.add(self.data[i]);
        }
        acc
    }

    /// The elements that are not negative, zero elsewhere.
    pub fn pos_part(&self) -> (r: Tensor<S>)
        ensures
            r@ == model::mapped(self@, |x: S| scalar::nonneg_part(x)),
    {
        let zero = scalar::number::<S>(0);
        let part = |x: S| -> (y: S)
            ensures
                y == scalar::nonneg_part(x),
            {
                if zero.is_le(x) {
                    x
                } else {
                    zero
                }
            };
        let r = self.mapv(part);
        assert(r@ =~= model::mapped(self@, |x: S| scalar::nonneg_part(x)));
        r
    }

    /// The elements that are negative, zero elsewhere.
    pub fn neg_part(&self) -> (r: Tensor<S>)
        ensures
            r@ == model::mapped(self@, |x: S| scalar::neg_part(x)),
    {
        let zero = scalar::number::<S>(0);
        let part = |x: S| -> (y: S)
            ensures
                y == scalar::neg_part(x),
            {
                if x.is_lt(zero) {
                    x
                } else {
                    zero
                }
            };
        let r = self.mapv(part);
        assert(r@ =~= model::mapped(self@, |x: S| scalar::neg_part(x)));
        r
    }
}

impl<S: Scalar> Clone for Tensor<S> {
    fn clone(&self) -> (r: Tensor<S>)
        ensures
            r@ == self@,
    {
        self.dup()
    }
}

/// Elementwise binary op with numpy broadcasting. Shapes that do not broadcast are an error.
pub fn binary<S: Scalar, F: Fn(S, S) -> S>(a: &Tensor<S>, b: &Tensor<S>, f: F) -> (r: Result<
    Tensor<S>,
    EvalError,
>)
    requires
        forall|x: S, y: S| call_requires(f, (x, y)),
    ensures
        match (r, model::broadcast_sized(a@.shape, b@.shape)) {
            (Ok(t), Ok(s)) => {
                &&& t@.shape == s
                &&& t@.data.len() == shape::product(s)
                &&& forall|k: int|
                    0 <= k < t@.data.len() ==> call_ensures(
                        f,
                        (
                            a@.data[shape::source_index(k, s, a@.shape)],
                            b@.data[shape::source_index(k, s, b@.shape)],
                        ),
                        #[trigger] t@.data[k],
                    )
            },
            (Err(e), Err(g)) => e@ == g,
            _ => false,
        },
{
    proof {
        use_type_invariant(a);
        use_type_invariant(b);
    }
    let s = match shape::broadcast_shape(&a.shape, &b.shape) {
        Some(s) => s,
        None => {
            return Err(EvalError::Broadcast);
        },
    };
    if !shape::check_fits(&s) {
        return Err(EvalError::Size);
    }
    let n = s.len();
    let size = shape::size_of(&s, 0, n);
    proof {
        assert(s@.subrange(0, n as int) =~= s@);
        shape::lemma_broadcast_expands(a.shape@, b.shape@);
    }
    let mut data: Vec<S> = Vec::new();
    for k in 0..size
        invariant
            forall|x: S, y: S| call_requires(f, (x, y)),
            size == shape::product(s@),
            a@.wf(),
            b@.wf(),
            shape::expands_to(a.shape@, s@),
            shape::expands_to(b.shape@, s@),
            data@.len() == k,
            forall|j: int|
                0 <= j < k ==> call_ensures(
                    f,
                    (
                        a.data@[shape::source_index(j, s@, a.shape@)],
                        b.data@[shape::source_index(j, s@, b.shape@)],
                    ),
                    #[trigger] data@[j],
                ),
    {
        let i = shape::broadcast_index(k, &s, &a.shape);
        let j = shape::broadcast_index(k, &s, &b.shape);
        data.push(f(a.data[i], b.data[j]));
    }
    Ok(Tensor { shape: s, data })
}

} // verus!
