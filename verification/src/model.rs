//! What the tensor operations compute: the shape and the elements of every result, over
//! mathematical tensors.

use vstd::prelude::*;
use crate::scalar;
use crate::scalar::Scalar;
use crate::shape;

verus! {

/// A mathematical tensor: its axis lengths, and its elements in row-major order.
#[verifier::ext_equal]
pub struct TensorV<S> {
    pub shape: Seq<usize>,
    pub data: Seq<S>,
}

/// Why an operation has no result.
pub enum Fault {
    /// A variable is not bound.
    Undefined(Seq<char>),
    /// An output variable is not bound after the last equation.
    NeverComputed(Seq<char>),
    /// Shapes that do not broadcast.
    Broadcast,
    /// Contracted axes of different lengths.
    Dot,
    /// A reshape that changes the number of elements.
    Reshape,
    /// A convolution of tensors that are not of rank four.
    ConvRank,
    /// A convolution of tensors with different channel counts.
    ConvChannels,
    /// A pooling window or stride of another rank than the tensor.
    PoolRank,
    /// An axis number out of range.
    Axis,
    /// A slice with step zero.
    Step,
    /// A window that leaves the tensor, or a stride of zero.
    Window,
    /// A result with more elements than a tensor can hold.
    Size,
    /// An interval whose ends have different shapes.
    Interval,
    /// A primitive that is no activation function.
    NotActivation,
    /// An operation that the interpreter does not handle.
    Unsupported,
    /// A graph of another form than the interpreter handles.
    Graph,
    /// A division or split that needs at least one element.
    Empty,
    /// An interval on which a function has no linear relaxation.
    Domain,
}

/// Padding: `left` and `right` elements at the ends and `interior` ones between neighbours,
/// along the listed axes, all equal to `value`.
#[verifier::ext_equal]
pub struct PadV<S> {
    pub left: usize,
    pub right: usize,
    pub interior: usize,
    pub axes: Seq<isize>,
    pub value: S,
}

/// An operation on one tensor.
#[verifier::ext_equal]
pub enum UnOpV<S> {
    Neg,
    Reciprocal,
    Square,
    Sqrt,
    Exp,
    Log,
    Relu,
    LeakyRelu(S),
    Elu(S),
    Gelu,
    NormalCdf,
    ReduceSum(Seq<isize>),
    ExpandDims(Seq<isize>),
    MoveAxis(isize, isize),
    Reshape(Seq<isize>),
    Slice(isize, isize, Option<isize>, isize),
    Pad(PadV<S>),
    Pool(Seq<usize>, Seq<usize>, bool),
}

/// An operation on two tensors.
#[verifier::ext_equal]
pub enum BinOpV {
    Add,
    Mul,
    Dot,
    Conv(isize),
    ConvKernelGrad(isize, Seq<usize>),
}

impl<S> TensorV<S> {
    /// The element count matches the shape, and the shape is one a tensor can have.
    pub open spec fn wf(self) -> bool {
        &&& self.data.len() == shape::product(self.shape)
        &&& shape::fits(self.shape)
    }
}

/// The tensor without axes that holds one number.
pub open spec fn scalar_tensor<S>(x: S) -> TensorV<S> {
    TensorV { shape: Seq::empty(), data: seq![x] }
}

/// The tensor of the given shape whose elements are all `x`.
pub open spec fn filled<S>(s: Seq<usize>, x: S) -> TensorV<S> {
    TensorV { shape: s, data: Seq::new(shape::product(s), |k: int| x) }
}

/// `Ok(s)` if a tensor can have the shape `s`.
pub open spec fn sized(s: Seq<usize>) -> Result<Seq<usize>, Fault> {
    if shape::fits(s) {
        Ok(s)
    } else {
        Err(Fault::Size)
    }
}

/// The sum of the first `n` elements.
pub open spec fn total<S: Scalar>(data: Seq<S>, n: nat) -> S
    decreases n,
{
    if n == 0 {
        scalar::zero()
    } else {
        total(data, (n - 1) as nat).plus(data[n - 1])
    }
}

/// The tensor with `f` applied to every element.
pub open spec fn mapped<S>(t: TensorV<S>, f: spec_fn(S) -> S) -> TensorV<S> {
    TensorV { shape: t.shape, data: Seq::new(t.data.len(), |k: int| f(t.data[k])) }
}

// ---- elementwise operations ----
/// Whether an operation acts on each element by itself.
pub open spec fn is_pointwise<S>(op: UnOpV<S>) -> bool {
    match op {
        UnOpV::Neg
        | UnOpV::Reciprocal
        | UnOpV::Square
        | UnOpV::Sqrt
        | UnOpV::Exp
        | UnOpV::Log
        | UnOpV::Relu
        | UnOpV::LeakyRelu(_)
        | UnOpV::Elu(_)
        | UnOpV::Gelu
        | UnOpV::NormalCdf => true,
        _ => false,
    }
}

/// What an elementwise operation does to one element.
pub open spec fn at_point<S: Scalar>(op: UnOpV<S>, x: S) -> S {
    match op {
        UnOpV::Neg => x.opposite(),
        UnOpV::Reciprocal => x.inverse(),
        UnOpV::Square => x.times(x),
        UnOpV::Sqrt => x.root(),
        UnOpV::Exp => x.exponential(),
        UnOpV::Log => x.logarithm(),
        UnOpV::Relu => scalar::rectify(x),
        UnOpV::LeakyRelu(slope) => scalar::leaky(slope, x),
        UnOpV::Elu(slope) => scalar::elu_of(slope, x),
        UnOpV::Gelu => scalar::gelu_of(x),
        UnOpV::NormalCdf => scalar::cdf(x),
        _ => x,
    }
}

// ---- reductions ----
/// Whether one of `axes` names axis `i` of a tensor of rank `n`.
pub open spec fn names_axis(axes: Seq<isize>, n: int, i: int) -> bool {
    exists|j: int| 0 <= j < axes.len() && shape::norm_axis(#[trigger] axes[j] as int, n) == i
}

/// Whether each of `axes` names an axis of a tensor of rank `n`.
pub open spec fn axes_ok(axes: Seq<isize>, n: int) -> bool {
    forall|j: int| 0 <= j < axes.len() ==> shape::axis_ok(#[trigger] axes[j] as int, n)
}

/// The sum of the first `n` elements that lie on the line through element `q` of the result,
/// along an axis of length `a` with `inner` elements behind it.
pub open spec fn line_sum<S: Scalar>(data: Seq<S>, a: int, inner: int, q: int, n: nat) -> S
    decreases n,
{
    if n == 0 {
        scalar::zero()
    } else {
        line_sum(data, a, inner, q, (n - 1) as nat).plus(
            data[((q / inner) * a + (n - 1)) * inner + q % inner],
        )
    }
}

/// The number of elements behind axis `ax`.
pub open spec fn inner_size(s: Seq<usize>, ax: int) -> nat {
    shape::product(s.subrange(ax + 1, s.len() as int))
}

/// The number of elements before axis `ax`.
pub open spec fn outer_size(s: Seq<usize>, ax: int) -> nat {
    shape::product(s.subrange(0, ax))
}

/// The tensor summed along axis `ax`, which disappears.
pub open spec fn sum_axis<S: Scalar>(t: TensorV<S>, ax: int) -> TensorV<S> {
    let s = t.shape.remove(ax);
    TensorV {
        shape: s,
        data: Seq::new(
            shape::product(s),
            |q: int|
                line_sum(
                    t.data,
                    t.shape[ax] as int,
                    inner_size(t.shape, ax) as int,
                    q,
                    t.shape[ax] as nat,
                ),
        ),
    }
}

/// The tensor summed along those of its first `k` axes that are named, from the last one on.
pub open spec fn sum_axes<S: Scalar>(t: TensorV<S>, axes: Seq<isize>, n: int, k: nat) -> TensorV<S>
    decreases k,
{
    if k == 0 {
        t
    } else {
        let u = if names_axis(axes, n, k - 1) {
            sum_axis(t, k - 1)
        } else {
            t
        };
        sum_axes(u, axes, n, (k - 1) as nat)
    }
}

/// The shape without those of its first `k` axes that are named.
pub open spec fn drop_axes(s: Seq<usize>, axes: Seq<isize>, n: int, k: nat) -> Seq<usize>
    decreases k,
{
    if k == 0 {
        s
    } else {
        let u = if names_axis(axes, n, k - 1) {
            s.remove(k - 1)
        } else {
            s
        };
        drop_axes(u, axes, n, (k - 1) as nat)
    }
}

// ---- shape manipulation ----
/// The number of positions below `i` that none of `axes` names in rank `n`.
pub open spec fn unnamed_below(axes: Seq<isize>, n: int, i: nat) -> nat
    decreases i,
{
    if i == 0 {
        0
    } else {
        unnamed_below(axes, n, (i - 1) as nat) + (if names_axis(axes, n, i - 1) {
            0nat
        } else {
            1nat
        })
    }
}

/// The shape with axes of length one at the named positions of the result.
pub open spec fn expanded(s: Seq<usize>, axes: Seq<isize>) -> Seq<usize> {
    let n = (s.len() + axes.len()) as int;
    Seq::new(
        n as nat,
        |i: int|
            if names_axis(axes, n, i) {
                1
            } else {
                s[unnamed_below(axes, n, i as nat) as int]
            },
    )
}

/// Whether the positions name distinct axes of the expanded shape.
pub open spec fn expand_ok(s: Seq<usize>, axes: Seq<isize>) -> bool {
    let n = (s.len() + axes.len()) as int;
    axes_ok(axes, n) && unnamed_below(axes, n, n as nat) == s.len()
}

/// The product of the lengths in `d` that are given, not inferred.
pub open spec fn known_size(d: Seq<isize>) -> nat
    decreases d.len(),
{
    if d.len() == 0 {
        1
    } else if d.last() < 0 {
        known_size(d.drop_last())
    } else {
        known_size(d.drop_last()) * (d.last() as nat)
    }
}

/// The axis length that is inferred for `total` elements beside `known` given ones.
pub open spec fn inferred(total: nat, known: nat) -> usize {
    if known == 0 {
        0
    } else {
        (total / known) as usize
    }
}

/// The shape that `d` asks for, with negative lengths inferred.
pub open spec fn resolved(d: Seq<isize>, total: nat) -> Seq<usize> {
    Seq::new(
        d.len(),
        |i: int|
            if d[i] < 0 {
                inferred(total, known_size(d))
            } else {
                d[i] as usize
            },
    )
}

/// The shape with axis `a` taken out and put back at position `b`.
pub open spec fn moved(s: Seq<usize>, a: int, b: int) -> Seq<usize> {
    s.remove(a).insert(b, s[a])
}

/// The first of the two neighbouring blocks of axes that change places when axis `a` moves to
/// `b`, by its size.
pub open spec fn first_block(s: Seq<usize>, a: int, b: int) -> nat {
    if a <= b {
        s[a] as nat
    } else {
        shape::product(s.subrange(b, a))
    }
}

/// The second of these blocks.
pub open spec fn second_block(s: Seq<usize>, a: int, b: int) -> nat {
    if a <= b {
        shape::product(s.subrange(a + 1, b + 1))
    } else {
        s[a] as nat
    }
}

/// The size of the axes behind these blocks.
pub open spec fn behind_blocks(s: Seq<usize>, a: int, b: int) -> nat {
    if a <= b {
        shape::product(s.subrange(b + 1, s.len() as int))
    } else {
        shape::product(s.subrange(a + 1, s.len() as int))
    }
}

/// The flat index that is read at `r` when blocks of sizes `p` and `q` change places.
pub open spec fn swapped_index(r: int, p: int, q: int, inner: int) -> int {
    let i = r % inner;
    let x = r / inner;
    let (b, y) = (x % p, x / p);
    let (c, o) = (y % q, y / q);
    ((o * p + b) * q + c) * inner + i
}

/// The elements after axis `a` has moved to position `b`.
pub open spec fn moved_data<S>(t: TensorV<S>, a: int, b: int) -> Seq<S> {
    Seq::new(
        shape::product(t.shape),
        |r: int|
            t.data[swapped_index(
                r,
                first_block(t.shape, a, b) as int,
                second_block(t.shape, a, b) as int,
                behind_blocks(t.shape, a, b) as int,
            )],
    )
}

/// The first index of the slice `start:..:step` of an axis of length `len`.
pub open spec fn slice_first(len: int, start: int, step: int) -> int {
    let s = if start < 0 {
        start + len
    } else {
        start
    };
    let low: int = if step < 0 {
        -1
    } else {
        0
    };
    let high = if step < 0 {
        len - 1
    } else {
        len
    };
    if s < low {
        low
    } else if s > high {
        high
    } else {
        s
    }
}

/// The index at which the slice `..:end:step` of an axis of length `len` stops.
pub open spec fn slice_stop(len: int, end: Option<isize>, step: int) -> int {
    match end {
        Some(e) => slice_first(len, e as int, step),
        None => if step < 0 {
            -1
        } else {
            len
        },
    }
}

/// The number of indices in the slice `start:end:step` of an axis of length `len`.
pub open spec fn slice_count(len: int, start: int, end: Option<isize>, step: int) -> int {
    let a = slice_first(len, start, step);
    let b = slice_stop(len, end, step);
    if step > 0 {
        if a < b {
            (b - a + step - 1) / step
        } else {
            0
        }
    } else {
        if b < a {
            (a - b + (-step) - 1) / (-step)
        } else {
            0
        }
    }
}

/// The flat index that is read at `r` by a slice that starts at `first`, of `count` elements
/// `step` apart, along an axis of length `len`.
pub open spec fn slice_index(r: int, len: int, inner: int, first: int, count: int, step: int) -> int {
    ((r / inner / count) * len + first + (r / inner % count) * step) * inner + r % inner
}

/// The elements of the slice `start:end:step` along axis `ax`.
pub open spec fn slice_data<S>(
    t: TensorV<S>,
    ax: int,
    start: int,
    end: Option<isize>,
    step: int,
) -> Seq<S> {
    let len = t.shape[ax] as int;
    let count = slice_count(len, start, end, step);
    Seq::new(
        shape::product(t.shape.update(ax, count as usize)),
        |r: int|
            t.data[slice_index(
                r,
                len,
                inner_size(t.shape, ax) as int,
                slice_first(len, start, step),
                count,
                step,
            )],
    )
}

/// The length of a padded axis of length `d`.
pub open spec fn padded_len<S>(p: PadV<S>, d: usize) -> int {
    p.left + d + (if d == 0 {
        0
    } else {
        (d - 1) * p.interior
    }) + p.right
}

/// The length of axis `i` after padding.
pub open spec fn pad_len<S>(p: PadV<S>, s: Seq<usize>, i: int) -> int {
    if names_axis(p.axes, s.len() as int, i) {
        padded_len(p, s[i])
    } else {
        s[i] as int
    }
}

/// The shape after padding.
pub open spec fn pad_shape<S>(p: PadV<S>, s: Seq<usize>) -> Result<Seq<usize>, Fault> {
    let out = Seq::new(s.len(), |i: int| pad_len(p, s, i) as usize);
    if forall|i: int| 0 <= i < s.len() ==> #[trigger] pad_len(p, s, i) <= usize::MAX {
        sized(out)
    } else {
        Err(Fault::Size)
    }
}

/// The coordinate along an axis of length `d` that stands at coordinate `c` of the padded axis,
/// if one does.
pub open spec fn pad_coordinate<S>(p: PadV<S>, c: int, d: int, is_padded: bool) -> Option<int> {
    if !is_padded {
        Some(c)
    } else if c >= p.left && (c - p.left) % (p.interior + 1) == 0 && (c - p.left) / (p.interior + 1)
        < d {
        Some((c - p.left) / (p.interior + 1))
    } else {
        None
    }
}

/// The coordinate along axis `i` of a tensor of shape `s` that stands at the coordinates `m` of
/// the padded tensor, if one does.
pub open spec fn pad_axis<S>(p: PadV<S>, m: Seq<usize>, s: Seq<usize>, i: int) -> Option<int> {
    pad_coordinate(p, m[i] as int, s[i] as int, names_axis(p.axes, s.len() as int, i))
}

/// Whether an element of a tensor of shape `s` stands at the coordinates `m` of the padded
/// tensor.
pub open spec fn pad_hit<S>(p: PadV<S>, m: Seq<usize>, s: Seq<usize>) -> bool {
    forall|i: int| 0 <= i < s.len() ==> (#[trigger] pad_axis(p, m, s, i)) is Some
}

/// The coordinates of that element.
pub open spec fn pad_coordinates<S>(p: PadV<S>, m: Seq<usize>, s: Seq<usize>) -> Seq<usize> {
    Seq::new(s.len(), |i: int| (pad_axis(p, m, s, i)->0) as usize)
}

/// The elements of the padded tensor, of shape `out`.
pub open spec fn pad_data<S>(p: PadV<S>, t: TensorV<S>, out: Seq<usize>) -> Seq<S> {
    Seq::new(
        shape::product(out),
        |k: int|
            if pad_hit(p, shape::unravel(k, out), t.shape) {
                t.data[shape::ravel(
                    pad_coordinates(p, shape::unravel(k, out), t.shape),
                    t.shape,
                )]
            } else {
                p.value
            },
    )
}

// ---- members of a stack ----
/// The part of a tensor at index `i` of axis `ax`, which disappears.
pub open spec fn indexed<S>(t: TensorV<S>, ax: int, i: int) -> TensorV<S> {
    let s = t.shape.remove(ax);
    let inner = inner_size(t.shape, ax) as int;
    TensorV {
        shape: s,
        data: Seq::new(
            shape::product(s),
            |q: int| t.data[((q / inner) * t.shape[ax] + i) * inner + q % inner],
        ),
    }
}

/// Tensors of one shape on top of each other, along a new first axis.
pub open spec fn stacked<S>(ts: Seq<TensorV<S>>) -> Result<TensorV<S>, Fault> {
    if ts.len() == 0 {
        Err(Fault::Empty)
    } else if exists|i: int| 0 <= i < ts.len() && (#[trigger] ts[i]).shape != ts[0].shape {
        Err(Fault::Broadcast)
    } else {
        let s = ts[0].shape;
        let p = shape::product(s) as int;
        match sized(seq![ts.len() as usize] + s) {
            Ok(out) => Ok(
                TensorV {
                    shape: out,
                    data: Seq::new(shape::product(out), |r: int| ts[r / p].data[r % p]),
                },
            ),
            Err(f) => Err(f),
        }
    }
}

// ---- pooling ----
/// Whether every window lies in the tensor and moves.
pub open spec fn windows_ok(s: Seq<usize>, window: Seq<usize>, stride: Seq<usize>) -> bool {
    forall|i: int| 0 <= i < s.len() ==> window[i] <= #[trigger] s[i] && stride[i] > 0
}

/// The number of positions of a window along axis `i`.
pub open spec fn window_count(s: Seq<usize>, window: Seq<usize>, stride: Seq<usize>, i: int) -> int {
    (s[i] - window[i]) / (stride[i] as int) + 1
}

/// The shape after pooling.
pub open spec fn pool_shape(s: Seq<usize>, window: Seq<usize>, stride: Seq<usize>) -> Result<
    Seq<usize>,
    Fault,
> {
    if window.len() != s.len() || stride.len() != s.len() {
        Err(Fault::PoolRank)
    } else if !windows_ok(s, window, stride) {
        Err(Fault::Window)
    } else {
        sized(Seq::new(s.len(), |i: int| window_count(s, window, stride, i) as usize))
    }
}

/// The coordinates of element `j` of the window at position `k`.
pub open spec fn window_coordinates(
    window: Seq<usize>,
    stride: Seq<usize>,
    out: Seq<usize>,
    k: int,
    j: int,
) -> Seq<usize> {
    Seq::new(
        out.len(),
        |ax: int|
            (stride[ax] * shape::unravel(k, out)[ax] + shape::unravel(j, window)[ax]) as usize,
    )
}

/// The sum of the first `n` elements of the window at position `k`.
pub open spec fn window_sum<S: Scalar>(
    t: TensorV<S>,
    window: Seq<usize>,
    stride: Seq<usize>,
    out: Seq<usize>,
    k: int,
    n: nat,
) -> S
    decreases n,
{
    if n == 0 {
        scalar::zero()
    } else {
        window_sum(t, window, stride, out, k, (n - 1) as nat).plus(
            t.data[shape::ravel(window_coordinates(window, stride, out, k, n - 1), t.shape)],
        )
    }
}

/// The elements after pooling to shape `out`.
pub open spec fn pool_data<S: Scalar>(
    t: TensorV<S>,
    window: Seq<usize>,
    stride: Seq<usize>,
    average: bool,
    out: Seq<usize>,
) -> Seq<S> {
    let total = shape::product(window);
    Seq::new(
        shape::product(out),
        |k: int|
            {
                let sum = window_sum(t, window, stride, out, k, total);
                if average {
                    sum.over(scalar::num(total as int))
                } else {
                    sum
                }
            },
    )
}

// ---- operations on two tensors ----
/// The elements of two tensors combined by addition or multiplication, with broadcasting.
pub open spec fn combined<S: Scalar>(
    mul: bool,
    a: TensorV<S>,
    b: TensorV<S>,
    out: Seq<usize>,
) -> Seq<S> {
    Seq::new(
        shape::product(out),
        |k: int|
            {
                let x = a.data[shape::source_index(k, out, a.shape)];
                let y = b.data[shape::source_index(k, out, b.shape)];
                if mul {
                    x.times(y)
                } else {
                    x.plus(y)
                }
            },
    )
}

/// The shape of two tensors combined element by element.
pub open spec fn broadcast_sized(a: Seq<usize>, b: Seq<usize>) -> Result<Seq<usize>, Fault> {
    match shape::broadcast(a, b) {
        Some(s) => sized(s),
        None => Err(Fault::Broadcast),
    }
}

/// The shape of the contraction of the last axis of `a` with the last but one of `b`, or its
/// only one.
pub open spec fn dot_shape(a: Seq<usize>, b: Seq<usize>) -> Result<Seq<usize>, Fault> {
    if a.len() == 0 {
        Ok(b)
    } else if b.len() == 0 {
        Ok(a)
    } else if b.len() == 1 {
        if a.last() == b[0] {
            sized(a.drop_last())
        } else {
            Err(Fault::Dot)
        }
    } else {
        if a.last() == b[b.len() - 2] {
            sized(a.drop_last() + b.subrange(0, b.len() - 2) + seq![b.last()])
        } else {
            Err(Fault::Dot)
        }
    }
}

/// The number of columns of the right operand of a contraction.
pub open spec fn dot_columns(b: Seq<usize>) -> nat {
    if b.len() <= 1 {
        1
    } else {
        b.last() as nat
    }
}

/// The number of matrices of the right operand of a contraction.
pub open spec fn dot_planes(b: Seq<usize>) -> nat {
    if b.len() <= 1 {
        1
    } else {
        shape::product(b.subrange(0, b.len() - 2))
    }
}

/// The sum of the first `m` products at element `r` of a contraction over `k`, with `n` columns
/// and `p` matrices on the right.
pub open spec fn dot_sum<S: Scalar>(
    a: Seq<S>,
    b: Seq<S>,
    k: int,
    n: int,
    p: int,
    r: int,
    m: nat,
) -> S
    decreases m,
{
    if m == 0 {
        scalar::zero()
    } else {
        dot_sum(a, b, k, n, p, r, (m - 1) as nat).plus(
            a[(r / n / p) * k + (m - 1)].times(b[((r / n % p) * k + (m - 1)) * n + r % n]),
        )
    }
}

/// The elements of a contraction.
pub open spec fn dot_data<S: Scalar>(a: TensorV<S>, b: TensorV<S>, out: Seq<usize>) -> Seq<S> {
    if a.shape.len() == 0 {
        Seq::new(b.data.len(), |r: int| a.data[0].times(b.data[r]))
    } else if b.shape.len() == 0 {
        Seq::new(a.data.len(), |r: int| b.data[0].times(a.data[r]))
    } else {
        Seq::new(
            shape::product(out),
            |r: int|
                dot_sum(
                    a.data,
                    b.data,
                    a.shape.last() as int,
                    dot_columns(b.shape) as int,
                    dot_planes(b.shape) as int,
                    r,
                    a.shape.last() as nat,
                ),
        )
    }
}

/// The flat index of an element of a tensor of rank four.
pub open spec fn at4(s: Seq<usize>, a: int, b: int, c: int, d: int) -> int {
    ((a * s[1] + b) * s[2] + c) * s[3] + d
}

/// The shape of a convolution.
pub open spec fn conv_shape(a: Seq<usize>, k: Seq<usize>, stride: isize) -> Result<
    Seq<usize>,
    Fault,
> {
    let s = stride as usize;
    if a.len() != 4 || k.len() != 4 {
        Err(Fault::ConvRank)
    } else if k[1] != a[1] {
        Err(Fault::ConvChannels)
    } else if s == 0 || a[2] < k[2] || a[3] < k[3] {
        Err(Fault::Window)
    } else {
        sized(
            seq![
                a[0],
                k[0],
                ((a[2] - k[2]) / (s as int) + 1) as usize,
                ((a[3] - k[3]) / (s as int) + 1) as usize,
            ],
        )
    }
}

/// Product number `u` at element `r` of a convolution with result shape `out`.
pub open spec fn conv_term<S: Scalar>(
    a: TensorV<S>,
    k: TensorV<S>,
    s: int,
    out: Seq<usize>,
    r: int,
    u: int,
) -> S {
    let (ow, oh, oc) = (out[3] as int, out[2] as int, out[1] as int);
    let (kw, kh) = (k.shape[3] as int, k.shape[2] as int);
    let (wi, hi, ci, ni) = (r % ow, r / ow % oh, r / ow / oh % oc, r / ow / oh / oc);
    let (j, i, c) = (u % kw, u / kw % kh, u / kw / kh);
    a.data[at4(a.shape, ni, c, s * hi + i, s * wi + j)].times(k.data[at4(k.shape, ci, c, i, j)])
}

/// The sum of the first `m` products at element `r` of a convolution.
pub open spec fn conv_sum<S: Scalar>(
    a: TensorV<S>,
    k: TensorV<S>,
    s: int,
    out: Seq<usize>,
    r: int,
    m: nat,
) -> S
    decreases m,
{
    if m == 0 {
        scalar::zero()
    } else {
        conv_sum(a, k, s, out, r, (m - 1) as nat).plus(conv_term(a, k, s, out, r, m - 1))
    }
}

/// The elements of a convolution.
pub open spec fn conv_data<S: Scalar>(
    a: TensorV<S>,
    k: TensorV<S>,
    stride: isize,
    out: Seq<usize>,
) -> Seq<S> {
    Seq::new(
        shape::product(out),
        |r: int|
            conv_sum(
                a,
                k,
                (stride as usize) as int,
                out,
                r,
                shape::product(k.shape.subrange(1, 4)),
            ),
    )
}

/// Whether the gradient of a convolution with respect to its kernel reads only elements that
/// exist.
pub open spec fn kernel_grad_ok(g: Seq<usize>, a: Seq<usize>, s: int, k: Seq<usize>) -> bool {
    let reads_g = g[0] > 0 && k[0] > 0 && g[2] > 0 && g[3] > 0;
    let reads_a = reads_g && k[1] > 0 && k[2] > 0 && k[3] > 0;
    &&& reads_g ==> k[0] <= g[1]
    &&& reads_a ==> g[0] <= a[0] && k[1] <= a[1] && (g[2] - 1) * s + k[2] <= a[2] && (g[3] - 1) * s
        + k[3] <= a[3]
}

/// The shape of the gradient of a convolution with respect to its kernel.
pub open spec fn kernel_grad_shape(
    g: Seq<usize>,
    a: Seq<usize>,
    stride: isize,
    k: Seq<usize>,
) -> Result<Seq<usize>, Fault> {
    if g.len() != 4 || a.len() != 4 || k.len() != 4 {
        Err(Fault::ConvRank)
    } else if !kernel_grad_ok(g, a, (stride as usize) as int, k) {
        Err(Fault::Window)
    } else {
        sized(k)
    }
}

/// Product number `u` at element `r` of the gradient of a convolution with respect to its
/// kernel, of shape `k`.
pub open spec fn kernel_grad_term<S: Scalar>(
    g: TensorV<S>,
    a: TensorV<S>,
    s: int,
    k: Seq<usize>,
    r: int,
    u: int,
) -> S {
    let (kw, kh, kc) = (k[3] as int, k[2] as int, k[1] as int);
    let (ow, oh) = (g.shape[3] as int, g.shape[2] as int);
    let (kwi, khi, ici, oci) = (r % kw, r / kw % kh, r / kw / kh % kc, r / kw / kh / kc);
    let (wi, hi, ni) = (u % ow, u / ow % oh, u / ow / oh);
    g.data[at4(g.shape, ni, oci, hi, wi)].times(
        a.data[at4(a.shape, ni, ici, hi * s + khi, wi * s + kwi)],
    )
}

/// The sum of the first `m` of these products.
pub open spec fn kernel_grad_sum<S: Scalar>(
    g: TensorV<S>,
    a: TensorV<S>,
    s: int,
    k: Seq<usize>,
    r: int,
    m: nat,
) -> S
    decreases m,
{
    if m == 0 {
        scalar::zero()
    } else {
        kernel_grad_sum(g, a, s, k, r, (m - 1) as nat).plus(
            kernel_grad_term(g, a, s, k, r, m - 1),
        )
    }
}

/// The elements of the gradient of a convolution with respect to its kernel, of shape `k`.
pub open spec fn kernel_grad_data<S: Scalar>(
    g: TensorV<S>,
    a: TensorV<S>,
    stride: isize,
    k: Seq<usize>,
) -> Seq<S> {
    Seq::new(
        shape::product(k),
        |r: int|
            kernel_grad_sum(
                g,
                a,
                (stride as usize) as int,
                k,
                r,
                (g.shape[0] * g.shape[2] * g.shape[3]) as nat,
            ),
    )
}

// ---- the operations as a whole ----
/// The shape of the result of an operation on a tensor of shape `s`.
pub open spec fn un_shape<S>(op: UnOpV<S>, s: Seq<usize>) -> Result<Seq<usize>, Fault> {
    let n = s.len() as int;
    match op {
        UnOpV::ReduceSum(axes) => if axes_ok(axes, n) {
            Ok(drop_axes(s, axes, n, n as nat))
        } else {
            Err(Fault::Axis)
        },
        UnOpV::ExpandDims(axes) => if s.len() + axes.len() > isize::MAX {
            Err(Fault::Size)
        } else if expand_ok(s, axes) {
            Ok(expanded(s, axes))
        } else {
            Err(Fault::Axis)
        },
        UnOpV::MoveAxis(a, b) => if shape::axis_ok(a as int, n) && shape::axis_ok(b as int, n) {
            Ok(moved(s, shape::norm_axis(a as int, n), shape::norm_axis(b as int, n)))
        } else {
            Err(Fault::Axis)
        },
        UnOpV::Reshape(d) => if d.len() > isize::MAX {
            Err(Fault::Size)
        } else if shape::product(resolved(d, shape::product(s))) == shape::product(s) {
            sized(resolved(d, shape::product(s)))
        } else {
            Err(Fault::Reshape)
        },
        UnOpV::Slice(axis, start, end, step) => if !shape::axis_ok(axis as int, n) {
            Err(Fault::Axis)
        } else if step == 0 {
            Err(Fault::Step)
        } else {
            let ax = shape::norm_axis(axis as int, n);
            Ok(
                s.update(
                    ax,
                    slice_count(s[ax] as int, start as int, end, step as int) as usize,
                ),
            )
        },
        UnOpV::Pad(p) => pad_shape(p, s),
        UnOpV::Pool(window, stride, _) => pool_shape(s, window, stride),
        _ => Ok(s),
    }
}

/// The elements of the result, of shape `out`, of an operation on the tensor `t`.
pub open spec fn un_data<S: Scalar>(op: UnOpV<S>, t: TensorV<S>, out: Seq<usize>) -> Seq<S> {
    let n = t.shape.len() as int;
    match op {
        UnOpV::ReduceSum(axes) => sum_axes(t, axes, n, n as nat).data,
        UnOpV::ExpandDims(_) => t.data,
        UnOpV::MoveAxis(a, b) => moved_data(
            t,
            shape::norm_axis(a as int, n),
            shape::norm_axis(b as int, n),
        ),
        UnOpV::Reshape(_) => t.data,
        UnOpV::Slice(axis, start, end, step) => slice_data(
            t,
            shape::norm_axis(axis as int, n),
            start as int,
            end,
            step as int,
        ),
        UnOpV::Pad(p) => pad_data(p, t, out),
        UnOpV::Pool(window, stride, average) => pool_data(t, window, stride, average, out),
        _ => Seq::new(t.data.len(), |k: int| at_point(op, t.data[k])),
    }
}

/// The result of an operation on one tensor.
pub open spec fn un_tensor<S: Scalar>(op: UnOpV<S>, t: TensorV<S>) -> Result<TensorV<S>, Fault> {
    match un_shape(op, t.shape) {
        Ok(s) => Ok(TensorV { shape: s, data: un_data(op, t, s) }),
        Err(e) => Err(e),
    }
}

/// The shape of the result of an operation on tensors of shapes `a` and `b`.
pub open spec fn bin_shape(op: BinOpV, a: Seq<usize>, b: Seq<usize>) -> Result<Seq<usize>, Fault> {
    match op {
        BinOpV::Add | BinOpV::Mul => broadcast_sized(a, b),
        BinOpV::Dot => dot_shape(a, b),
        BinOpV::Conv(stride) => conv_shape(a, b, stride),
        BinOpV::ConvKernelGrad(stride, k) => kernel_grad_shape(a, b, stride, k),
    }
}

/// The elements of the result, of shape `out`, of an operation on the tensors `a` and `b`.
pub open spec fn bin_data<S: Scalar>(
    op: BinOpV,
    a: TensorV<S>,
    b: TensorV<S>,
    out: Seq<usize>,
) -> Seq<S> {
    match op {
        BinOpV::Add => combined(false, a, b, out),
        BinOpV::Mul => combined(true, a, b, out),
        BinOpV::Dot => dot_data(a, b, out),
        BinOpV::Conv(stride) => conv_data(a, b, stride, out),
        BinOpV::ConvKernelGrad(stride, _) => kernel_grad_data(a, b, stride, out),
    }
}

/// The result of an operation on two tensors.
pub open spec fn bin_tensor<S: Scalar>(op: BinOpV, a: TensorV<S>, b: TensorV<S>) -> Result<
    TensorV<S>,
    Fault,
> {
    match bin_shape(op, a.shape, b.shape) {
        Ok(s) => Ok(TensorV { shape: s, data: bin_data(op, a, b, s) }),
        Err(e) => Err(e),
    }
}

/// The shape of a selection between two tensors by a third.
pub open spec fn select_shape(c: Seq<usize>, x: Seq<usize>, y: Seq<usize>) -> Result<
    Seq<usize>,
    Fault,
> {
    match shape::broadcast(c, x) {
        Some(s) => broadcast_sized(s, y),
        None => Err(Fault::Broadcast),
    }
}

/// The elements of a selection: those of `x` where `c` is not zero, those of `y` elsewhere.
pub open spec fn select_data<S: Scalar>(
    c: TensorV<S>,
    x: TensorV<S>,
    y: TensorV<S>,
    out: Seq<usize>,
) -> Seq<S> {
    Seq::new(
        shape::product(out),
        |k: int|
            if c.data[shape::source_index(k, out, c.shape)].same(scalar::zero()) {
                y.data[shape::source_index(k, out, y.shape)]
            } else {
                x.data[shape::source_index(k, out, x.shape)]
            },
    )
}

/// The selection between two tensors by a third.
pub open spec fn select_tensor<S: Scalar>(c: TensorV<S>, x: TensorV<S>, y: TensorV<S>) -> Result<
    TensorV<S>,
    Fault,
> {
    match select_shape(c.shape, x.shape, y.shape) {
        Ok(s) => Ok(TensorV { shape: s, data: select_data(c, x, y, s) }),
        Err(e) => Err(e),
    }
}

} // verus!
