//! Tensor operations that move elements around.

use vstd::prelude::*;
use crate::error::EvalError;
use crate::model;
use crate::model::{Fault, TensorV, UnOpV};
use crate::op::PaddingOptions;
use crate::scalar::Scalar;
use crate::shape;
use crate::tensor;
use crate::tensor::Tensor;

verus! {

/// Whether one of `axes` names axis `i` of a tensor of rank `n`.
pub(crate) fn is_named(axes: &[isize], n: usize, i: usize) -> (r: bool)
    requires
        n <= isize::MAX,
        i <= isize::MAX,
    ensures
        r == model::names_axis(axes@, n as int, i as int),
{
    for j in 0..axes.len()
        invariant
            n <= isize::MAX,
            i <= isize::MAX,
            forall|k: int|
                0 <= k < j ==> shape::norm_axis(#[trigger] axes@[k] as int, n as int) != i,
    {
        let ax = axes[j];
        let named: bool = if ax < 0 {
            ax + n as isize == i as isize
        } else {
            ax == i as isize
        };
        if named {
            assert(shape::norm_axis(axes@[j as int] as int, n as int) == i);
            return true;
        }
    }
    false
}

/// Whether each of `axes` names an axis of a tensor of rank `n`.
pub(crate) fn all_axes_ok(axes: &[isize], n: usize) -> (r: bool)
    requires
        n <= isize::MAX,
    ensures
        r == model::axes_ok(axes@, n as int),
{
    for j in 0..axes.len()
        invariant
            n <= isize::MAX,
            forall|k: int| 0 <= k < j ==> shape::axis_ok(#[trigger] axes@[k] as int, n as int),
    {
        let ax = axes[j];
        if ax < -(n as isize) || ax >= n as isize {
            assert(!shape::axis_ok(axes@[j as int] as int, n as int));
            return false;
        }
    }
    true
}

/// Removing an axis leaves the sizes before and behind it.
pub proof fn lemma_remove(s: Seq<usize>, ax: int)
    requires
        0 <= ax < s.len(),
    ensures
        shape::product(s.remove(ax)) == model::outer_size(s, ax) * model::inner_size(s, ax),
        shape::volume(s.remove(ax)) <= shape::volume(s),
        shape::product(s) == model::outer_size(s, ax) * (s[ax] as nat) * model::inner_size(s, ax),
{
    let (a, b) = (s.subrange(0, ax), s.subrange(ax + 1, s.len() as int));
    assert(s.remove(ax) =~= a + b);
    shape::lemma_product_concat(a, b);
    shape::lemma_volume_concat(a, b);
    shape::lemma_product_split(s, ax);
    let h = s.subrange(0, ax + 1);
    assert(s =~= h + b);
    assert(h.drop_last() =~= a);
    shape::lemma_volume_concat(h, b);
    let (x, y) = (shape::volume(a), shape::volume(b));
    shape::lemma_volume_bounds(a);
    shape::lemma_volume_bounds(b);
    let l: nat = if s[ax] == 0 {
        1
    } else {
        s[ax] as nat
    };
    assert(x * y <= (x * l) * y) by (nonlinear_arith)
        requires
            l >= 1,
            x >= 1,
            y >= 1,
    ;
}

/// Replacing an axis length scales the size.
pub proof fn lemma_update(s: Seq<usize>, ax: int, d: usize)
    requires
        0 <= ax < s.len(),
    ensures
        shape::product(s.update(ax, d)) == model::outer_size(s, ax) * (d as nat)
            * model::inner_size(s, ax),
        d <= s[ax] ==> shape::volume(s.update(ax, d)) <= shape::volume(s),
{
    let u = s.update(ax, d);
    let (a, b) = (s.subrange(0, ax), s.subrange(ax + 1, s.len() as int));
    assert(u.subrange(0, ax) =~= a);
    assert(u.subrange(ax + 1, u.len() as int) =~= b);
    shape::lemma_product_split(u, ax);
    let (h, k) = (s.subrange(0, ax + 1), u.subrange(0, ax + 1));
    assert(s =~= h + b);
    assert(u =~= k + b);
    assert(h.drop_last() =~= a);
    assert(k.drop_last() =~= a);
    shape::lemma_volume_concat(h, b);
    shape::lemma_volume_concat(k, b);
    let (x, y) = (shape::volume(a), shape::volume(b));
    let l: nat = if s[ax] == 0 {
        1
    } else {
        s[ax] as nat
    };
    let m: nat = if d == 0 {
        1
    } else {
        d as nat
    };
    if d <= s[ax] {
        assert((x * m) * y <= (x * l) * y) by (nonlinear_arith)
            requires
                m <= l,
                x >= 0,
                y >= 0,
        ;
    }
}

/// Moving an axis keeps the size and the volume, and the blocks make up the size.
pub proof fn lemma_moved(s: Seq<usize>, a: int, b: int)
    requires
        0 <= a < s.len(),
        0 <= b < s.len(),
    ensures
        shape::product(model::moved(s, a, b)) == shape::product(s),
        shape::volume(model::moved(s, a, b)) == shape::volume(s),
        shape::product(s) == shape::product(
            s.subrange(
                0,
                if a <= b {
                    a
                } else {
                    b
                },
            ),
        ) * model::first_block(s, a, b) * model::second_block(s, a, b) * model::behind_blocks(
            s,
            a,
            b,
        ),
{
    let lo = if a <= b {
        a
    } else {
        b
    };
    let hi = if a <= b {
        b + 1
    } else {
        a + 1
    };
    let o = s.subrange(0, lo);
    let i = s.subrange(hi, s.len() as int);
    let one = seq![s[a]];
    let rest = if a <= b {
        s.subrange(a + 1, b + 1)
    } else {
        s.subrange(b, a)
    };
    let (f, g) = if a <= b {
        (one, rest)
    } else {
        (rest, one)
    };
    assert(s =~= o + f + g + i);
    assert(model::moved(s, a, b) =~= o + g + f + i);
    shape::lemma_product_concat(o + f + g, i);
    shape::lemma_product_concat(o + f, g);
    shape::lemma_product_concat(o, f);
    shape::lemma_product_concat(o + g + f, i);
    shape::lemma_product_concat(o + g, f);
    shape::lemma_product_concat(o, g);
    shape::lemma_volume_concat(o + f + g, i);
    shape::lemma_volume_concat(o + f, g);
    shape::lemma_volume_concat(o, f);
    shape::lemma_volume_concat(o + g + f, i);
    shape::lemma_volume_concat(o + g, f);
    shape::lemma_volume_concat(o, g);
    shape::lemma_product_single(s[a]);
    let (x, y, z) = (shape::product(o), shape::product(f), shape::product(g));
    assert(x * y * z == x * z * y) by (nonlinear_arith);
    let (u, v, w) = (shape::volume(o), shape::volume(f), shape::volume(g));
    assert(u * v * w == u * w * v) by (nonlinear_arith);
}

/// The row of an index in a table of `rows` rows of `n` columns, and its column.
pub proof fn lemma_row(k: int, rows: int, n: int)
    requires
        0 <= k < rows * n,
        0 <= n,
    ensures
        0 < n,
        0 <= k / n < rows,
        0 <= k % n < n,
        k == (k / n) * n + k % n,
{
    assert(n != 0) by (nonlinear_arith)
        requires
            0 <= k < rows * n,
    ;
    assert(0 <= k / n < rows && 0 <= k % n < n && k == (k / n) * n + k % n) by (nonlinear_arith)
        requires
            0 <= k < rows * n,
            n > 0,
    ;
}

/// The index of a row and a column in a table of `rows` rows of `n` columns.
pub proof fn lemma_cell(row: int, col: int, rows: int, n: int)
    requires
        0 <= row < rows,
        0 <= col < n,
    ensures
        0 <= row * n <= row * n + col < rows * n,
        (row * n + col) / n == row,
        (row * n + col) % n == col,
        rows <= rows * n,
{
    assert(0 <= row * n <= row * n + col < rows * n && (row * n + col) / n == row && (row * n + col)
        % n == col && rows <= rows * n) by (nonlinear_arith)
        requires
            0 <= row < rows,
            0 <= col < n,
    ;
}

/// The index that a move of an axis reads is in range, and so are the steps that compute it.
pub proof fn lemma_swapped(r: int, o: int, p: int, q: int, inner: int)
    requires
        0 <= r < o * p * q * inner,
        0 <= o,
        0 <= p,
        0 <= q,
        0 <= inner,
    ensures
        inner > 0,
        p > 0,
        q > 0,
        0 <= model::swapped_index(r, p, q, inner) < o * p * q * inner,
        ({
            let all = o * p * q * inner;
            let x = r / inner;
            let y = x / p;
            let h = (y / q) * p + x % p;
            let g = h * q + y % q;
            &&& 0 <= (y / q) * p <= h <= all
            &&& 0 <= h * q <= g <= all
            &&& 0 <= g * inner <= all
        }),
{
    let w = o * p * q;
    lemma_row(r, w, inner);
    let x = r / inner;
    assert(o * p * q == (o * q) * p) by (nonlinear_arith);
    lemma_row(x, o * q, p);
    let y = x / p;
    lemma_row(y, o, q);
    lemma_cell(y / q, x % p, o, p);
    let h = (y / q) * p + x % p;
    lemma_cell(h, y % q, o * p, q);
    let g = h * q + y % q;
    lemma_cell(g, r % inner, w, inner);
}

/// Reshape into `shape` in C (row-major) order.
/// NOTE on terminology:
/// - C stands for contigous, mathematically speaking row-major order
/// - F stands for fortran-contigous, mathematically speaking column-major order
pub fn reshape_c<S: Scalar>(a: &Tensor<S>, shape: &[usize]) -> (r: Result<Tensor<S>, EvalError>)
    ensures
        tensor::outcome(r) == (if !shape::fits(shape@) {
            Err(Fault::Size)
        } else if a@.data.len() != shape::product(shape@) {
            Err(Fault::Reshape)
        } else {
            Ok(TensorV { shape: shape@, data: a@.data })
        }),
{
    let copy = a.dup();
    Tensor::from_shape_vec(tensor::copy_of(shape), copy.into_inner())
}

impl<S: Scalar> Tensor<S> {
    /// numpy.moveaxis: move `src` axis to `dst`, keeping the relative order of the rest.
    pub fn moveaxis(&self, src: isize, dst: isize) -> (r: Result<Tensor<S>, EvalError>)
        ensures
            tensor::outcome(r) == model::un_tensor(UnOpV::MoveAxis(src, dst), self@),
    {
        let s = self.shape();
        let n = s.len();
        let nd = n as isize;
        if src < -nd || src >= nd || dst < -nd || dst >= nd {
            return Err(EvalError::Axis);
        }
        let a = shape::norm_axis_index(src, n);
        let b = shape::norm_axis_index(dst, n);
        proof {
            shape::lemma_volume_bounds(self@.shape);
            lemma_moved(self@.shape, a as int, b as int);
        }
        let lo: usize = if a <= b {
            a
        } else {
            b
        };
        let p: usize = if a <= b {
            s[a]
        } else {
            shape::size_of(s, b, a)
        };
        let q: usize = if a <= b {
            shape::size_of(s, a + 1, b + 1)
        } else {
            s[a]
        };
        let inner: usize = if a <= b {
            shape::size_of(s, b + 1, n)
        } else {
            shape::size_of(s, a + 1, n)
        };
        let ghost o = shape::product(s@.subrange(0, lo as int)) as int;
        let values = self.values();
        let mut data: Vec<S> = Vec::new();
        for k in 0..values.len()
            invariant
                values@ == self@.data,
                self@.wf(),
                values@.len() <= isize::MAX,
                values@.len() == o * p * q * inner,
                o >= 0,
                data@.len() == k,
                forall|j: int|
                    0 <= j < k ==> data@[j] == values@[model::swapped_index(
                        j,
                        p as int,
                        q as int,
                        inner as int,
                    )],
        {
            proof {
                lemma_swapped(k as int, o, p as int, q as int, inner as int);
            }
            let x = k / inner;
            let y = x / p;
            data.push(values[(((y / q) * p + x % p) * q + y % q) * inner + k % inner]);
        }
        let mut out = tensor::copy_of(s);
        let d = out.remove(a);
        out.insert(b, d);
        assert(out@ =~= model::moved(s@, a as int, b as int));
        let r = Tensor::make(out, data);
        assert(r@.data =~= model::moved_data(self@, a as int, b as int));
        Ok(r)
    }
}

/// The number of unnamed positions does not decrease.
proof fn lemma_unnamed_monotone(axes: Seq<isize>, n: int, i: nat, j: nat)
    requires
        i <= j,
    ensures
        model::unnamed_below(axes, n, i) <= model::unnamed_below(axes, n, j) <= j,
    decreases j,
{
    if j > 0 {
        if i == j {
            lemma_unnamed_monotone(axes, n, (j - 1) as nat, (j - 1) as nat);
        } else {
            lemma_unnamed_monotone(axes, n, i, (j - 1) as nat);
        }
    }
}

/// The product of the given lengths of a reshape, if it fits a `usize`.
pub(crate) fn known_dims(d: &[isize]) -> (r: Option<usize>)
    ensures
        match r {
            Some(k) => k == model::known_size(d@),
            None => model::known_size(d@) > usize::MAX,
        },
{
    let mut zero: bool = false;
    for i in 0..d.len()
        invariant
            zero == exists|j: int| 0 <= j < i && #[trigger] d@[j] == 0,
    {
        if d[i] == 0 {
            zero = true;
            assert(d@[i as int] == 0);
        }
    }
    if zero {
        proof {
            let j = choose|j: int| 0 <= j < d@.len() && #[trigger] d@[j] == 0;
            lemma_known_zero(d@, j);
        }
        return Some(0);
    }
    let mut k: usize = 1;
    for i in 0..d.len()
        invariant
            k == model::known_size(d@.subrange(0, i as int)),
            forall|j: int| 0 <= j < d@.len() ==> d@[j] != 0,
    {
        assert(d@.subrange(0, i + 1).drop_last() =~= d@.subrange(0, i as int));
        if d[i] > 0 {
            match k.checked_mul(d[i] as usize) {
                Some(m) => {
                    k = m;
                },
                None => {
                    proof {
                        lemma_known_grows(d@, i + 1);
                    }
                    return None;
                },
            }
        }
    }
    assert(d@.subrange(0, d@.len() as int) =~= d@);
    Some(k)
}

/// A given length of zero makes the product zero.
proof fn lemma_known_zero(d: Seq<isize>, j: int)
    requires
        0 <= j < d.len(),
        d[j] == 0,
    ensures
        model::known_size(d) == 0,
    decreases d.len(),
{
    let k = model::known_size(d.drop_last());
    if j < d.len() - 1 {
        assert(d.drop_last()[j] == 0);
        lemma_known_zero(d.drop_last(), j);
    }
    assert(k * 0 == 0) by (nonlinear_arith);
    if d.last() >= 0 {
        let l = d.last() as nat;
        assert(k * l == 0) by (nonlinear_arith)
            requires
                k == 0 || l == 0,
        ;
    }
}

/// Without a length of zero, the product over a prefix is at most the whole.
proof fn lemma_known_grows(d: Seq<isize>, i: int)
    requires
        0 <= i <= d.len(),
        forall|j: int| 0 <= j < d.len() ==> d[j] != 0,
    ensures
        model::known_size(d.subrange(0, i)) <= model::known_size(d),
    decreases d.len(),
{
    if i == d.len() {
        assert(d.subrange(0, i) =~= d);
    } else {
        assert(d.drop_last().subrange(0, i) =~= d.subrange(0, i));
        lemma_known_grows(d.drop_last(), i);
        if d.last() > 0 {
            let (k, l) = (model::known_size(d.drop_last()), d.last() as nat);
            assert(k <= k * l) by (nonlinear_arith)
                requires
                    l >= 1,
            ;
        }
    }
}

/// A shape whose given lengths multiply to more than `usize::MAX` fits no tensor, and has
/// elements unless a length is inferred as zero.
proof fn lemma_known_large(d: Seq<isize>, total: nat, m: Seq<isize>)
    requires
        forall|j: int| 0 <= j < d.len() ==> d[j] != 0,
        model::known_size(m) > 0,
        total < model::known_size(m),
    ensures
        ({
            let r = Seq::new(
                d.len(),
                |i: int|
                    if d[i] < 0 {
                        model::inferred(total, model::known_size(m))
                    } else {
                        d[i] as usize
                    },
            );
            let infers = exists|j: int| 0 <= j < d.len() && #[trigger] d[j] < 0;
            &&& shape::volume(r) >= model::known_size(d)
            &&& infers ==> shape::product(r) == 0
            &&& !infers ==> shape::product(r) == model::known_size(d)
        }),
    decreases d.len(),
{
    let k = model::known_size(m);
    let r = Seq::new(
        d.len(),
        |i: int|
            if d[i] < 0 {
                model::inferred(total, k)
            } else {
                d[i] as usize
            },
    );
    assert(total / k == 0) by (nonlinear_arith)
        requires
            0 <= total < k,
    ;
    if d.len() > 0 {
        let e = d.drop_last();
        let f = Seq::new(
            e.len(),
            |i: int|
                if e[i] < 0 {
                    model::inferred(total, k)
                } else {
                    e[i] as usize
                },
        );
        assert(r.drop_last() =~= f);
        assert forall|j: int| 0 <= j < e.len() implies e[j] != 0 by {
            assert(e[j] == d[j]);
        }
        lemma_known_large(e, total, m);
        let (v, w, ke, l) = (
            shape::volume(f),
            shape::product(f),
            model::known_size(e),
            r.last() as nat,
        );
        shape::lemma_volume_bounds(f);
        if d.last() < 0 {
            assert(d[d.len() - 1] < 0);
            assert(r.last() == 0);
            assert(w * l == 0) by (nonlinear_arith)
                requires
                    l == 0,
            ;
            assert(v * 1 == v);
        } else {
            assert(v * l >= ke * l) by (nonlinear_arith)
                requires
                    v >= ke,
                    l >= 0,
            ;
            if exists|j: int| 0 <= j < d.len() && #[trigger] d[j] < 0 {
                let j = choose|j: int| 0 <= j < d.len() && #[trigger] d[j] < 0;
                assert(e[j] < 0);
                assert(w * l == 0) by (nonlinear_arith)
                    requires
                        w == 0,
                ;
            } else {
                assert forall|j: int| 0 <= j < e.len() implies #[trigger] e[j] >= 0 by {
                    assert(e[j] == d[j]);
                }
            }
        }
    }
}

/// The shape with axes of length one at the named positions of the result, if the names leave
/// room for the axes of `s`.
pub(crate) fn expanded_shape(s: &[usize], axes: &[isize], total: usize) -> (r: Option<Vec<usize>>)
    requires
        total == s@.len() + axes@.len(),
        total <= isize::MAX,
    ensures
        match r {
            Some(out) => {
                &&& model::unnamed_below(axes@, total as int, total as nat) == s@.len()
                &&& out@ == model::expanded(s@, axes@)
                &&& shape::product(out@) == shape::product(s@)
                &&& shape::volume(out@) == shape::volume(s@)
            },
            None => model::unnamed_below(axes@, total as int, total as nat) != s@.len(),
        },
{
    let n = s.len();
    let mut out: Vec<usize> = Vec::new();
    let mut src: usize = 0;
    assert(s@.subrange(0, 0) =~= Seq::<usize>::empty());
    for i in 0..total
        invariant
            n == s@.len(),
            total == n + axes@.len(),
            total <= isize::MAX,
            src == model::unnamed_below(axes@, total as int, i as nat),
            src <= n,
            out@.len() == i,
            forall|j: int| 0 <= j < i ==> out@[j] == model::expanded(s@, axes@)[j],
            shape::product(out@) == shape::product(s@.subrange(0, src as int)),
            shape::volume(out@) == shape::volume(s@.subrange(0, src as int)),
    {
        let ghost before = out@;
        if is_named(axes, total, i) {
            out.push(1);
            proof {
                assert(out@.drop_last() =~= before);
                assert(shape::product(before) * 1 == shape::product(before));
                assert(shape::volume(before) * 1 == shape::volume(before));
            }
        } else {
            if src >= n {
                proof {
                    lemma_unnamed_monotone(axes@, total as int, (i + 1) as nat, total as nat);
                }
                return None;
            }
            out.push(s[src]);
            proof {
                assert(out@.drop_last() =~= before);
                assert(s@.subrange(0, src + 1).drop_last() =~= s@.subrange(0, src as int));
            }
            src = src + 1;
        }
    }
    if src != n {
        return None;
    }
    assert(s@.subrange(0, n as int) =~= s@);
    assert(out@ =~= model::expanded(s@, axes@));
    Some(out)
}

impl<S: Scalar> Tensor<S> {
    /// numpy.expand_dims: insert size-1 axes at the given positions (which refer to
    /// the result's axes).
    pub fn expand_dims(&self, axes: &[isize]) -> (r: Result<Tensor<S>, EvalError>)
        ensures
            tensor::outcome(r) == model::un_tensor(UnOpV::ExpandDims(axes@), self@),
    {
        let s = self.shape();
        let n = s.len();
        let total: usize = match n.checked_add(axes.len()) {
            Some(t) => t,
            None => {
                return Err(EvalError::Size);
            },
        };
        if total > isize::MAX as usize {
            return Err(EvalError::Size);
        }
        if !all_axes_ok(axes, total) {
            return Err(EvalError::Axis);
        }
        match expanded_shape(s, axes, total) {
            Some(out) => Ok(Tensor::make(out, self.dup().into_inner())),
            None => Err(EvalError::Axis),
        }
    }

    /// Reshape resolving a single inferred dimensions (specified by -1).
    pub fn reshape(&self, new_shape: &[isize]) -> (r: Result<Tensor<S>, EvalError>)
        ensures
            tensor::outcome(r) == model::un_tensor(UnOpV::Reshape(new_shape@), self@),
    {
        if new_shape.len() > isize::MAX as usize {
            return Err(EvalError::Size);
        }
        let total = self.len();
        let ghost want = model::resolved(new_shape@, total as nat);
        let known: usize = match known_dims(new_shape) {
            Some(k) => k,
            None => {
                let mut infer: bool = false;
                for i in 0..new_shape.len()
                    invariant
                        infer == exists|j: int| 0 <= j < i && #[trigger] new_shape@[j] < 0,
                {
                    if new_shape[i] < 0 {
                        infer = true;
                        assert(new_shape@[i as int] < 0);
                    }
                }
                proof {
                    assert forall|j: int| 0 <= j < new_shape@.len() implies new_shape@[j] != 0 by {
                        if new_shape@[j] == 0 {
                            lemma_known_zero(new_shape@, j);
                        }
                    }
                    lemma_known_large(new_shape@, total as nat, new_shape@);
                    assert(want =~= Seq::new(
                        new_shape@.len(),
                        |i: int|
                            if new_shape@[i] < 0 {
                                model::inferred(total as nat, model::known_size(new_shape@))
                            } else {
                                new_shape@[i] as usize
                            },
                    ));
                }
                if infer && total == 0 {
                    return Err(EvalError::Size);
                }
                return Err(EvalError::Reshape);
            },
        };
        let fill: usize = if known == 0 {
            0
        } else {
            total / known
        };
        let mut out: Vec<usize> = Vec::new();
        for i in 0..new_shape.len()
            invariant
                out@.len() == i,
                want == model::resolved(new_shape@, total as nat),
                fill == model::inferred(total as nat, model::known_size(new_shape@)),
                forall|j: int| 0 <= j < i ==> out@[j] == want[j],
        {
            if new_shape[i] < 0 {
                out.push(fill);
            } else {
                out.push(new_shape[i] as usize);
            }
        }
        assert(out@ =~= want);
        if !shape::check_fits(&out) {
            // The element count is compared before the size.
            let mut empty: bool = false;
            for i in 0..out.len()
                invariant
                    empty == exists|j: int| 0 <= j < i && #[trigger] out@[j] == 0,
            {
                if out[i] == 0 {
                    empty = true;
                    assert(out@[i as int] == 0);
                }
            }
            proof {
                lemma_product_or_volume(out@);
            }
            if empty && total == 0 {
                return Err(EvalError::Size);
            }
            return Err(EvalError::Reshape);
        }
        let n = out.len();
        let size = shape::size_of(&out, 0, n);
        assert(out@.subrange(0, n as int) =~= out@);
        if size != total {
            return Err(EvalError::Reshape);
        }
        Ok(Tensor::make(out, self.dup().into_inner()))
    }
}

/// The size is zero if an axis is empty, and the volume otherwise.
proof fn lemma_product_or_volume(s: Seq<usize>)
    ensures
        (exists|j: int| 0 <= j < s.len() && #[trigger] s[j] == 0) ==> shape::product(s) == 0,
        !(exists|j: int| 0 <= j < s.len() && #[trigger] s[j] == 0) ==> shape::product(s)
            == shape::volume(s),
    decreases s.len(),
{
    if s.len() > 0 {
        let e = s.drop_last();
        lemma_product_or_volume(e);
        let (p, l) = (shape::product(e), s.last() as nat);
        if exists|j: int| 0 <= j < s.len() && #[trigger] s[j] == 0 {
            let j = choose|j: int| 0 <= j < s.len() && #[trigger] s[j] == 0;
            if j < s.len() - 1 {
                assert(e[j] == 0);
            }
            assert(p * l == 0) by (nonlinear_arith)
                requires
                    p == 0 || l == 0,
            ;
        } else {
            assert forall|j: int| 0 <= j < e.len() implies #[trigger] e[j] != 0 by {
                assert(s[j] != 0);
            }
            assert(s[s.len() - 1] != 0);
        }
    }
}

/// The indices of a slice lie on the axis.
pub proof fn lemma_slice(len: int, start: int, end: Option<isize>, step: int)
    requires
        0 <= len,
        step != 0,
    ensures
        0 <= model::slice_count(len, start, end, step) <= len,
        forall|j: int|
            0 <= j < model::slice_count(len, start, end, step) ==> 0 <= model::slice_first(
                len,
                start,
                step,
            ) + #[trigger] (j * step) < len,
{
    let a = model::slice_first(len, start, step);
    let b = model::slice_stop(len, end, step);
    let c = model::slice_count(len, start, end, step);
    if step > 0 {
        if a < b {
            let d = b - a;
            assert(1 <= c <= d && (c - 1) * step < d) by (nonlinear_arith)
                requires
                    d > 0,
                    step > 0,
                    c == (d + step - 1) / step,
            ;
            assert forall|j: int| 0 <= j < c implies 0 <= a + #[trigger] (j * step) < len by {
                assert(0 <= j * step <= (c - 1) * step) by (nonlinear_arith)
                    requires
                        0 <= j <= c - 1,
                        step > 0,
                ;
            }
        }
    } else {
        if b < a {
            let d = a - b;
            let t = -step;
            assert(1 <= c <= d && (c - 1) * t < d) by (nonlinear_arith)
                requires
                    d > 0,
                    t > 0,
                    c == (d + t - 1) / t,
            ;
            assert forall|j: int| 0 <= j < c implies 0 <= a + #[trigger] (j * step) < len by {
                assert(0 <= j * t <= (c - 1) * t && j * step == -(j * t)) by (nonlinear_arith)
                    requires
                        0 <= j <= c - 1,
                        t > 0,
                        t == -step,
                ;
            }
        }
    }
}

/// The first index of a slice.
fn slice_start(len: usize, start: isize, step: isize) -> (r: i128)
    requires
        len <= isize::MAX,
    ensures
        r == model::slice_first(len as int, start as int, step as int),
        -1 <= r <= len,
{
    let n = len as i128;
    let s: i128 = if start < 0 {
        start as i128 + n
    } else {
        start as i128
    };
    let low: i128 = if step < 0 {
        -1
    } else {
        0
    };
    let high: i128 = if step < 0 {
        n - 1
    } else {
        n
    };
    if s < low {
        low
    } else if s > high {
        high
    } else {
        s
    }
}

/// The number of indices in a slice.
pub(crate) fn slice_length(len: usize, start: isize, end: Option<isize>, step: isize) -> (r: usize)
    requires
        len <= isize::MAX,
        step != 0,
    ensures
        r == model::slice_count(len as int, start as int, end, step as int),
        r <= len,
{
    let a = slice_start(len, start, step);
    let b: i128 = match end {
        Some(e) => slice_start(len, e, step),
        None => if step < 0 {
            -1
        } else {
            len as i128
        },
    };
    proof {
        lemma_slice(len as int, start as int, end, step as int);
    }
    if step > 0 {
        if a < b {
            let d = (b - a) as u128;
            let t = step as u128;
            let c = (d + t - 1) / t;
            c as usize
        } else {
            0
        }
    } else {
        if b < a {
            let d = (a - b) as u128;
            let t = (-(step as i128)) as u128;
            let c = (d + t - 1) / t;
            c as usize
        } else {
            0
        }
    }
}

impl<S: Scalar> Tensor<S> {
    /// The strided slice `start:end:step` along one axis. As in python, negative positions count
    /// from the end, and a negative step walks backwards.
    pub fn slice(&self, axis: isize, start: isize, end: Option<isize>, step: isize) -> (r: Result<
        Tensor<S>,
        EvalError,
    >)
        ensures
            tensor::outcome(r) == model::un_tensor(UnOpV::Slice(axis, start, end, step), self@),
    {
        let s = self.shape();
        let n = s.len();
        let nd = n as isize;
        if axis < -nd || axis >= nd {
            return Err(EvalError::Axis);
        }
        if step == 0 {
            return Err(EvalError::Step);
        }
        let ax = shape::norm_axis_index(axis, n);
        let len = s[ax];
        proof {
            shape::lemma_volume_bounds(s@);
            assert(s@[ax as int] <= shape::volume(s@));
        }
        let first = slice_start(len, start, step);
        let count = slice_length(len, start, end, step);
        let inner = shape::size_of(s, ax + 1, n);
        let mut out = tensor::copy_of(s);
        out.set(ax, count);
        proof {
            lemma_update(s@, ax as int, count);
            lemma_remove(s@, ax as int);
        }
        let size = shape::size_of(&out, 0, n);
        assert(out@.subrange(0, n as int) =~= out@);
        let values = self.values();
        let ghost o = model::outer_size(s@, ax as int) as int;
        let mut data: Vec<S> = Vec::new();
        for k in 0..size
            invariant
                values@ == self@.data,
                values@.len() == o * len * inner,
                values@.len() <= isize::MAX,
                size == o * count * inner,
                o >= 0,
                step != 0,
                len <= isize::MAX,
                first == model::slice_first(len as int, start as int, step as int),
                -1 <= first <= len,
                count == model::slice_count(len as int, start as int, end, step as int),
                data@.len() == k,
                forall|j: int|
                    0 <= j < k ==> data@[j] == values@[model::slice_index(
                        j,
                        len as int,
                        inner as int,
                        first as int,
                        count as int,
                        step as int,
                    )],
        {
            proof {
                let (kk, l, i, c) = (k as int, len as int, inner as int, count as int);
                lemma_row(kk, o * c, i);
                lemma_row(kk / i, o, c);
                lemma_slice(l, start as int, end, step as int);
                let j = kk / i % c;
                assert(0 <= first + j * (step as int) < l);
                lemma_cell(kk / i / c, first + j * (step as int), o, l);
                lemma_cell(
                    (kk / i / c) * l + (first + j * (step as int)),
                    kk % i,
                    o * l,
                    i,
                );
            }
            let x = k / inner;
            let j = x % count;
            proof {
                let (a, b) = (j as int, step as int);
                assert(-0x4000_0000_0000_0000_0000_0000_0000_0000 <= a * b
                    <= 0x4000_0000_0000_0000_0000_0000_0000_0000) by (nonlinear_arith)
                    requires
                        0 <= a <= 0x7fff_ffff_ffff_ffff,
                        -0x8000_0000_0000_0000 <= b <= 0x7fff_ffff_ffff_ffff,
                ;
            }
            let c = (first + (j as i128) * (step as i128)) as usize;
            data.push(values[((x / count) * len + c) * inner + k % inner]);
        }
        let r = Tensor::make(out, data);
        assert(r@.data =~= model::slice_data(
            self@,
            ax as int,
            start as int,
            end,
            step as int,
        ));
        Ok(r)
    }
}

/// The length of a padded axis, if it fits a `usize`.
pub(crate) fn padded_length<S: Scalar>(opt: &PaddingOptions<S>, d: usize) -> (r: Option<usize>)
    ensures
        match r {
            Some(l) => l == model::padded_len(opt@, d),
            None => model::padded_len(opt@, d) > usize::MAX,
        },
{
    let gaps: u128 = if d == 0 {
        0
    } else {
        (d - 1) as u128
    };
    let interior = opt.config.interior as u128;
    proof {
        let (a, b) = (gaps as int, interior as int);
        assert(0 <= a * b <= 0xffff_ffff_ffff_fffe * 0xffff_ffff_ffff_ffff) by (nonlinear_arith)
            requires
                0 <= a <= 0xffff_ffff_ffff_fffe,
                0 <= b <= 0xffff_ffff_ffff_ffff,
        ;
    }
    let total = gaps * interior + opt.config.left as u128 + d as u128 + opt.config.right as u128;
    if total <= usize::MAX as u128 {
        Some(total as usize)
    } else {
        None
    }
}

/// The coordinate that stands at coordinate `c` of an axis after padding, if one does.
fn padded_coordinate<S: Scalar>(opt: &PaddingOptions<S>, c: usize, d: usize, is_padded: bool) -> (r:
    Option<usize>)
    requires
        !is_padded ==> c < d,
    ensures
        match r {
            Some(x) => model::pad_coordinate(opt@, c as int, d as int, is_padded) == Some(x as int)
                && x < d,
            None => model::pad_coordinate(opt@, c as int, d as int, is_padded) is None,
        },
{
    if !is_padded {
        return Some(c);
    }
    if c < opt.config.left {
        return None;
    }
    let x = (c - opt.config.left) as u128;
    let g = opt.config.interior as u128 + 1;
    if x % g == 0 && x / g < d as u128 {
        Some((x / g) as usize)
    } else {
        None
    }
}

impl<S: Scalar> Tensor<S> {
    /// jax.lax.pad: per listed axis, add `left`/`right` padding and `interior`
    /// dilation between elements, filling with `value`.
    pub fn pad(&self, opt: &PaddingOptions<S>) -> (r: Result<Tensor<S>, EvalError>)
        ensures
            tensor::outcome(r) == model::un_tensor(UnOpV::Pad(opt@), self@),
    {
        let s = self.shape();
        let n = s.len();
        let mut out: Vec<usize> = Vec::new();
        for i in 0..n
            invariant
                n == s@.len(),
                n <= isize::MAX,
                s@ == self@.shape,
                out@.len() == i,
                forall|j: int|
                    0 <= j < i ==> out@[j] == #[trigger] model::pad_len(opt@, s@, j),
        {
            if is_named(&opt.axes, n, i) {
                match padded_length(opt, s[i]) {
                    Some(l) => {
                        out.push(l);
                    },
                    None => {
                        assert(model::pad_len(opt@, s@, i as int) > usize::MAX);
                        return Err(EvalError::Size);
                    },
                }
            } else {
                out.push(s[i]);
            }
        }
        proof {
            assert(forall|j: int|
                0 <= j < n ==> #[trigger] model::pad_len(opt@, s@, j) <= usize::MAX);
            assert(out@ =~= Seq::new(s@.len(), |i: int| model::pad_len(opt@, s@, i) as usize));
        }
        if !shape::check_fits(&out) {
            return Err(EvalError::Size);
        }
        let size = shape::size_of(&out, 0, n);
        assert(out@.subrange(0, n as int) =~= out@);
        let values = self.values();
        let mut data: Vec<S> = Vec::new();
        let ghost goal = model::pad_data(opt@, self@, out@);
        for k in 0..size
            invariant
                n == s@.len(),
                n == out@.len(),
                n <= isize::MAX,
                s@ == self@.shape,
                values@ == self@.data,
                self@.wf(),
                size == shape::product(out@),
                goal == model::pad_data(opt@, self@, out@),
                forall|j: int|
                    0 <= j < n ==> out@[j] == #[trigger] model::pad_len(opt@, s@, j),
                data@.len() == k,
                forall|j: int| 0 <= j < k ==> data@[j] == goal[j],
        {
            proof {
                shape::lemma_nonempty(out@);
                shape::lemma_unravel_ravel(k as int, out@);
            }
            let m = shape::flat_to_multi(k, &out);
            let mut source: Vec<usize> = Vec::new();
            let mut hit: bool = true;
            for i in 0..n
                invariant
                    n == s@.len(),
                    n == out@.len(),
                    n <= isize::MAX,
                    m@ == shape::unravel(k as int, out@),
                    shape::in_shape(m@, out@),
                    forall|j: int|
                        0 <= j < n ==> out@[j] == #[trigger] model::pad_len(opt@, s@, j),
                    hit ==> source@.len() == i,
                    hit ==> forall|j: int|
                        0 <= j < i ==> (#[trigger] model::pad_axis(opt@, m@, s@, j)) == Some(
                            source@[j] as int,
                        ) && source@[j] < s@[j],
                    !hit ==> exists|j: int|
                        0 <= j < n && (#[trigger] model::pad_axis(opt@, m@, s@, j)) is None,
            {
                let padded = is_named(&opt.axes, n, i);
                assert(m@[i as int] < out@[i as int]);
                assert(out@[i as int] == model::pad_len(opt@, s@, i as int));
                match padded_coordinate(opt, m[i], s[i], padded) {
                    Some(x) => {
                        assert(model::pad_axis(opt@, m@, s@, i as int) == Some(x as int));
                        if hit {
                            source.push(x);
                        }
                    },
                    None => {
                        assert(model::pad_axis(opt@, m@, s@, i as int) is None);
                        hit = false;
                    },
                }
            }
            if hit {
                proof {
                    assert(forall|j: int|
                        0 <= j < n ==> (#[trigger] model::pad_axis(opt@, m@, s@, j)) is Some);
                    assert(source@ =~= model::pad_coordinates(opt@, m@, s@)) by {
                        assert forall|j: int| 0 <= j < n implies source@[j]
                            == model::pad_coordinates(opt@, m@, s@)[j] by {
                            assert(model::pad_axis(opt@, m@, s@, j) == Some(source@[j] as int));
                        }
                    }
                    assert(shape::in_shape(source@, s@)) by {
                        assert forall|j: int| 0 <= j < n implies #[trigger] source@[j] < s@[j] by {
                            assert(model::pad_axis(opt@, m@, s@, j) == Some(source@[j] as int));
                        }
                    }
                }
                let q = shape::multi_to_flat(&source, s);
                data.push(values[q]);
            } else {
                data.push(opt.value);
            }
        }
        assert(data@ =~= goal);
        Ok(Tensor::make(out, data))
    }
}

impl<S: Scalar> Tensor<S> {
    /// The part at one index of an axis, which disappears.
    pub fn index_axis(&self, axis: usize, index: usize) -> (r: Tensor<S>)
        requires
            axis < self@.shape.len(),
            index < self@.shape[axis as int],
        ensures
            r@ == model::indexed(self@, axis as int, index as int),
    {
        let s = self.shape();
        let n = s.len();
        let len = s[axis];
        let inner = shape::size_of(s, axis + 1, n);
        let values = self.values();
        let mut out = tensor::copy_of(s);
        out.remove(axis);
        proof {
            shape::lemma_volume_bounds(s@);
            lemma_remove(s@, axis as int);
        }
        let m = out.len();
        let size = shape::size_of(&out, 0, m);
        assert(out@.subrange(0, m as int) =~= out@);
        let ghost o = model::outer_size(s@, axis as int) as int;
        let ghost goal = model::indexed(self@, axis as int, index as int);
        let mut data: Vec<S> = Vec::new();
        for q in 0..size
            invariant
                values@ == self@.data,
                s@ == self@.shape,
                axis < s@.len(),
                len == s@[axis as int],
                index < len,
                inner == model::inner_size(s@, axis as int),
                values@.len() == o * len * inner,
                values@.len() <= isize::MAX,
                size == o * inner,
                size == shape::product(s@.remove(axis as int)),
                o >= 0,
                goal == model::indexed(self@, axis as int, index as int),
                data@.len() == q,
                forall|j: int| 0 <= j < q ==> data@[j] == goal.data[j],
        {
            proof {
                lemma_row(q as int, o, inner as int);
                let (x, l, i) = (q as int / inner as int, len as int, inner as int);
                lemma_cell(x, index as int, o, l);
                lemma_cell(x * l + index, q as int % i, o * l, i);
            }
            data.push(values[((q / inner) * len + index) * inner + q % inner]);
        }
        assert(data@ =~= goal.data);
        Tensor::make(out, data)
    }
}

/// The views of a list of references to tensors.
pub open spec fn tensor_views<S>(v: Seq<&Tensor<S>>) -> Seq<TensorV<S>> {
    Seq::new(v.len(), |i: int| v[i]@)
}

/// Tensors of one shape on top of each other, along a new first axis. No tensors, and tensors of
/// different shapes, are errors.
pub fn stack<S: Scalar>(ts: &Vec<&Tensor<S>>) -> (r: Result<Tensor<S>, EvalError>)
    ensures
        tensor::outcome(r) == model::stacked(tensor_views(ts@)),
{
    let k = ts.len();
    let ghost tv = tensor_views(ts@);
    if k == 0 {
        return Err(EvalError::Empty);
    }
    let s = ts[0].shape();
    for i in 0..k
        invariant
            k == ts@.len(),
            k > 0,
            tv == tensor_views(ts@),
            s@ == ts@[0]@.shape,
            forall|j: int| 0 <= j < i ==> (#[trigger] tv[j]).shape == s@,
    {
        if !crate::interval::same_shape(ts[i].shape(), s) {
            assert(tv[i as int].shape != tv[0].shape);
            return Err(EvalError::Broadcast);
        }
    }
    let mut out: Vec<usize> = vec![k];
    for i in 0..s.len()
        invariant
            out@ == seq![k] + s@.subrange(0, i as int),
    {
        out.push(s[i]);
        assert(out@ =~= seq![k] + s@.subrange(0, i + 1));
    }
    assert(out@ =~= seq![k] + s@);
    if !shape::check_fits(&out) {
        return Err(EvalError::Size);
    }
    let p = ts[0].len();
    proof {
        shape::lemma_product_concat(seq![k], s@);
        shape::lemma_product_single(k);
        shape::lemma_volume_bounds(out@);
    }
    let ghost goal = model::stacked(tv)->Ok_0;
    let mut data: Vec<S> = Vec::new();
    proof {
        let b = p as int;
        assert(0 * b == 0) by (nonlinear_arith);
    }
    for i in 0..k
        invariant
            k == ts@.len(),
            k > 0,
            tv == tensor_views(ts@),
            s@ == ts@[0]@.shape,
            p == shape::product(s@),
            k * p <= isize::MAX,
            forall|j: int| 0 <= j < k ==> (#[trigger] tv[j]).shape == s@,
            goal == model::stacked(tv)->Ok_0,
            out@ == seq![k] + s@,
            shape::fits(out@),
            shape::product(out@) == k * p,
            data@.len() == i * p,
            forall|j: int| 0 <= j < data@.len() ==> data@[j] == goal.data[j],
    {
        let v = ts[i].values();
        assert(tv[i as int].shape == s@);
        for j in 0..p
            invariant
                k == ts@.len(),
                i < k,
                tv == tensor_views(ts@),
                v@ == ts@[i as int]@.data,
                v@.len() == p,
                s@ == tv[0].shape,
                p == shape::product(s@),
                forall|j: int| 0 <= j < k ==> (#[trigger] tv[j]).shape == s@,
                goal == model::stacked(tv)->Ok_0,
                out@ == seq![k] + s@,
                shape::fits(out@),
                shape::product(out@) == k * p,
                data@.len() == i * p + j,
                forall|j: int| 0 <= j < data@.len() ==> data@[j] == goal.data[j],
        {
            proof {
                lemma_cell(i as int, j as int, k as int, p as int);
            }
            data.push(v[j]);
        }
        proof {
            let (a, b) = (i as int, p as int);
            assert(a * b + b == (a + 1) * b) by (nonlinear_arith);
        }
    }
    assert(data@ =~= goal.data);
    Ok(Tensor::make(out, data))
}

} // verus!
