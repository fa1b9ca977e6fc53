//! Tensor operations that add elements up.

use vstd::prelude::*;
use crate::error::EvalError;
use crate::manipulate;
use crate::model;
use crate::model::{Fault, TensorV, UnOpV};
use crate::op::PoolOptions;
use crate::scalar;
use crate::scalar::Scalar;
use crate::shape;
use crate::tensor;
use crate::tensor::Tensor;

verus! {

/// Summing along an axis leaves a well-formed tensor, and removes the axis.
pub proof fn lemma_sum_axis<S: Scalar>(t: TensorV<S>, ax: int)
    requires
        t.wf(),
        0 <= ax < t.shape.len(),
    ensures
        model::sum_axis(t, ax).wf(),
        model::sum_axis(t, ax).shape == t.shape.remove(ax),
{
    manipulate::lemma_remove(t.shape, ax);
}

/// The shape of a reduced tensor does not depend on its elements.
pub proof fn lemma_sum_axes_shape<S: Scalar>(t: TensorV<S>, axes: Seq<isize>, n: int, k: nat)
    requires
        t.wf(),
        k <= t.shape.len(),
    ensures
        model::sum_axes(t, axes, n, k).shape == model::drop_axes(t.shape, axes, n, k),
        model::sum_axes(t, axes, n, k).wf(),
    decreases k,
{
    if k > 0 {
        if model::names_axis(axes, n, k - 1) {
            lemma_sum_axis(t, k - 1);
            lemma_sum_axes_shape(model::sum_axis(t, k - 1), axes, n, (k - 1) as nat);
        } else {
            lemma_sum_axes_shape(t, axes, n, (k - 1) as nat);
        }
    }
}

impl<S: Scalar> Tensor<S> {
    /// The sum along one axis, which disappears.
    pub fn sum_axis(&self, ax: usize) -> (r: Tensor<S>)
        requires
            ax < self@.shape.len(),
        ensures
            r@ == model::sum_axis(self@, ax as int),
    {
        let s = self.shape();
        let n = s.len();
        let len = s[ax];
        let inner = shape::size_of(s, ax + 1, n);
        let values = self.values();
        let mut out = tensor::copy_of(s);
        out.remove(ax);
        proof {
            shape::lemma_volume_bounds(s@);
            manipulate::lemma_remove(s@, ax as int);
        }
        let m = out.len();
        let size = shape::size_of(&out, 0, m);
        assert(out@.subrange(0, m as int) =~= out@);
        let ghost o = model::outer_size(s@, ax as int) as int;
        let mut data: Vec<S> = Vec::new();
        for q in 0..size
            invariant
                values@ == self@.data,
                values@.len() == o * len * inner,
                values@.len() <= isize::MAX,
                size == o * inner,
                o >= 0,
                data@.len() == q,
                forall|j: int|
                    0 <= j < q ==> data@[j] == model::line_sum(
                        values@,
                        len as int,
                        inner as int,
                        j,
                        len as nat,
                    ),
        {
            proof {
                manipulate::lemma_row(q as int, o, inner as int);
            }
            let mut acc: S = scalar::number::<S>(0);
            for a in 0..len
                invariant
                    values@.len() == o * len * inner,
                    values@.len() <= isize::MAX,
                    inner > 0,
                    0 <= q as int / inner as int,
                    (q as int / inner as int) < o,
                    acc == model::line_sum(
                        values@,
                        len as int,
                        inner as int,
                        q as int,
                        a as nat,
                    ),
            {
                proof {
                    let (x, l, i) = (q as int / inner as int, len as int, inner as int);
                    manipulate::lemma_cell(x, a as int, o, l);
                    manipulate::lemma_cell(x * l + a, q as int % i, o * l, i);
                }
                acc = acc.add(values[((q / inner) * len + a) * inner + q % inner]);
            }
            data.push(acc);
        }
        let r = Tensor::make(out, data);
        assert(r@ =~= model::sum_axis(self@, ax as int));
        r
    }

    /// Sum over the given axes (numpy default: axes are removed).
    pub fn reduce_sum(&self, axes: &[isize]) -> (r: Result<Tensor<S>, EvalError>)
        ensures
            tensor::outcome(r) == model::un_tensor(UnOpV::ReduceSum(axes@), self@),
    {
        let n = self.shape().len();
        if !manipulate::all_axes_ok(axes, n) {
            return Err(EvalError::Axis);
        }
        let mut t = self.dup();
        for i in 0..n
            invariant
                n <= isize::MAX,
                t@.wf(),
                t@.shape.len() >= n - i,
                model::sum_axes(self@, axes@, n as int, n as nat) == model::sum_axes(
                    t@,
                    axes@,
                    n as int,
                    (n - i) as nat,
                ),
        {
            let ax = n - 1 - i;
            if manipulate::is_named(axes, n, ax) {
                let u = t.sum_axis(ax);
                proof {
                    lemma_sum_axis(t@, ax as int);
                }
                t = u;
            }
        }
        proof {
            lemma_sum_axes_shape(self@, axes@, n as int, n as nat);
        }
        assert(t@ =~= model::sum_axes(self@, axes@, n as int, n as nat));
        Ok(t)
    }
}

/// The windows of a pooling operation lie in the tensor.
pub proof fn lemma_window(
    s: Seq<usize>,
    window: Seq<usize>,
    stride: Seq<usize>,
    out: Seq<usize>,
    k: int,
    j: int,
)
    requires
        model::pool_shape(s, window, stride) == Ok::<Seq<usize>, Fault>(out),
        0 <= k < shape::product(out),
        0 <= j < shape::product(window),
    ensures
        shape::in_shape(model::window_coordinates(window, stride, out, k, j), s),
        forall|ax: int|
            0 <= ax < s.len() ==> 0 <= #[trigger] stride[ax] * shape::unravel(k, out)[ax]
                <= stride[ax] * shape::unravel(k, out)[ax] + shape::unravel(j, window)[ax] < s[ax],
{
    shape::lemma_unravel_ravel(k, out);
    shape::lemma_unravel_ravel(j, window);
    let (m, w) = (shape::unravel(k, out), shape::unravel(j, window));
    assert forall|ax: int| 0 <= ax < s.len() implies 0 <= #[trigger] stride[ax] * m[ax]
        <= stride[ax] * m[ax] + w[ax] < s[ax] by {
        assert(m[ax] < out[ax]);
        assert(w[ax] < window[ax]);
        assert(window[ax] <= s[ax] && stride[ax] > 0);
        let (d, t, x) = (s[ax] - window[ax], stride[ax] as int, m[ax] as int);
        assert(d / t + 1 <= d + 1) by (nonlinear_arith)
            requires
                d >= 0,
                t > 0,
        ;
        assert(out[ax] == d / t + 1);
        assert(0 <= t * x <= d) by (nonlinear_arith)
            requires
                0 <= x <= d / t,
                d >= 0,
                t > 0,
        ;
    }
    let c = model::window_coordinates(window, stride, out, k, j);
    assert forall|ax: int| 0 <= ax < s.len() implies #[trigger] c[ax] < s[ax] by {
        assert(0 <= stride[ax] * m[ax] <= stride[ax] * m[ax] + w[ax] < s[ax]);
    }
}

/// Shorter axes make a smaller volume.
pub proof fn lemma_volume_monotone(a: Seq<usize>, b: Seq<usize>)
    requires
        a.len() == b.len(),
        forall|i: int| 0 <= i < a.len() ==> #[trigger] a[i] <= b[i],
    ensures
        shape::volume(a) <= shape::volume(b),
    decreases a.len(),
{
    if a.len() > 0 {
        assert forall|i: int| 0 <= i < a.len() - 1 implies #[trigger] a.drop_last()[i]
            <= b.drop_last()[i] by {
            assert(a[i] <= b[i]);
        }
        lemma_volume_monotone(a.drop_last(), b.drop_last());
        let (x, y) = (shape::volume(a.drop_last()), shape::volume(b.drop_last()));
        let l: nat = if a.last() == 0 {
            1
        } else {
            a.last() as nat
        };
        let m: nat = if b.last() == 0 {
            1
        } else {
            b.last() as nat
        };
        assert(a[a.len() - 1] <= b[a.len() - 1]);
        assert(x * l <= y * m) by (nonlinear_arith)
            requires
                x <= y,
                l <= m,
        ;
    }
}

impl<S: Scalar> Tensor<S> {
    /// Windowed sum/average pooling over every axis (per-axis window and stride).
    pub fn pool(&self, opt: &PoolOptions, average: bool) -> (r: Result<Tensor<S>, EvalError>)
        ensures
            tensor::outcome(r) == model::un_tensor(
                UnOpV::Pool(opt.window_size@, opt.stride@, average),
                self@,
            ),
    {
        let s = self.shape();
        let n = s.len();
        if opt.window_size.len() != n || opt.stride.len() != n {
            return Err(EvalError::PoolRank);
        }
        let mut out: Vec<usize> = Vec::new();
        for i in 0..n
            invariant
                n == s@.len(),
                s@ == self@.shape,
                shape::fits(s@),
                n == opt.window_size@.len(),
                n == opt.stride@.len(),
                out@.len() == i,
                forall|j: int|
                    0 <= j < i ==> opt.window_size@[j] <= #[trigger] s@[j] && opt.stride@[j] > 0,
                forall|j: int|
                    0 <= j < i ==> out@[j] == model::window_count(
                        s@,
                        opt.window_size@,
                        opt.stride@,
                        j,
                    ),
        {
            if opt.window_size[i] > s[i] || opt.stride[i] == 0 {
                assert(!(opt.window_size@[i as int] <= s@[i as int] && opt.stride@[i as int] > 0));
                return Err(EvalError::Window);
            }
            proof {
                shape::lemma_volume_bounds(s@);
                assert(s@[i as int] <= shape::volume(s@));
                let (d, t) = (s@[i as int] - opt.window_size@[i as int], opt.stride@[i as int] as int);
                assert(0 <= d / t <= d) by (nonlinear_arith)
                    requires
                        d >= 0,
                        t > 0,
                ;
            }
            out.push((s[i] - opt.window_size[i]) / opt.stride[i] + 1);
        }
        proof {
            assert(s@.len() == n);
            assert forall|j: int| 0 <= j < s@.len() implies opt.window_size@[j] <= #[trigger] s@[j]
                && opt.stride@[j] > 0 by {}
            assert(model::windows_ok(s@, opt.window_size@, opt.stride@));
            assert(out@ =~= Seq::new(
                s@.len(),
                |i: int| model::window_count(s@, opt.window_size@, opt.stride@, i) as usize,
            ));
        }
        if !shape::check_fits(&out) {
            return Err(EvalError::Size);
        }
        proof {
            lemma_volume_monotone(opt.window_size@, s@);
            assert(opt.window_size@.subrange(0, n as int) =~= opt.window_size@);
            assert(out@.subrange(0, n as int) =~= out@);
        }
        let size = shape::size_of(&out, 0, n);
        let total = shape::size_of(&opt.window_size, 0, n);
        let count = scalar::number::<S>(total as i128);
        let values = self.values();
        let ghost goal = model::pool_data(self@, opt.window_size@, opt.stride@, average, out@);
        let mut data: Vec<S> = Vec::new();
        for k in 0..size
            invariant
                n == s@.len(),
                n == out@.len(),
                n == opt.window_size@.len(),
                n == opt.stride@.len(),
                s@ == self@.shape,
                values@ == self@.data,
                self@.wf(),
                size == shape::product(out@),
                total == shape::product(opt.window_size@),
                count == scalar::num::<S>(total as int),
                model::pool_shape(s@, opt.window_size@, opt.stride@) == Ok::<Seq<usize>, Fault>(
                    out@,
                ),
                goal == model::pool_data(self@, opt.window_size@, opt.stride@, average, out@),
                data@.len() == k,
                forall|j: int| 0 <= j < k ==> data@[j] == goal[j],
        {
            proof {
                shape::lemma_nonempty(out@);
                shape::lemma_unravel_ravel(k as int, out@);
            }
            let m = shape::flat_to_multi(k, &out);
            let mut acc: S = scalar::number::<S>(0);
            for j in 0..total
                invariant
                    n == s@.len(),
                    n == out@.len(),
                    n == opt.window_size@.len(),
                    n == opt.stride@.len(),
                    s@ == self@.shape,
                    values@ == self@.data,
                    self@.wf(),
                    k < shape::product(out@),
                    m@ == shape::unravel(k as int, out@),
                    m@.len() == n,
                    total == shape::product(opt.window_size@),
                    model::pool_shape(s@, opt.window_size@, opt.stride@) == Ok::<Seq<usize>, Fault>(
                        out@,
                    ),
                    acc == model::window_sum(
                        self@,
                        opt.window_size@,
                        opt.stride@,
                        out@,
                        k as int,
                        j as nat,
                    ),
            {
                proof {
                    shape::lemma_nonempty(opt.window_size@);
                    shape::lemma_unravel_ravel(j as int, opt.window_size@);
                    lemma_window(
                        s@,
                        opt.window_size@,
                        opt.stride@,
                        out@,
                        k as int,
                        j as int,
                    );
                }
                let w = shape::flat_to_multi(j, &opt.window_size);
                let mut c: Vec<usize> = Vec::new();
                let ghost want = model::window_coordinates(
                    opt.window_size@,
                    opt.stride@,
                    out@,
                    k as int,
                    j as int,
                );
                for ax in 0..n
                    invariant
                        n == s@.len(),
                        n == out@.len(),
                        n == opt.stride@.len(),
                        m@ == shape::unravel(k as int, out@),
                        m@.len() == n,
                        w@ == shape::unravel(j as int, opt.window_size@),
                        w@.len() == n,
                        c@.len() == ax,
                        want == model::window_coordinates(
                            opt.window_size@,
                            opt.stride@,
                            out@,
                            k as int,
                            j as int,
                        ),
                        forall|i: int| 0 <= i < ax ==> c@[i] == want[i],
                        forall|i: int|
                            0 <= i < n ==> 0 <= #[trigger] opt.stride@[i] * shape::unravel(
                                k as int,
                                out@,
                            )[i] <= opt.stride@[i] * shape::unravel(k as int, out@)[i]
                                + shape::unravel(j as int, opt.window_size@)[i] < s@[i],
                {
                    assert(0 <= opt.stride@[ax as int] * shape::unravel(k as int, out@)[ax as int]);
                    c.push(opt.stride[ax] * m[ax] + w[ax]);
                }
                assert(c@ =~= want);
                let q = shape::multi_to_flat(&c, s);
                acc = acc.add(values[q]);
            }
            if average {
                data.push(acc.div(count));
            } else {
                data.push(acc);
            }
        }
        assert(data@ =~= goal);
        Ok(Tensor::make(out, data))
    }
}

} // verus!
