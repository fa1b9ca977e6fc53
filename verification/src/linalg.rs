//! Products of tensors.

use vstd::prelude::*;
use crate::error::EvalError;
use crate::manipulate;
use crate::model;
use crate::model::{BinOpV, Fault, TensorV};
use crate::scalar;
use crate::scalar::Scalar;
use crate::shape;
use crate::tensor;
use crate::tensor::Tensor;

verus! {

/// The sizes that a contraction of ranks at least one works with.
pub proof fn lemma_dot_sizes(a: Seq<usize>, b: Seq<usize>, out: Seq<usize>)
    requires
        a.len() > 0,
        b.len() > 0,
        model::dot_shape(a, b) == Ok::<Seq<usize>, Fault>(out),
    ensures
        shape::product(a) == shape::product(a.drop_last()) * (a.last() as nat),
        shape::product(b) == model::dot_planes(b) * (a.last() as nat) * model::dot_columns(b),
        shape::product(out) == shape::product(a.drop_last()) * model::dot_planes(b)
            * model::dot_columns(b),
{
    if b.len() == 1 {
        assert(b =~= seq![b[0]]);
        shape::lemma_product_single(b[0]);
        let (k, m) = (a.last() as nat, shape::product(a.drop_last()));
        let (p, n) = (model::dot_planes(b), model::dot_columns(b));
        assert(p * k * n == k && m * p * n == m) by (nonlinear_arith)
            requires
                p == 1,
                n == 1,
        ;
    } else {
        let p = b.subrange(0, b.len() - 2);
        let d = b.drop_last();
        assert(d.drop_last() =~= p);
        assert(d.last() == a.last());
        assert(shape::product(d) == shape::product(p) * (a.last() as nat));
        assert(shape::product(b) == shape::product(d) * (b.last() as nat));
        let h = a.drop_last() + p;
        shape::lemma_product_concat(a.drop_last(), p);
        shape::lemma_product_concat(h, seq![b.last()]);
        shape::lemma_product_single(b.last());
    }
}

/// The elements that a contraction multiplies exist.
pub proof fn lemma_dot_index(m: int, p: int, k: int, n: int, r: int, i: int)
    requires
        0 <= r < m * p * n,
        0 <= m,
        0 <= p,
        0 <= n,
        0 <= i < k,
    ensures
        n > 0,
        p > 0,
        0 <= (r / n / p) * k <= (r / n / p) * k + i < m * k,
        0 <= (r / n % p) * k <= (r / n % p) * k + i <= p * k * n,
        0 <= ((r / n % p) * k + i) * n <= ((r / n % p) * k + i) * n + r % n < p * k * n,
{
    manipulate::lemma_row(r, m * p, n);
    manipulate::lemma_row(r / n, m, p);
    manipulate::lemma_cell(r / n / p, i, m, k);
    manipulate::lemma_cell(r / n % p, i, p, k);
    manipulate::lemma_cell((r / n % p) * k + i, r % n, p * k, n);
}

impl<S: Scalar> Tensor<S> {
    /// The tensor with every element multiplied by `x` from the left.
    fn scaled(&self, x: S) -> (r: Tensor<S>)
        ensures
            r@ == (TensorV {
                shape: self@.shape,
                data: Seq::new(self@.data.len(), |k: int| x.times(self@.data[k])),
            }),
    {
        let times = |y: S| -> (z: S)
            ensures
                z == x.times(y),
            { x.mul(y) };
        let r = self.mapv(times);
        assert(r@.data =~= Seq::new(self@.data.len(), |k: int| x.times(self@.data[k])));
        r
    }

    /// The contraction of tensors with at least one axis each, to the given shape.
    fn contract(&self, b: &Tensor<S>, out: Vec<usize>) -> (r: Tensor<S>)
        requires
            self@.shape.len() > 0,
            b@.shape.len() > 0,
            model::dot_shape(self@.shape, b@.shape) == Ok::<Seq<usize>, Fault>(out@),
        ensures
            r@ == (TensorV { shape: out@, data: model::dot_data(self@, b@, out@) }),
    {
        let (ash, bsh) = (self.shape(), b.shape());
        let (na, nb) = (ash.len(), bsh.len());
        let k = ash[na - 1];
        let n: usize = if nb == 1 {
            1
        } else {
            bsh[nb - 1]
        };
        let p: usize = if nb == 1 {
            1
        } else {
            shape::size_of(bsh, 0, nb - 2)
        };
        let rank = out.len();
        let size = shape::size_of(&out, 0, rank);
        assert(out@.subrange(0, rank as int) =~= out@);
        let (x, y) = (self.values(), b.values());
        let ghost m = shape::product(ash@.drop_last()) as int;
        proof {
            lemma_dot_sizes(ash@, bsh@, out@);
            shape::lemma_volume_bounds(ash@);
            shape::lemma_volume_bounds(bsh@);
        }
        let mut data: Vec<S> = Vec::new();
        for r in 0..size
            invariant
                size == m * p * n,
                m >= 0,
                x@.len() == m * k,
                y@.len() == p * k * n,
                x@.len() <= isize::MAX,
                y@.len() <= isize::MAX,
                data@.len() == r,
                forall|j: int|
                    0 <= j < r ==> data@[j] == model::dot_sum(
                        x@,
                        y@,
                        k as int,
                        n as int,
                        p as int,
                        j,
                        k as nat,
                    ),
        {
            let mut acc: S = scalar::number::<S>(0);
            for i in 0..k
                invariant
                    r < m * p * n,
                    m >= 0,
                    x@.len() == m * k,
                    y@.len() == p * k * n,
                    x@.len() <= isize::MAX,
                    y@.len() <= isize::MAX,
                    acc == model::dot_sum(
                        x@,
                        y@,
                        k as int,
                        n as int,
                        p as int,
                        r as int,
                        i as nat,
                    ),
            {
                proof {
                    lemma_dot_index(m, p as int, k as int, n as int, r as int, i as int);
                }
                let u = x[(r / n / p) * k + i];
                let v = y[((r / n % p) * k + i) * n + r % n];
                acc = acc.add(u.mul(v));
            }
            data.push(acc);
        }
        let t = Tensor::make(out, data);
        assert(t@.data =~= model::dot_data(self@, b@, t@.shape));
        t
    }

    /// numpy.dot: contract the last axis of `a` with the second-to-last of `b`
    /// (or the only axis of `b` when it is 1-D).
    /// numpy.org/doc/stable/reference/generated/numpy.dot.html
    pub fn dot(&self, b: &Tensor<S>) -> (r: Result<Tensor<S>, EvalError>)
        ensures
            tensor::outcome(r) == model::bin_tensor(BinOpV::Dot, self@, b@),
    {
        let (ash, bsh) = (self.shape(), b.shape());
        let (na, nb) = (ash.len(), bsh.len());
        // a 0-D operand scales the other one
        if na == 0 {
            let x = self.values()[0];
            return Ok(b.scaled(x));
        }
        if nb == 0 {
            let y = b.values()[0];
            return Ok(self.scaled(y));
        }
        let mut out: Vec<usize> = Vec::new();
        for i in 0..na - 1
            invariant
                na == ash@.len(),
                na > 0,
                out@ == ash@.subrange(0, i as int),
        {
            out.push(ash[i]);
        }
        assert(ash@.subrange(0, na - 1) =~= ash@.drop_last());
        if nb == 1 {
            if ash[na - 1] != bsh[0] {
                return Err(EvalError::Dot);
            }
        } else {
            if ash[na - 1] != bsh[nb - 2] {
                return Err(EvalError::Dot);
            }
            for i in 0..nb - 2
                invariant
                    nb == bsh@.len(),
                    nb >= 2,
                    out@ == ash@.drop_last() + bsh@.subrange(0, i as int),
            {
                out.push(bsh[i]);
                assert(out@ =~= ash@.drop_last() + bsh@.subrange(0, i + 1));
            }
            out.push(bsh[nb - 1]);
            assert(out@ =~= ash@.drop_last() + bsh@.subrange(0, nb - 2) + seq![bsh@.last()]);
        }
        if !shape::check_fits(&out) {
            return Err(EvalError::Size);
        }
        Ok(self.contract(b, out))
    }
}

/// The flat index of an element of a tensor of rank four is in range, and so are the steps that
/// compute it.
pub proof fn lemma_at4(s: Seq<usize>, a: int, b: int, c: int, d: int)
    requires
        s.len() == 4,
        0 <= a < s[0],
        0 <= b < s[1],
        0 <= c < s[2],
        0 <= d < s[3],
    ensures
        0 <= model::at4(s, a, b, c, d) < shape::product(s),
        0 <= a * s[1] <= a * s[1] + b <= shape::product(s),
        0 <= (a * s[1] + b) * s[2] <= (a * s[1] + b) * s[2] + c <= shape::product(s),
        0 <= ((a * s[1] + b) * s[2] + c) * s[3] <= shape::product(s),
{
    lemma_product4(s);
    let (s0, s1, s2, s3) = (s[0] as int, s[1] as int, s[2] as int, s[3] as int);
    manipulate::lemma_cell(a, b, s0, s1);
    manipulate::lemma_cell(a * s1 + b, c, s0 * s1, s2);
    manipulate::lemma_cell((a * s1 + b) * s2 + c, d, s0 * s1 * s2, s3);
}

/// The size of a shape of rank four.
pub proof fn lemma_product4(s: Seq<usize>)
    requires
        s.len() == 4,
    ensures
        shape::product(s) == s[0] * s[1] * s[2] * s[3],
        shape::product(s.subrange(1, 4)) == s[1] * s[2] * s[3],
{
    let s3 = s.drop_last();
    let s2 = s3.drop_last();
    let s1 = s2.drop_last();
    let s0 = s1.drop_last();
    assert(shape::product(s0) == 1);
    assert(shape::product(s1) == 1 * s[0]);
    assert(shape::product(s2) == s[0] * s[1]);
    assert(shape::product(s3) == s[0] * s[1] * s[2]);
    assert(shape::product(s) == shape::product(s3) * s[3]);
    let t = s.subrange(1, 4);
    let t2 = t.drop_last();
    let t1 = t2.drop_last();
    let t0 = t1.drop_last();
    assert(shape::product(t0) == 1);
    assert(shape::product(t1) == 1 * s[1]);
    assert(shape::product(t2) == s[1] * s[2]);
}

/// The position of element `r` of a shape of rank four.
pub proof fn lemma_split4(r: int, s: Seq<usize>)
    requires
        s.len() == 4,
        0 <= r < shape::product(s),
    ensures
        s[1] > 0,
        s[2] > 0,
        s[3] > 0,
        0 <= r % (s[3] as int) < s[3],
        0 <= r / (s[3] as int) % (s[2] as int) < s[2],
        0 <= r / (s[3] as int) / (s[2] as int) % (s[1] as int) < s[1],
        0 <= r / (s[3] as int) / (s[2] as int) / (s[1] as int) < s[0],
{
    lemma_product4(s);
    let (s0, s1, s2, s3) = (s[0] as int, s[1] as int, s[2] as int, s[3] as int);
    manipulate::lemma_row(r, s0 * s1 * s2, s3);
    manipulate::lemma_row(r / s3, s0 * s1, s2);
    manipulate::lemma_row(r / s3 / s2, s0, s1);
}

/// The position of element `u` in a box of `a` by `b` by `c`.
pub proof fn lemma_split3(u: int, a: int, b: int, c: int)
    requires
        0 <= u < a * b * c,
        0 <= b,
        0 <= c,
    ensures
        b > 0,
        c > 0,
        0 <= u % c < c,
        0 <= u / c % b < b,
        0 <= u / c / b < a,
{
    manipulate::lemma_row(u, a * b, c);
    manipulate::lemma_row(u / c, a, b);
}

/// A window at position `x` of `(h - k) / s + 1` lies on an axis of length `h`.
pub proof fn lemma_reach(h: int, k: int, s: int, x: int, i: int)
    requires
        0 <= k <= h,
        s > 0,
        0 <= x < (h - k) / s + 1,
        0 <= i < k,
    ensures
        0 <= s * x <= s * x + i < h,
{
    let d = h - k;
    assert(0 <= s * x <= d) by (nonlinear_arith)
        requires
            0 <= x <= d / s,
            d >= 0,
            s > 0,
    ;
}

impl<S: Scalar> Tensor<S> {
    /// 2-D cross-correlation (NCHW input, OIHW kernel), single stride for H and W.
    pub fn conv(&self, kernel: &Tensor<S>, stride: isize) -> (r: Result<Tensor<S>, EvalError>)
        ensures
            tensor::outcome(r) == model::bin_tensor(BinOpV::Conv(stride), self@, kernel@),
    {
        let (ash, ksh) = (self.shape(), kernel.shape());
        if ash.len() != 4 || ksh.len() != 4 {
            return Err(EvalError::ConvRank);
        }
        let s = stride as usize;
        if ksh[1] != ash[1] {
            return Err(EvalError::ConvChannels);
        }
        if s == 0 || ash[2] < ksh[2] || ash[3] < ksh[3] {
            return Err(EvalError::Window);
        }
        proof {
            shape::lemma_volume_bounds(ash@);
            shape::lemma_volume_bounds(ksh@);
            assert(ash@[2] <= shape::volume(ash@));
            assert(ash@[3] <= shape::volume(ash@));
            let (d, e, t) = (ash@[2] - ksh@[2], ash@[3] - ksh@[3], s as int);
            assert(0 <= d / t <= d && 0 <= e / t <= e) by (nonlinear_arith)
                requires
                    d >= 0,
                    e >= 0,
                    t > 0,
            ;
        }
        let oh: usize = (ash[2] - ksh[2]) / s + 1;
        let ow: usize = (ash[3] - ksh[3]) / s + 1;
        let oc: usize = ksh[0];
        let out: Vec<usize> = vec![ash[0], oc, oh, ow];
        assert(out@ =~= seq![ash@[0], ksh@[0], oh, ow]);
        if !shape::check_fits(&out) {
            return Err(EvalError::Size);
        }
        let size = shape::size_of(&out, 0, 4);
        let terms = shape::size_of(ksh, 1, 4);
        assert(out@.subrange(0, 4) =~= out@);
        let (x, y) = (self.values(), kernel.values());
        let (kh, kw) = (ksh[2], ksh[3]);
        let ghost goal = model::conv_data(self@, kernel@, stride, out@);
        let mut data: Vec<S> = Vec::new();
        for r in 0..size
            invariant
                ash@ == self@.shape,
                ksh@ == kernel@.shape,
                ash@.len() == 4,
                ksh@.len() == 4,
                out@ == seq![ash@[0], oc, oh, ow],
                oc == ksh@[0],
                kh == ksh@[2],
                kw == ksh@[3],
                s > 0,
                s == stride as usize,
                ksh@[1] == ash@[1],
                ksh@[2] <= ash@[2],
                ksh@[3] <= ash@[3],
                oh == (ash@[2] - ksh@[2]) / (s as int) + 1,
                ow == (ash@[3] - ksh@[3]) / (s as int) + 1,
                self@.wf(),
                kernel@.wf(),
                x@ == self@.data,
                y@ == kernel@.data,
                x@.len() <= isize::MAX,
                y@.len() <= isize::MAX,
                size == shape::product(out@),
                terms == shape::product(ksh@.subrange(1, 4)),
                goal == model::conv_data(self@, kernel@, stride, out@),
                data@.len() == r,
                forall|j: int| 0 <= j < r ==> data@[j] == goal[j],
        {
            proof {
                lemma_split4(r as int, out@);
            }
            let (wi, hi) = (r % ow, r / ow % oh);
            let (ci, ni) = (r / ow / oh % oc, r / ow / oh / oc);
            let mut acc: S = scalar::number::<S>(0);
            for u in 0..terms
                invariant
                    ash@ == self@.shape,
                    ksh@ == kernel@.shape,
                    ash@.len() == 4,
                    ksh@.len() == 4,
                    out@ == seq![ash@[0], oc, oh, ow],
                    oc == ksh@[0],
                    kh == ksh@[2],
                    kw == ksh@[3],
                    s > 0,
                    ksh@[1] == ash@[1],
                    ksh@[2] <= ash@[2],
                    ksh@[3] <= ash@[3],
                    oh == (ash@[2] - ksh@[2]) / (s as int) + 1,
                    ow == (ash@[3] - ksh@[3]) / (s as int) + 1,
                    self@.wf(),
                    kernel@.wf(),
                    x@ == self@.data,
                    y@ == kernel@.data,
                    x@.len() <= isize::MAX,
                    y@.len() <= isize::MAX,
                    terms == shape::product(ksh@.subrange(1, 4)),
                    0 < ow,
                    0 < oh,
                    0 < oc,
                    wi == r as int % ow as int,
                    hi == r as int / ow as int % oh as int,
                    ci == r as int / ow as int / oh as int % oc as int,
                    ni == r as int / ow as int / oh as int / oc as int,
                    wi < ow,
                    hi < oh,
                    ci < oc,
                    ni < ash@[0],
                    acc == model::conv_sum(
                        self@,
                        kernel@,
                        s as int,
                        out@,
                        r as int,
                        u as nat,
                    ),
            {
                proof {
                    lemma_product4(ksh@);
                    lemma_split3(u as int, ksh@[1] as int, kh as int, kw as int);
                    let (j, i) = (u as int % kw as int, u as int / kw as int % kh as int);
                    let c = u as int / kw as int / kh as int;
                    lemma_reach(ash@[2] as int, kh as int, s as int, hi as int, i);
                    lemma_reach(ash@[3] as int, kw as int, s as int, wi as int, j);
                    lemma_at4(ash@, ni as int, c, s * hi + i, s * wi + j);
                    lemma_at4(ksh@, ci as int, c, i, j);
                }
                let (j, i, c) = (u % kw, u / kw % kh, u / kw / kh);
                let p = x[((ni * ash[1] + c) * ash[2] + (s * hi + i)) * ash[3] + (s * wi + j)];
                let q = y[((ci * ksh[1] + c) * ksh[2] + i) * ksh[3] + j];
                assert(p.times(q) == model::conv_term(
                    self@,
                    kernel@,
                    s as int,
                    out@,
                    r as int,
                    u as int,
                ));
                acc = acc.add(p.mul(q));
            }
            data.push(acc);
        }
        assert(data@ =~= goal);
        Ok(Tensor::make(out, data))
    }

    /// Gradient of a convolution with respect to its kernel, of shape `kernel_shape`, for the
    /// gradient `self` of the result and the convolved `input`.
    pub fn conv_kernel_grad(
        &self,
        input: &Tensor<S>,
        stride: isize,
        kernel_shape: &[usize],
    ) -> (r: Result<Tensor<S>, EvalError>)
        ensures
            tensor::outcome(r) == model::bin_tensor(
                BinOpV::ConvKernelGrad(stride, kernel_shape@),
                self@,
                input@,
            ),
    {
        let (gsh, ash) = (self.shape(), input.shape());
        let k = kernel_shape;
        if gsh.len() != 4 || ash.len() != 4 || k.len() != 4 {
            return Err(EvalError::ConvRank);
        }
        let s = stride as usize;
        let reads_g: bool = gsh[0] > 0 && k[0] > 0 && gsh[2] > 0 && gsh[3] > 0;
        let reads_a: bool = reads_g && k[1] > 0 && k[2] > 0 && k[3] > 0;
        if reads_g && k[0] > gsh[1] {
            return Err(EvalError::Window);
        }
        if reads_a {
            proof {
                let (a, b, t) = (gsh@[2] - 1, gsh@[3] - 1, s as int);
                assert(0 <= a * t <= 0xffff_ffff_ffff_fffe * 0xffff_ffff_ffff_ffff && 0 <= b * t
                    <= 0xffff_ffff_ffff_fffe * 0xffff_ffff_ffff_ffff) by (nonlinear_arith)
                    requires
                        0 <= a <= 0xffff_ffff_ffff_fffe,
                        0 <= b <= 0xffff_ffff_ffff_fffe,
                        0 <= t <= 0xffff_ffff_ffff_ffff,
                ;
            }
            let bottom = (gsh[2] as u128 - 1) * (s as u128) + k[2] as u128;
            let right = (gsh[3] as u128 - 1) * (s as u128) + k[3] as u128;
            if gsh[0] > ash[0] || k[1] > ash[1] || bottom > ash[2] as u128 || right
                > ash[3] as u128 {
                return Err(EvalError::Window);
            }
        }
        if !shape::check_fits(k) {
            return Err(EvalError::Size);
        }
        let size = shape::size_of(k, 0, 4);
        assert(k@.subrange(0, 4) =~= k@);
        let (x, y) = (self.values(), input.values());
        proof {
            shape::lemma_volume_bounds(gsh@);
            shape::lemma_volume_bounds(ash@);
        }
        let (kc, kh, kw) = (k[1], k[2], k[3]);
        let (oh, ow) = (gsh[2], gsh[3]);
        let ghost goal = model::kernel_grad_data(self@, input@, stride, k@);
        let ghost terms = gsh@[0] * gsh@[2] * gsh@[3];
        proof {
            lemma_term_count(gsh@);
        }
        let terms_x: usize = if reads_g {
            gsh[0] * gsh[2] * gsh[3]
        } else {
            0
        };
        let mut data: Vec<S> = Vec::new();
        for r in 0..size
            invariant
                k@ == kernel_shape@,
                gsh@ == self@.shape,
                ash@ == input@.shape,
                gsh@.len() == 4,
                ash@.len() == 4,
                k@.len() == 4,
                kc == k@[1],
                kh == k@[2],
                kw == k@[3],
                oh == gsh@[2],
                ow == gsh@[3],
                s == stride as usize,
                model::kernel_grad_ok(gsh@, ash@, s as int, k@),
                self@.wf(),
                input@.wf(),
                x@ == self@.data,
                y@ == input@.data,
                x@.len() <= isize::MAX,
                y@.len() <= isize::MAX,
                size == shape::product(k@),
                terms == gsh@[0] * gsh@[2] * gsh@[3],
                reads_g == (gsh@[0] > 0 && k@[0] > 0 && gsh@[2] > 0 && gsh@[3] > 0),
                reads_g ==> terms_x == terms,
                !reads_g ==> terms_x == 0,
                goal == model::kernel_grad_data(self@, input@, stride, k@),
                data@.len() == r,
                forall|j: int| 0 <= j < r ==> data@[j] == goal[j],
        {
            proof {
                lemma_split4(r as int, k@);
                if !reads_g {
                    assert(gsh@[0] == 0 || gsh@[2] == 0 || gsh@[3] == 0);
                    let (a, b, c) = (gsh@[0] as int, gsh@[2] as int, gsh@[3] as int);
                    assert(a * b * c == 0) by (nonlinear_arith)
                        requires
                            a == 0 || b == 0 || c == 0,
                    ;
                }
                assert(terms_x == terms);
            }
            let (kwi, khi) = (r % kw, r / kw % kh);
            let (ici, oci) = (r / kw / kh % kc, r / kw / kh / kc);
            let mut acc: S = scalar::number::<S>(0);
            for u in 0..terms_x
                invariant
                    gsh@ == self@.shape,
                    ash@ == input@.shape,
                    gsh@.len() == 4,
                    ash@.len() == 4,
                    k@.len() == 4,
                    kc == k@[1],
                    kh == k@[2],
                    kw == k@[3],
                    oh == gsh@[2],
                    ow == gsh@[3],
                    model::kernel_grad_ok(gsh@, ash@, s as int, k@),
                    self@.wf(),
                    input@.wf(),
                    x@ == self@.data,
                    y@ == input@.data,
                    x@.len() <= isize::MAX,
                    y@.len() <= isize::MAX,
                    terms_x == gsh@[0] * gsh@[2] * gsh@[3],
                    0 < kw,
                    0 < kh,
                    0 < kc,
                    kwi == r as int % kw as int,
                    khi == r as int / kw as int % kh as int,
                    ici == r as int / kw as int / kh as int % kc as int,
                    oci == r as int / kw as int / kh as int / kc as int,
                    kwi < kw,
                    khi < kh,
                    ici < kc,
                    oci < k@[0],
                    acc == model::kernel_grad_sum(
                        self@,
                        input@,
                        s as int,
                        k@,
                        r as int,
                        u as nat,
                    ),
            {
                proof {
                    lemma_split3(u as int, gsh@[0] as int, oh as int, ow as int);
                    let (wi, hi) = (u as int % ow as int, u as int / ow as int % oh as int);
                    let ni = u as int / ow as int / oh as int;
                    lemma_at4(gsh@, ni, oci as int, hi, wi);
                    let t = s as int;
                    let (a, b) = (gsh@[2] - 1, gsh@[3] - 1);
                    assert(0 <= hi * t <= a * t && 0 <= wi * t <= b * t) by (nonlinear_arith)
                        requires
                            0 <= hi <= a,
                            0 <= wi <= b,
                            t >= 0,
                    ;
                    lemma_at4(ash@, ni, ici as int, hi * s + khi, wi * s + kwi);
                }
                let (wi, hi, ni) = (u % ow, u / ow % oh, u / ow / oh);
                let p = x[((ni * gsh[1] + oci) * gsh[2] + hi) * gsh[3] + wi];
                let q = y[((ni * ash[1] + ici) * ash[2] + (hi * s + khi)) * ash[3] + (wi * s
                    + kwi)];
                assert(p.times(q) == model::kernel_grad_term(
                    self@,
                    input@,
                    s as int,
                    k@,
                    r as int,
                    u as int,
                ));
                acc = acc.add(p.mul(q));
            }
            data.push(acc);
        }
        assert(data@ =~= goal);
        Ok(Tensor::make(tensor::copy_of(k), data))
    }
}

/// Leaving out one axis of a shape of rank four with elements gives at most as many elements.
proof fn lemma_term_count(g: Seq<usize>)
    requires
        g.len() == 4,
        shape::fits(g),
    ensures
        0 <= g[0] * g[2] <= usize::MAX || g[3] == 0,
        g[0] > 0 && g[2] > 0 && g[3] > 0 ==> 0 <= g[0] * g[2] <= isize::MAX && 0 <= g[0] * g[2]
            * g[3] <= isize::MAX,
{
    let h = g.remove(1);
    manipulate::lemma_remove(g, 1);
    shape::lemma_volume_bounds(h);
    let h2 = h.drop_last();
    let h1 = h2.drop_last();
    let h0 = h1.drop_last();
    assert(shape::product(h0) == 1);
    assert(shape::product(h1) == 1 * g[0]);
    assert(shape::product(h2) == g[0] * g[2]);
    assert(shape::product(h) == g[0] * g[2] * g[3]);
    let (a, b) = (g[0] * g[2], g[3] as int);
    assert(g[0] * g[2] >= 0) by (nonlinear_arith);
    if b > 0 {
        assert(a <= a * b) by (nonlinear_arith)
            requires
                a >= 0,
                b > 0,
        ;
    }
    assert(a * b >= 0) by (nonlinear_arith)
        requires
            a >= 0,
            b >= 0,
    ;
}

} // verus!
