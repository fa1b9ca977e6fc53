//! The gradient of a convolution with respect to its kernel, in exact arithmetic.

use vstd::prelude::*;
use crate::contracting;
use crate::exact;
use crate::linalg;
use crate::manipulate;
use crate::model;
use crate::model::{BinOpV, Fault, TensorV};
use crate::pairing;
use crate::reals;
use crate::scalar::Scalar;
use crate::shape;
use crate::sums;

verus! {

/// The number of the input that number `u` of a kernel meets at place `p` of sample `n`; `w` and `h`
/// are the last lengths of the result and `kw` and `kh` those of the kernel.
pub open spec fn tap<S>(
    v: spec_fn(S) -> real,
    x: TensorV<S>,
    s: int,
    w: int,
    kh: int,
    kw: int,
    n: int,
    p: int,
    u: int,
) -> real {
    v(x.data[model::at4(x.shape, n, u / kw / kh, s * (p / w) + u / kw % kh, s * (p % w) + u % kw)])
}

/// The place of an element of a result.
proof fn lemma_result_place(n: int, co: int, p: int, nn: int, cc: int, h: int, w: int)
    requires
        0 <= n < nn,
        0 <= co < cc,
        0 <= p < h * w,
        0 <= w,
    ensures
        ({
            let r = (n * cc + co) * (h * w) + p;
            &&& 0 < w
            &&& 0 <= r < nn * cc * h * w
            &&& r % w == p % w
            &&& r / w % h == p / w
            &&& r / w / h % cc == co
            &&& r / w / h / cc == n
            &&& r == ((n * cc + co) * h + p / w) * w + p % w
        }),
{
    manipulate::lemma_row(p, h, w);
    let (a, y, x) = (n * cc + co, p / w, p % w);
    assert(a * (h * w) + (y * w + x) == (a * h + y) * w + x) by (nonlinear_arith);
    manipulate::lemma_cell(n, co, nn, cc);
    manipulate::lemma_cell(a, y, nn * cc, h);
    manipulate::lemma_cell(a * h + y, x, nn * cc * h, w);
}

/// The place of an element of a kernel.
proof fn lemma_kernel_place(co: int, u: int, cc: int, kc: int, kh: int, kw: int)
    requires
        0 <= co < cc,
        0 <= u < kc * kh * kw,
        0 <= kh,
        0 <= kw,
    ensures
        ({
            let q = co * (kc * kh * kw) + u;
            &&& 0 < kw
            &&& 0 < kh
            &&& 0 <= q < cc * kc * kh * kw
            &&& q == ((co * kc + u / kw / kh) * kh + u / kw % kh) * kw + u % kw
            &&& q % kw == u % kw
            &&& q / kw % kh == u / kw % kh
            &&& q / kw / kh % kc == u / kw / kh
            &&& q / kw / kh / kc == co
        }),
{
    linalg::lemma_split3(u, kc, kh, kw);
    manipulate::lemma_row(u, kc * kh, kw);
    manipulate::lemma_row(u / kw, kc, kh);
    let (c, i, j) = (u / kw / kh, u / kw % kh, u % kw);
    let m = kc * kh;
    assert(co * (m * kw) == co * m * kw) by (nonlinear_arith);
    assert(co * (kc * kh) == co * kc * kh) by (nonlinear_arith);
    let b = co * kc;
    assert((b + c) * kh == b * kh + c * kh) by (nonlinear_arith);
    let (d, e) = (b * kh, c * kh + i);
    assert((d + e) * kw == d * kw + e * kw) by (nonlinear_arith);
    manipulate::lemma_cell(co, c, cc, kc);
    manipulate::lemma_cell(b + c, i, cc * kc, kh);
    manipulate::lemma_cell((b + c) * kh + i, j, cc * kc * kh, kw);
}

/// The elements of a convolution.
#[verifier::spinoff_prover]
#[verifier::rlimit(60)]
proof fn lemma_result_cell<S: Scalar>(
    v: spec_fn(S) -> real,
    x: TensorV<S>,
    k: TensorV<S>,
    stride: isize,
    y: TensorV<S>,
    n: int,
    co: int,
    p: int,
)
    requires
        exact::exact(v),
        reals::full(x),
        reals::full(k),
        model::bin_tensor(BinOpV::Conv(stride), x, k) == Ok::<TensorV<S>, Fault>(y),
        0 <= n < y.shape[0],
        0 <= co < y.shape[1],
        0 <= p < y.shape[2] * y.shape[3],
    ensures
        y.shape[1] == k.shape[0],
        ({
            let s = (stride as usize) as int;
            let (cc, h, w) = (y.shape[1] as int, y.shape[2] as int, y.shape[3] as int);
            let (kc, kh, kw) = (k.shape[1] as int, k.shape[2] as int, k.shape[3] as int);
            v(y.data[(n * cc + co) * (h * w) + p]) == sums::sum(
                |u: int| v(k.data[co * (kc * kh * kw) + u]) * tap(v, x, s, w, kh, kw, n, p, u),
                (kc * kh * kw) as nat,
            )
        }),
{
    let op = BinOpV::Conv(stride);
    let s = (stride as usize) as int;
    let out = y.shape;
    let (cc, h, w) = (out[1] as int, out[2] as int, out[3] as int);
    let (kc, kh, kw) = (k.shape[1] as int, k.shape[2] as int, k.shape[3] as int);
    let r = (n * cc + co) * (h * w) + p;
    lemma_result_place(n, co, p, out[0] as int, cc, h, w);
    linalg::lemma_product4(out);
    linalg::lemma_product4(k.shape);
    reals::lemma_bilinear(v, op, x, k, out, r);
    let f = |i: int|
        v(x.data[reals::left_index(op, x.shape, k.shape, out, r, i)]) * v(
            k.data[reals::right_index(op, x.shape, k.shape, out, r, i)],
        );
    let g = |u: int| v(k.data[co * (kc * kh * kw) + u]) * tap(v, x, s, w, kh, kw, n, p, u);
    let m = (kc * kh * kw) as nat;
    assert forall|u: int| 0 <= u < m implies #[trigger] f(u) == g(u) by {
        lemma_kernel_place(co, u, cc, kc, kh, kw);
        exact::lemma_units(
            v(k.data[co * (kc * kh * kw) + u]),
            tap(v, x, s, w, kh, kw, n, p, u),
        );
    }
    sums::lemma_sum_same(f, g, m);
}

/// A sum of products in the gradient of a convolution with respect to its kernel.
proof fn lemma_kernel_sum<S: Scalar>(
    v: spec_fn(S) -> real,
    g: TensorV<S>,
    x: TensorV<S>,
    s: int,
    k: Seq<usize>,
    r: int,
    m: nat,
)
    requires
        exact::exact(v),
    ensures
        v(model::kernel_grad_sum(g, x, s, k, r, m)) == sums::sum(
            |u: int| v(model::kernel_grad_term(g, x, s, k, r, u)),
            m,
        ),
    decreases m,
{
    exact::lemma_numbers(v);
    if m > 0 {
        lemma_kernel_sum(v, g, x, s, k, r, (m - 1) as nat);
    }
}

/// The elements of the gradient.
#[verifier::spinoff_prover]
#[verifier::rlimit(60)]
proof fn lemma_kernel_cell<S: Scalar>(
    v: spec_fn(S) -> real,
    g: TensorV<S>,
    x: TensorV<S>,
    stride: isize,
    k: Seq<usize>,
    q: TensorV<S>,
    co: int,
    u: int,
)
    requires
        exact::exact(v),
        model::bin_tensor(BinOpV::ConvKernelGrad(stride, k), g, x) == Ok::<TensorV<S>, Fault>(q),
        g.shape[1] == k[0],
        0 <= co < k[0],
        0 <= u < k[1] * k[2] * k[3],
    ensures
        ({
            let s = (stride as usize) as int;
            let (cc, h, w) = (g.shape[1] as int, g.shape[2] as int, g.shape[3] as int);
            let (kc, kh, kw) = (k[1] as int, k[2] as int, k[3] as int);
            let p = h * w;
            v(q.data[co * (kc * kh * kw) + u]) == sums::sum(
                |m: int|
                    v(g.data[((m / p) * cc + co) * p + m % p]) * tap(
                        v,
                        x,
                        s,
                        w,
                        kh,
                        kw,
                        m / p,
                        m % p,
                        u,
                    ),
                (g.shape[0] * p) as nat,
            )
        }),
{
    let s = (stride as usize) as int;
    let (nn, cc, h, w) = (
        g.shape[0] as int,
        g.shape[1] as int,
        g.shape[2] as int,
        g.shape[3] as int,
    );
    let (kc, kh, kw) = (k[1] as int, k[2] as int, k[3] as int);
    let p = h * w;
    let r = co * (kc * kh * kw) + u;
    lemma_kernel_place(co, u, cc, kc, kh, kw);
    linalg::lemma_product4(k);
    assert(nn * h * w == nn * (h * w)) by (nonlinear_arith);
    let count = (nn * p) as nat;
    assert(0 <= nn * p) by (nonlinear_arith)
        requires
            0 <= nn,
            0 <= p,
            p == h * w,
            0 <= h,
            0 <= w,
    ;
    lemma_kernel_sum(v, g, x, s, k, r, count);
    let f = |m: int| v(model::kernel_grad_term(g, x, s, k, r, m));
    let e = |m: int|
        v(g.data[((m / p) * cc + co) * p + m % p]) * tap(v, x, s, w, kh, kw, m / p, m % p, u);
    assert forall|m: int| 0 <= m < count implies #[trigger] f(m) == e(m) by {
        assert(0 <= p) by (nonlinear_arith)
            requires
                p == h * w,
                0 <= h,
                0 <= w,
        ;
        manipulate::lemma_row(m, nn, p);
        let (n, z) = (m / p, m % p);
        lemma_result_place(n, co, z, nn, cc, h, w);
        lemma_result_place(n, 0, z, nn, 1, h, w);
        assert(n * 1 + 0 == n);
        assert(m % w == z % w);
        assert(m / w % h == z / w);
        assert(m / w / h == n) by {
            assert(m / w / h / 1 == n);
            let a = m / w / h;
            assert(a / 1 == a) by (nonlinear_arith);
        }
        let (hi, wi) = (z / w, z % w);
        assert(hi * s == s * hi && wi * s == s * wi) by (nonlinear_arith);
    }
    sums::lemma_sum_same(f, e, count);
}

/// A sum over samples, channels and places, by channel.
#[verifier::spinoff_prover]
#[verifier::rlimit(60)]
proof fn lemma_by_channel(f: spec_fn(int) -> real, nn: nat, cc: nat, p: nat)
    ensures
        sums::sum(f, nn * cc * p) == sums::sum(
            |co: int| sums::sum(|m: int| f(((m / (p as int)) * cc + co) * p + m % (p as int)), nn * p),
            cc,
        ),
{
    sums::lemma_sum_blocks(f, nn * cc, p);
    let row = |a: int| sums::sum(|z: int| f(a * p + z), p);
    sums::lemma_sum_blocks(row, nn, cc);
    let b = |n: int, co: int| row(n * cc + co);
    sums::lemma_sum_swap(b, nn, cc);
    let left = |n: int| sums::sum(|co: int| b(n, co), cc);
    let left2 = |n: int| sums::sum(|co: int| row(n * cc + co), cc);
    assert forall|n: int| 0 <= n < nn implies #[trigger] left(n) == left2(n) by {
        sums::lemma_sum_same(|co: int| b(n, co), |co: int| row(n * cc + co), cc);
    }
    sums::lemma_sum_same(left, left2, nn);
    let right = |co: int| sums::sum(|n: int| b(n, co), nn);
    let want = |co: int|
        sums::sum(|m: int| f(((m / (p as int)) * cc + co) * p + m % (p as int)), nn * p);
    assert forall|co: int| 0 <= co < cc implies #[trigger] right(co) == want(co) by {
        let h = |m: int| f(((m / (p as int)) * cc + co) * p + m % (p as int));
        sums::lemma_sum_blocks(h, nn, p);
        let x = |n: int| b(n, co);
        let y = |n: int| sums::sum(|z: int| h(n * p + z), p);
        assert forall|n: int| 0 <= n < nn implies #[trigger] x(n) == y(n) by {
            let c = |z: int| f((n * cc + co) * p + z);
            let e = |z: int| h(n * p + z);
            assert forall|z: int| 0 <= z < p implies #[trigger] c(z) == e(z) by {
                manipulate::lemma_cell(n, z, nn as int, p as int);
            }
            sums::lemma_sum_same(c, e, p);
        }
        sums::lemma_sum_same(x, y, nn);
    }
    sums::lemma_sum_same(right, want, cc);
}

/// One channel of the result against one kernel.
#[verifier::spinoff_prover]
#[verifier::rlimit(60)]
proof fn lemma_channel<S: Scalar>(
    v: spec_fn(S) -> real,
    x: TensorV<S>,
    k: TensorV<S>,
    stride: isize,
    y: TensorV<S>,
    g: TensorV<S>,
    q: TensorV<S>,
    co: int,
)
    requires
        exact::exact(v),
        reals::full(x),
        reals::full(k),
        reals::full(g),
        k.shape.len() == 4,
        g.shape == y.shape,
        model::bin_tensor(BinOpV::Conv(stride), x, k) == Ok::<TensorV<S>, Fault>(y),
        model::bin_tensor(BinOpV::ConvKernelGrad(stride, k.shape), g, x) == Ok::<
            TensorV<S>,
            Fault,
        >(q),
        0 <= co < y.shape[1],
        y.shape[1] == k.shape[0],
    ensures
        ({
            let (nn, cc) = (y.shape[0] as nat, y.shape[1] as nat);
            let p = (y.shape[2] * y.shape[3]) as nat;
            let uu = (k.shape[1] * k.shape[2] * k.shape[3]) as nat;
            let f = |r: int| v(g.data[r]) * v(y.data[r]);
            sums::sum(|m: int| f(((m / (p as int)) * cc + co) * p + m % (p as int)), nn * p)
                == sums::sum(|u: int| v(q.data[co * uu + u]) * v(k.data[co * uu + u]), uu)
        }),
{
    let s = (stride as usize) as int;
    let (nn, cc) = (y.shape[0] as nat, y.shape[1] as nat);
    let (h, w) = (y.shape[2] as int, y.shape[3] as int);
    let (kc, kh, kw) = (k.shape[1] as int, k.shape[2] as int, k.shape[3] as int);
    let p = (y.shape[2] * y.shape[3]) as nat;
    let uu = (k.shape[1] * k.shape[2] * k.shape[3]) as nat;
    let pp = p as int;
    let f = |r: int| v(g.data[r]) * v(y.data[r]);
    let t = |m: int| v(g.data[((m / pp) * cc + co) * p + m % pp]);
    let z = |u: int| v(k.data[co * uu + u]);
    let a = |u: int, m: int| tap(v, x, s, w, kh, kw, m / pp, m % pp, u);
    contracting::lemma_row(t, z, a, uu, nn * p);
    let l1 = |m: int| f(((m / pp) * cc + co) * p + m % pp);
    let l2 = |m: int| t(m) * sums::sum(|u: int| z(u) * a(u, m), uu);
    assert forall|m: int| 0 <= m < nn * p implies #[trigger] l1(m) == l2(m) by {
        manipulate::lemma_row(m, nn as int, pp);
        lemma_result_cell(v, x, k, stride, y, m / pp, co, m % pp);
        sums::lemma_sum_same(
            |u: int|
                v(k.data[co * (kc * kh * kw) + u]) * tap(v, x, s, w, kh, kw, m / pp, m % pp, u),
            |u: int| z(u) * a(u, m),
            uu,
        );
    }
    sums::lemma_sum_same(l1, l2, nn * p);
    let r1 = |u: int| sums::sum(|m: int| t(m) * a(u, m), nn * p) * z(u);
    let r2 = |u: int| v(q.data[co * uu + u]) * v(k.data[co * uu + u]);
    assert forall|u: int| 0 <= u < uu implies #[trigger] r1(u) == r2(u) by {
        lemma_kernel_cell(v, g, x, stride, k.shape, q, co, u);
        sums::lemma_sum_same(
            |m: int|
                v(g.data[((m / pp) * (cc as int) + co) * pp + m % pp]) * tap(
                    v,
                    x,
                    s,
                    w,
                    kh,
                    kw,
                    m / pp,
                    m % pp,
                    u,
                ),
            |m: int| t(m) * a(u, m),
            nn * p,
        );
    }
    sums::lemma_sum_same(r1, r2, uu);
}

/// The gradient of a convolution with respect to its kernel: it pairs with every kernel of that
/// shape as the cotangent pairs with the convolution by that kernel.
pub proof fn lemma_kernel_gradient<S: Scalar>(
    v: spec_fn(S) -> real,
    x: TensorV<S>,
    k: TensorV<S>,
    stride: isize,
    y: TensorV<S>,
    g: TensorV<S>,
    q: TensorV<S>,
)
    requires
        exact::exact(v),
        reals::full(x),
        reals::full(k),
        reals::full(g),
        g.shape == y.shape,
        model::bin_tensor(BinOpV::Conv(stride), x, k) == Ok::<TensorV<S>, Fault>(y),
        model::bin_tensor(BinOpV::ConvKernelGrad(stride, k.shape), g, x) == Ok::<
            TensorV<S>,
            Fault,
        >(q),
    ensures
        q.shape == k.shape,
        reals::full(q),
        pairing::pairing(v, g, y) == pairing::pairing(v, q, k),
{
    let (nn, cc) = (y.shape[0] as nat, y.shape[1] as nat);
    let p = (y.shape[2] * y.shape[3]) as nat;
    let uu = (k.shape[1] * k.shape[2] * k.shape[3]) as nat;
    let f = |r: int| v(g.data[r]) * v(y.data[r]);
    let e = |r: int| v(q.data[r]) * v(k.data[r]);
    assert(y.shape[1] == k.shape[0]);
    linalg::lemma_product4(y.shape);
    linalg::lemma_product4(k.shape);
    let (y0, y1, y2, y3) = (
        y.shape[0] as int,
        y.shape[1] as int,
        y.shape[2] as int,
        y.shape[3] as int,
    );
    assert(y0 * y1 * y2 * y3 == (y0 * y1) * (y2 * y3)) by (nonlinear_arith);
    let (k0, k1, k2, k3) = (
        k.shape[0] as int,
        k.shape[1] as int,
        k.shape[2] as int,
        k.shape[3] as int,
    );
    assert(k0 * k1 * k2 * k3 == k0 * (k1 * k2 * k3)) by (nonlinear_arith);
    lemma_by_channel(f, nn, cc, p);
    sums::lemma_sum_blocks(e, cc, uu);
    let pp = p as int;
    let left = |co: int|
        sums::sum(|m: int| f(((m / pp) * cc + co) * p + m % pp), nn * p);
    let right = |co: int| sums::sum(|u: int| e(co * uu + u), uu);
    assert forall|co: int| 0 <= co < cc implies #[trigger] left(co) == right(co) by {
        lemma_channel(v, x, k, stride, y, g, q, co);
        sums::lemma_sum_same(
            |u: int| v(q.data[co * uu + u]) * v(k.data[co * uu + u]),
            |u: int| e(co * uu + u),
            uu,
        );
    }
    sums::lemma_sum_same(left, right, cc);
}

} // verus!
