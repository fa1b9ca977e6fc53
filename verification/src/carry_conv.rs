//! The program of a convolution by a constant kernel carries the weights of its result to its
//! operand.

use vstd::prelude::*;
use crate::carry_moves;
use crate::carry_places;
use crate::crown;
use crate::exact;
use crate::linalg;
use crate::manipulate;
use crate::model;
use crate::model::{BinOpV, Fault, PadV, TensorV, UnOpV};
use crate::pairing;
use crate::reals;
use crate::scalar;
use crate::scalar::Scalar;
use crate::shape;
use crate::sums;
use crate::support;
use crate::tensor::Tensor;
use crate::value::Reg;
use crate::vjp;
use crate::vjp::RuleV;

verus! {

// ---- places ----
/// The place of a product in a convolution: an element of its result, then a channel, a row and a
/// column of the window.
#[verifier::ext_equal]
pub struct Place {
    pub a: int,
    pub b: int,
    pub c: int,
    pub d: int,
    pub e: int,
    pub f: int,
    pub g: int,
}

/// Whether a place lies in a result of shape `s` and a window of `l` channels, `m` rows and `k`
/// columns.
pub open spec fn lies(s: Seq<usize>, l: int, m: int, k: int, p: Place) -> bool {
    &&& 0 <= p.a < s[0]
    &&& 0 <= p.b < s[1]
    &&& 0 <= p.c < s[2]
    &&& 0 <= p.d < s[3]
    &&& 0 <= p.e < l
    &&& 0 <= p.f < m
    &&& 0 <= p.g < k
}

/// The number of a place.
pub open spec fn pack(s: Seq<usize>, l: int, m: int, k: int, p: Place) -> int {
    model::at4(s, p.a, p.b, p.c, p.d) * (l * m * k) + ((p.e * m + p.f) * k + p.g)
}

/// The place with number `q`.
pub open spec fn unpack(s: Seq<usize>, l: int, m: int, k: int, q: int) -> Place {
    let (r, u) = (q / (l * m * k), q % (l * m * k));
    let (s1, s2, s3) = (s[1] as int, s[2] as int, s[3] as int);
    Place {
        a: r / s3 / s2 / s1,
        b: r / s3 / s2 % s1,
        c: r / s3 % s2,
        d: r % s3,
        e: u / k / m,
        f: u / k % m,
        g: u % k,
    }
}

/// A place can be told from its number.
proof fn lemma_pack(s: Seq<usize>, l: int, m: int, k: int, p: Place)
    requires
        s.len() == 4,
        lies(s, l, m, k, p),
    ensures
        0 <= pack(s, l, m, k, p) < shape::product(s) * (l * m * k),
        unpack(s, l, m, k, pack(s, l, m, k, p)) == p,
        pack(s, l, m, k, p) / (l * m * k) == model::at4(s, p.a, p.b, p.c, p.d),
{
    linalg::lemma_product4(s);
    let (s0, s1, s2, s3) = (s[0] as int, s[1] as int, s[2] as int, s[3] as int);
    manipulate::lemma_cell(p.a, p.b, s0, s1);
    manipulate::lemma_cell(p.a * s1 + p.b, p.c, s0 * s1, s2);
    manipulate::lemma_cell((p.a * s1 + p.b) * s2 + p.c, p.d, s0 * s1 * s2, s3);
    manipulate::lemma_cell(p.e, p.f, l, m);
    manipulate::lemma_cell(p.e * m + p.f, p.g, l * m, k);
    let (r, u) = (model::at4(s, p.a, p.b, p.c, p.d), (p.e * m + p.f) * k + p.g);
    manipulate::lemma_cell(r, u, s0 * s1 * s2 * s3, l * m * k);
}

/// A number below the product is that of a place.
proof fn lemma_unpack(s: Seq<usize>, l: int, m: int, k: int, q: int)
    requires
        s.len() == 4,
        0 <= l,
        0 <= m,
        0 <= k,
        0 <= q < shape::product(s) * (l * m * k),
    ensures
        lies(s, l, m, k, unpack(s, l, m, k, q)),
        pack(s, l, m, k, unpack(s, l, m, k, q)) == q,
        0 <= q / (l * m * k) < shape::product(s),
        ({
            let p = unpack(s, l, m, k, q);
            q / (l * m * k) == model::at4(s, p.a, p.b, p.c, p.d)
        }),
{
    let n = l * m * k;
    assert(0 <= n) by (nonlinear_arith)
        requires
            0 <= l,
            0 <= m,
            0 <= k,
            n == l * m * k,
    ;
    manipulate::lemma_row(q, shape::product(s) as int, n);
    let (r, u) = (q / n, q % n);
    linalg::lemma_split4(r, s);
    linalg::lemma_split3(u, l, m, k);
    let (s1, s2, s3) = (s[1] as int, s[2] as int, s[3] as int);
    lemma_whole(q, n);
    lemma_whole(r, s3);
    lemma_whole(r / s3, s2);
    lemma_whole(r / s3 / s2, s1);
    lemma_whole(u, k);
    lemma_whole(u / k, m);
}

/// A number is made of its quotient and its remainder.
proof fn lemma_whole(q: int, n: int)
    requires
        n > 0,
    ensures
        q / n * n + q % n == q,
{
    assert(q / n * n + q % n == q) by (nonlinear_arith)
        requires
            n > 0,
    ;
}

/// The flat index of an element of a tensor of rank four, and its coordinates.
proof fn lemma_coordinates(s: Seq<usize>, a: int, b: int, c: int, d: int)
    requires
        s.len() == 4,
        0 <= a < s[0],
        0 <= b < s[1],
        0 <= c < s[2],
        0 <= d < s[3],
    ensures
        shape::unravel(model::at4(s, a, b, c, d), s) == seq![
            a as usize,
            b as usize,
            c as usize,
            d as usize,
        ],
        shape::ravel(seq![a as usize, b as usize, c as usize, d as usize], s) == model::at4(
            s,
            a,
            b,
            c,
            d,
        ),
        0 <= model::at4(s, a, b, c, d) < shape::product(s),
{
    let m = seq![a as usize, b as usize, c as usize, d as usize];
    linalg::lemma_at4(s, a, b, c, d);
    assert(shape::ravel(m, s) == model::at4(s, a, b, c, d)) by {
        let (m3, s3) = (m.drop_last(), s.drop_last());
        let (m2, s2) = (m3.drop_last(), s3.drop_last());
        let (m1, s1) = (m2.drop_last(), s2.drop_last());
        assert(shape::ravel(m1.drop_last(), s1.drop_last()) == 0);
        assert(shape::ravel(m1, s1) == 0 * s1.last() + m1.last());
        assert(shape::ravel(m1, s1) == a);
        assert(shape::ravel(m2, s2) == a * s[1] + b);
        assert(shape::ravel(m3, s3) == (a * s[1] + b) * s[2] + c);
    }
    assert(shape::in_shape(m, s));
    shape::lemma_ravel_unravel(m, s);
}

// ---- the padded weight ----
/// An element of a tensor of rank four that is padded along its last two axes.
proof fn lemma_padded<S: Scalar>(
    p: PadV<S>,
    t: TensorV<S>,
    u: TensorV<S>,
    a: int,
    b: int,
    c: int,
    d: int,
)
    requires
        t.shape.len() == 4,
        !model::names_axis(p.axes, 4, 0),
        !model::names_axis(p.axes, 4, 1),
        model::un_tensor(UnOpV::Pad(p), t) == Ok::<TensorV<S>, Fault>(u),
        0 <= a < t.shape[0],
        0 <= b < t.shape[1],
        0 <= c < u.shape[2],
        0 <= d < u.shape[3],
    ensures
        ({
            let (y, x) = (
                model::pad_coordinate(
                    p,
                    c,
                    t.shape[2] as int,
                    model::names_axis(p.axes, 4, 2),
                ),
                model::pad_coordinate(
                    p,
                    d,
                    t.shape[3] as int,
                    model::names_axis(p.axes, 4, 3),
                ),
            );
            u.data[model::at4(u.shape, a, b, c, d)] == if y is Some && x is Some {
                t.data[model::at4(t.shape, a, b, y->0, x->0)]
            } else {
                p.value
            }
        }),
{
    let (s, out) = (t.shape, u.shape);
    assert(model::pad_len(p, s, 0) <= usize::MAX);
    assert(out[0] == s[0] && out[1] == s[1]);
    lemma_coordinates(out, a, b, c, d);
    let m = seq![a as usize, b as usize, c as usize, d as usize];
    let (n2, n3) = (model::names_axis(p.axes, 4, 2), model::names_axis(p.axes, 4, 3));
    let (y, x) = (
        model::pad_coordinate(p, c, s[2] as int, n2),
        model::pad_coordinate(p, d, s[3] as int, n3),
    );
    assert(model::pad_axis(p, m, s, 0) == Some(a));
    assert(model::pad_axis(p, m, s, 1) == Some(b));
    assert(model::pad_axis(p, m, s, 2) == y);
    assert(model::pad_axis(p, m, s, 3) == x);
    if y is Some && x is Some {
        assert(model::pad_hit(p, m, s)) by {
            assert forall|i: int| 0 <= i < s.len() implies (#[trigger] model::pad_axis(
                p,
                m,
                s,
                i,
            )) is Some by {
                if i == 0 {
                } else if i == 1 {
                } else if i == 2 {
                } else {
                    assert(i == 3);
                }
            }
        }
        assert(model::pad_len(p, s, 2) <= usize::MAX);
        assert(model::pad_len(p, s, 3) <= usize::MAX);
        lemma_within(p, c, s[2] as int, n2, out[2] as int);
        lemma_within(p, d, s[3] as int, n3, out[3] as int);
        lemma_coordinates(s, a, b, y->0, x->0);
        assert(model::pad_coordinates(p, m, s) =~= seq![
            a as usize,
            b as usize,
            (y->0) as usize,
            (x->0) as usize,
        ]);
    } else {
        assert(!model::pad_hit(p, m, s)) by {
            if model::pad_hit(p, m, s) {
                assert(model::pad_axis(p, m, s, 2) is Some);
                assert(model::pad_axis(p, m, s, 3) is Some);
            }
        }
    }
}

/// A coordinate that stands at a padded one lies on its axis.
proof fn lemma_within<S>(p: PadV<S>, c: int, d: int, is_padded: bool, e: int)
    requires
        0 <= c < e,
        !is_padded ==> e == d,
        model::pad_coordinate(p, c, d, is_padded) is Some,
    ensures
        0 <= model::pad_coordinate(p, c, d, is_padded)->0 < d,
{
    if is_padded {
        let (x, n) = (c - p.left, p.interior + 1);
        assert(0 <= x / n) by (nonlinear_arith)
            requires
                0 <= x,
                0 < n,
        ;
    }
}

/// Whether a coordinate of the spread weight, behind a margin `h`, is one of `n` in steps of `s`.
pub open spec fn lands(c: int, h: int, s: int, n: int) -> bool {
    h <= c && (c - h) % s == 0 && (c - h) / s < n
}

/// What a coordinate behind a margin and in steps stands for.
proof fn lemma_lands(c: int, h: int, s: int, n: int)
    requires
        0 < s,
        0 < n,
    ensures
        lands(c, h, s, n) == (h <= c && (c - h) < (n - 1) * s + 1 && (c - h) % s == 0 && (c - h) / s
            < n),
        (c - h) % 1 == 0,
        (c - h) / 1 == c - h,
{
    let x = c - h;
    if h <= c && x % s == 0 && x / s < n {
        lemma_whole(x, s);
        let q = x / s;
        assert(q * s <= (n - 1) * s) by (nonlinear_arith)
            requires
                q <= n - 1,
                0 < s,
        ;
    }
}

/// Which of four axes a padding names that names the last two, the third or the fourth.
proof fn lemma_named_last()
    ensures
        ({
            let (both, rows, columns) = (
                seq![(-2) as isize, (-1) as isize],
                seq![(-2) as isize],
                seq![(-1) as isize],
            );
            &&& !model::names_axis(both, 4, 0) && !model::names_axis(both, 4, 1)
            &&& model::names_axis(both, 4, 2) && model::names_axis(both, 4, 3)
            &&& !model::names_axis(rows, 4, 0) && !model::names_axis(rows, 4, 1)
            &&& model::names_axis(rows, 4, 2) && !model::names_axis(rows, 4, 3)
            &&& !model::names_axis(columns, 4, 0) && !model::names_axis(columns, 4, 1)
            &&& !model::names_axis(columns, 4, 2) && model::names_axis(columns, 4, 3)
        }),
{
    let (both, rows, columns) = (
        seq![(-2) as isize, (-1) as isize],
        seq![(-2) as isize],
        seq![(-1) as isize],
    );
    assert(shape::norm_axis(both[0] as int, 4) == 2);
    assert(shape::norm_axis(both[1] as int, 4) == 3);
    assert(shape::norm_axis(rows[0] as int, 4) == 2);
    assert(shape::norm_axis(columns[0] as int, 4) == 3);
}

/// The three paddings that spread a weight and give it margins.
pub open spec fn spread_out<S: Scalar>(
    w: TensorV<S>,
    s: int,
    h: usize,
    x: usize,
    d0: TensorV<S>,
    d1: TensorV<S>,
    d2: TensorV<S>,
) -> bool {
    let both = vjp::zero_pad::<S>(
        0,
        0,
        (s - 1) as usize,
        seq![(-2) as isize, (-1) as isize],
    );
    let rows = vjp::zero_pad::<S>(h, h, 0, seq![(-2) as isize]);
    let columns = vjp::zero_pad::<S>(x, x, 0, seq![(-1) as isize]);
    &&& model::un_tensor(UnOpV::Pad(both), w) == Ok::<TensorV<S>, Fault>(d0)
    &&& model::un_tensor(UnOpV::Pad(rows), d0) == Ok::<TensorV<S>, Fault>(d1)
    &&& model::un_tensor(UnOpV::Pad(columns), d1) == Ok::<TensorV<S>, Fault>(d2)
}

/// The shape of a spread weight with margins.
proof fn lemma_spread_shapes<S: Scalar>(
    w: TensorV<S>,
    s: int,
    h: usize,
    x: usize,
    d0: TensorV<S>,
    d1: TensorV<S>,
    d2: TensorV<S>,
)
    requires
        w.shape.len() == 4,
        support::dense(w.shape),
        0 < s <= usize::MAX,
        spread_out(w, s, h, x, d0, d1, d2),
    ensures
        ({
            let t = w.shape;
            let (r, c) = ((t[2] - 1) * s + 1, (t[3] - 1) * s + 1);
            &&& d0.shape == seq![t[0], t[1], r as usize, c as usize]
            &&& d1.shape == seq![t[0], t[1], (r + 2 * h) as usize, c as usize]
            &&& d2.shape == seq![t[0], t[1], (r + 2 * h) as usize, (c + 2 * x) as usize]
            &&& 0 < r <= r + 2 * h <= usize::MAX
            &&& 0 < c <= c + 2 * x <= usize::MAX
        }),
{
    let t = w.shape;
    let (r, c) = ((t[2] - 1) * s + 1, (t[3] - 1) * s + 1);
    lemma_named_last();
    assert(t[2] > 0 && t[3] > 0);
    let both = vjp::zero_pad::<S>(
        0,
        0,
        (s - 1) as usize,
        seq![(-2) as isize, (-1) as isize],
    );
    let rows = vjp::zero_pad::<S>(h, h, 0, seq![(-2) as isize]);
    let columns = vjp::zero_pad::<S>(x, x, 0, seq![(-1) as isize]);
    let (p, q) = (t[2] - 1, t[3] - 1);
    assert(p * (s - 1) == p * s - p) by (nonlinear_arith);
    assert(q * (s - 1) == q * s - q) by (nonlinear_arith);
    assert(0 <= p * s && 0 <= q * s) by (nonlinear_arith)
        requires
            0 <= p,
            0 <= q,
            0 < s,
    ;
    assert(model::pad_len(both, t, 2) == r);
    assert(model::pad_len(both, t, 3) == c);
    assert(d0.shape =~= seq![t[0], t[1], r as usize, c as usize]);
    let (a, b) = (r - 1, c - 1);
    assert(a * 0 == 0 && b * 0 == 0) by (nonlinear_arith);
    assert(model::pad_len(rows, d0.shape, 2) == r + 2 * h);
    assert(model::pad_len(rows, d0.shape, 3) == c);
    assert(d1.shape =~= seq![t[0], t[1], (r + 2 * h) as usize, c as usize]);
    assert(model::pad_len(columns, d1.shape, 2) == r + 2 * h);
    assert(model::pad_len(columns, d1.shape, 3) == c + 2 * x);
    assert(d2.shape =~= seq![t[0], t[1], (r + 2 * h) as usize, (c + 2 * x) as usize]);
}

/// An element of a spread weight with margins.
proof fn lemma_spread_weight<S: Scalar>(
    w: TensorV<S>,
    s: int,
    h: usize,
    x: usize,
    d0: TensorV<S>,
    d1: TensorV<S>,
    d2: TensorV<S>,
    a: int,
    b: int,
    c: int,
    d: int,
)
    requires
        w.shape.len() == 4,
        support::dense(w.shape),
        0 < s <= usize::MAX,
        spread_out(w, s, h, x, d0, d1, d2),
        0 <= a < w.shape[0],
        0 <= b < w.shape[1],
        0 <= c < d2.shape[2],
        0 <= d < d2.shape[3],
    ensures
        d2.data[model::at4(d2.shape, a, b, c, d)] == if lands(c, h as int, s, w.shape[2] as int)
            && lands(d, x as int, s, w.shape[3] as int) {
            w.data[model::at4(w.shape, a, b, (c - h) / s, (d - x) / s)]
        } else {
            scalar::zero::<S>()
        },
{
    let t = w.shape;
    lemma_spread_shapes(w, s, h, x, d0, d1, d2);
    lemma_named_last();
    assert(t[2] > 0 && t[3] > 0);
    let both = vjp::zero_pad::<S>(
        0,
        0,
        (s - 1) as usize,
        seq![(-2) as isize, (-1) as isize],
    );
    let rows = vjp::zero_pad::<S>(h, h, 0, seq![(-2) as isize]);
    let columns = vjp::zero_pad::<S>(x, x, 0, seq![(-1) as isize]);
    lemma_lands(c, h as int, s, t[2] as int);
    lemma_lands(d, x as int, s, t[3] as int);
    lemma_padded(columns, d1, d2, a, b, c, d);
    let (r, q) = ((t[2] - 1) * s + 1, (t[3] - 1) * s + 1);
    if x <= d && d - x < q {
        lemma_padded(rows, d0, d1, a, b, c, d - x);
        if h <= c && c - h < r {
            lemma_padded(both, w, d0, a, b, c - h, d - x);
        }
    }
}

// ---- the flipped kernel ----
/// The three moves that flip a kernel.
pub open spec fn flips<S: Scalar>(
    k: TensorV<S>,
    k0: TensorV<S>,
    k1: TensorV<S>,
    k2: TensorV<S>,
) -> bool {
    &&& model::un_tensor(UnOpV::MoveAxis(0, 1), k) == Ok::<TensorV<S>, Fault>(k0)
    &&& model::un_tensor(UnOpV::Slice((-2) as isize, (-1) as isize, None, (-1) as isize), k0) == Ok::<
        TensorV<S>,
        Fault,
    >(k1)
    &&& model::un_tensor(UnOpV::Slice((-1) as isize, (-1) as isize, None, (-1) as isize), k1) == Ok::<
        TensorV<S>,
        Fault,
    >(k2)
}

/// A whole axis, backwards.
proof fn lemma_backwards(n: int)
    requires
        0 < n,
    ensures
        model::slice_count(n, -1, None, -1) == n,
        model::slice_first(n, -1, -1) == n - 1,
{
}

/// The shapes of a kernel that is being flipped.
proof fn lemma_flip_shapes<S: Scalar>(
    k: TensorV<S>,
    k0: TensorV<S>,
    k1: TensorV<S>,
    k2: TensorV<S>,
)
    requires
        k.shape.len() == 4,
        support::dense(k.shape),
        flips(k, k0, k1, k2),
    ensures
        k0.shape == seq![k.shape[1], k.shape[0], k.shape[2], k.shape[3]],
        k1.shape == k0.shape,
        k2.shape == k0.shape,
{
    let s = k.shape;
    assert(s[2] > 0 && s[3] > 0);
    assert(model::moved(s, 0, 1) =~= seq![s[1], s[0], s[2], s[3]]);
    lemma_backwards(s[2] as int);
    lemma_backwards(s[3] as int);
    assert(k1.shape =~= k0.shape);
    assert(k2.shape =~= k0.shape);
}

/// The size of a shape of rank one.
proof fn lemma_one_axis(u: Seq<usize>)
    requires
        u.len() == 1,
    ensures
        shape::product(u) == u[0],
{
    assert(shape::product(u.drop_last()) == 1);
    assert(shape::product(u) == 1 * (u.last() as nat));
}

/// An element of a flipped kernel.
proof fn lemma_flipped<S: Scalar>(
    k: TensorV<S>,
    k0: TensorV<S>,
    k1: TensorV<S>,
    k2: TensorV<S>,
    a: int,
    b: int,
    c: int,
    d: int,
)
    requires
        k.shape.len() == 4,
        support::dense(k.shape),
        flips(k, k0, k1, k2),
        0 <= a < k.shape[1],
        0 <= b < k.shape[0],
        0 <= c < k.shape[2],
        0 <= d < k.shape[3],
    ensures
        k2.data[model::at4(k2.shape, a, b, c, d)] == k.data[model::at4(
            k.shape,
            b,
            a,
            k.shape[2] - 1 - c,
            k.shape[3] - 1 - d,
        )],
{
    let s = k.shape;
    lemma_flip_shapes(k, k0, k1, k2);
    lemma_backwards(s[2] as int);
    lemma_backwards(s[3] as int);
    let t = k0.shape;
    let (l0, l1, l2, l3) = (s[0] as int, s[1] as int, s[2] as int, s[3] as int);
    let (y, x) = (l2 - 1 - c, l3 - 1 - d);
    // columns
    linalg::lemma_at4(t, a, b, c, d);
    linalg::lemma_at4(t, a, b, c, x);
    linalg::lemma_at4(t, a, b, y, x);
    let top = (a * l0 + b) * l2 + c;
    manipulate::lemma_cell(a, b, l1, l0);
    manipulate::lemma_cell(a * l0 + b, c, l1 * l0, l2);
    manipulate::lemma_cell(top, d, l1 * l0 * l2, l3);
    manipulate::lemma_cell(top, x, l1 * l0 * l2, l3);
    assert(t.subrange(4, 4) =~= Seq::<usize>::empty());
    assert(model::inner_size(t, 3) == 1);
    let r = model::at4(t, a, b, c, d);
    assert(r / 1 == r && r % 1 == 0);
    assert(k2.data[r] == k1.data[model::slice_index(r, l3, 1, l3 - 1, l3, -1)]);
    assert(model::slice_index(r, l3, 1, l3 - 1, l3, -1) == model::at4(t, a, b, c, x));
    // rows
    let q = model::at4(t, a, b, c, x);
    lemma_one_axis(t.subrange(3, 4));
    assert(model::inner_size(t, 2) == l3);
    assert(k1.data[q] == k0.data[model::slice_index(q, l2, l3, l2 - 1, l2, -1)]);
    assert(model::slice_index(q, l2, l3, l2 - 1, l2, -1) == model::at4(t, a, b, y, x)) by {
        assert((a * l0 + b) * l2 + (l2 - 1) + c * -1 == (a * l0 + b) * l2 + y);
    }
    // channels
    let p = model::at4(t, a, b, y, x);
    lemma_one_axis(s.subrange(1, 2));
    assert(model::second_block(s, 0, 1) == l1);
    let tail = s.subrange(2, 4);
    assert(model::behind_blocks(s, 0, 1) == l2 * l3) by {
        assert(tail.drop_last().drop_last() =~= Seq::<usize>::empty());
        assert(shape::product(tail.drop_last().drop_last()) == 1);
        assert(shape::product(tail.drop_last()) == 1 * l2);
    }
    let n = l2 * l3;
    manipulate::lemma_cell(y, x, l2, l3);
    let rest = y * l3 + x;
    let (front, back) = (a * l0 + b, b * l1 + a);
    assert(p == front * n + rest) by (nonlinear_arith)
        requires
            p == (front * l2 + y) * l3 + x,
            n == l2 * l3,
            rest == y * l3 + x,
    ;
    manipulate::lemma_cell(front, rest, l1 * l0, n);
    manipulate::lemma_cell(a, b, l1, l0);
    linalg::lemma_product4(s);
    manipulate::lemma_cell(b, a, l0, l1);
    manipulate::lemma_cell(0, a, 1, l1);
    assert(k0.data[p] == k.data[model::swapped_index(p, l0, l1, n)]) by {
        linalg::lemma_product4(t);
        assert(l1 * l0 * l2 * l3 == l0 * l1 * l2 * l3) by (nonlinear_arith);
        linalg::lemma_at4(t, a, b, y, x);
    }
    assert(model::swapped_index(p, l0, l1, n) == back * n + rest) by {
        assert(a % l1 == a && a / l1 == 0);
        assert((0 * l0 + b) * l1 + a == back);
    }
    assert(back * n + rest == model::at4(s, b, a, y, x)) by (nonlinear_arith)
        requires
            model::at4(s, b, a, y, x) == (back * l2 + y) * l3 + x,
            n == l2 * l3,
            rest == y * l3 + x,
    ;
}

// ---- the products ----
/// Where the product at a place of a convolution stands in the convolution of the spread weight
/// by the flipped kernel, which has `m` rows and `k` columns.
pub open spec fn mirrored(p: Place, s: int, m: int, k: int) -> Place {
    Place {
        a: p.a,
        b: p.e,
        c: s * p.c + p.f,
        d: s * p.d + p.g,
        e: p.b,
        f: m - 1 - p.f,
        g: k - 1 - p.g,
    }
}

/// The place that is mirrored at another one.
pub open spec fn restored(p: Place, s: int, m: int, k: int) -> Place {
    Place {
        a: p.a,
        b: p.e,
        c: (p.c + p.f - (m - 1)) / s,
        d: (p.d + p.g - (k - 1)) / s,
        e: p.b,
        f: m - 1 - p.f,
        g: k - 1 - p.g,
    }
}

/// Whether a place is the mirror of one in a result of `n` rows and `l` columns.
pub open spec fn is_mirror(p: Place, s: int, m: int, k: int, n: int, l: int) -> bool {
    lands(p.c + p.f, m - 1, s, n) && lands(p.d + p.g, k - 1, s, l)
}

/// A coordinate of a window of length `m` at position `c`, of `n`, on an axis of length `len`.
proof fn lemma_mirror_axis(c: int, f: int, s: int, m: int, n: int, len: int)
    requires
        0 <= c < n,
        0 <= f < m,
        0 < s,
        len == s * (n - 1) + m,
    ensures
        0 <= s * c + f < len,
        lands(s * c + f + (m - 1 - f), m - 1, s, n),
        (s * c + f + (m - 1 - f) - (m - 1)) / s == c,
{
    assert(0 <= s * c <= s * (n - 1) && (s * c) / s == c && (s * c) % s == 0) by (nonlinear_arith)
        requires
            0 <= c <= n - 1,
            0 < s,
    ;
}

/// The position that a coordinate lands at.
proof fn lemma_restored_axis(c: int, f: int, s: int, m: int, n: int)
    requires
        0 <= f < m,
        0 < s,
        lands(c + f, m - 1, s, n),
    ensures
        0 <= (c + f - (m - 1)) / s < n,
        s * ((c + f - (m - 1)) / s) + (m - 1 - f) == c,
{
    let x = c + f - (m - 1);
    lemma_whole(x, s);
    let q = x / s;
    assert(0 <= q && q * s == s * q) by (nonlinear_arith)
        requires
            0 <= x,
            0 < s,
            q == x / s,
    ;
}

/// Mirroring places and restoring them undo each other.
proof fn lemma_mirror(
    xs: Seq<usize>,
    ks: Seq<usize>,
    t: Seq<usize>,
    s: int,
    p: Place,
)
    requires
        xs.len() == 4,
        ks.len() == 4,
        t.len() == 4,
        0 < s,
        t[0] == xs[0],
        t[1] == ks[0],
        ks[1] == xs[1],
        xs[2] == s * (t[2] - 1) + ks[2],
        xs[3] == s * (t[3] - 1) + ks[3],
    ensures
        ({
            let (m, k) = (ks[2] as int, ks[3] as int);
            let q = mirrored(p, s, m, k);
            lies(t, ks[1] as int, m, k, p) ==> {
                &&& lies(xs, ks[0] as int, m, k, q)
                &&& is_mirror(q, s, m, k, t[2] as int, t[3] as int)
                &&& restored(q, s, m, k) == p
            }
        }),
        ({
            let (m, k) = (ks[2] as int, ks[3] as int);
            let q = restored(p, s, m, k);
            lies(xs, ks[0] as int, m, k, p) && is_mirror(p, s, m, k, t[2] as int, t[3] as int) ==> {
                &&& lies(t, ks[1] as int, m, k, q)
                &&& mirrored(q, s, m, k) == p
            }
        }),
{
    let (m, k) = (ks[2] as int, ks[3] as int);
    if lies(t, ks[1] as int, m, k, p) {
        lemma_mirror_axis(p.c, p.f, s, m, t[2] as int, xs[2] as int);
        lemma_mirror_axis(p.d, p.g, s, k, t[3] as int, xs[3] as int);
    }
    if lies(xs, ks[0] as int, m, k, p) && is_mirror(p, s, m, k, t[2] as int, t[3] as int) {
        lemma_restored_axis(p.c, p.f, s, m, t[2] as int);
        lemma_restored_axis(p.d, p.g, s, k, t[3] as int);
    }
}

/// The product at a place of a convolution of `a` by `k`.
pub open spec fn term<S>(
    v: spec_fn(S) -> real,
    a: TensorV<S>,
    k: TensorV<S>,
    s: int,
    p: Place,
) -> real {
    v(a.data[model::at4(a.shape, p.a, p.e, s * p.c + p.f, s * p.d + p.g)]) * v(
        k.data[model::at4(k.shape, p.b, p.e, p.f, p.g)],
    )
}

/// A sum over the elements of a convolution with one factor for each of them is a sum over its
/// places.
proof fn lemma_over_places<S: Scalar>(
    v: spec_fn(S) -> real,
    f: spec_fn(int) -> real,
    a: TensorV<S>,
    k: TensorV<S>,
    stride: isize,
    y: TensorV<S>,
)
    requires
        exact::exact(v),
        k.shape.len() == 4,
        model::bin_tensor(BinOpV::Conv(stride), a, k) == Ok::<TensorV<S>, Fault>(y),
    ensures
        ({
            let (l, m, n) = (k.shape[1] as int, k.shape[2] as int, k.shape[3] as int);
            let s = (stride as usize) as int;
            &&& 0 <= l * m * n
            &&& sums::sum(|r: int| f(r) * v(y.data[r]), y.data.len()) == sums::sum(
                |q: int|
                    f(q / (l * m * n)) * term(v, a, k, s, unpack(y.shape, l, m, n, q)),
                (y.data.len() * (l * m * n)) as nat,
            )
        }),
{
    let (l, m, n) = (k.shape[1] as int, k.shape[2] as int, k.shape[3] as int);
    let s = (stride as usize) as int;
    let out = y.shape;
    linalg::lemma_product4(k.shape);
    let u = shape::product(k.shape.subrange(1, 4));
    assert(u == l * m * n);
    let whole = |q: int| f(q / (l * m * n)) * term(v, a, k, s, unpack(out, l, m, n, q));
    let size = y.data.len();
    sums::lemma_sum_blocks(whole, size, u);
    let (f1, f2) = (
        |r: int| f(r) * v(y.data[r]),
        |r: int| sums::sum(|j: int| whole(r * u + j), u),
    );
    assert forall|r: int| 0 <= r < size implies #[trigger] f1(r) == f2(r) by {
        reals::lemma_conv_sum(v, a, k, s, out, r, u);
        let (g1, g2) = (
            |j: int| v(model::conv_term(a, k, s, out, r, j)),
            |j: int| whole(r * u + j),
        );
        assert forall|j: int| 0 <= j < u implies #[trigger] g2(j) == f(r) * g1(j) by {
            manipulate::lemma_cell(r, j, size as int, u as int);
        }
        sums::lemma_sum_scale(f(r), g1, g2, u);
    }
    sums::lemma_sum_same(f1, f2, size);
}

/// Whether the windows of a convolution with operands of shapes `a` and `k` reach the end of its
/// axes.
pub open spec fn tiles(a: Seq<usize>, k: Seq<usize>, stride: isize) -> bool {
    let s = (stride as usize) as int;
    (a[2] - k[2]) % s == 0 && (a[3] - k[3]) % s == 0
}

/// The lengths of the axes of a convolution whose windows reach the end.
proof fn lemma_tiled(a: Seq<usize>, k: Seq<usize>, stride: isize, t: Seq<usize>)
    requires
        support::dense(k),
        tiles(a, k, stride),
        model::conv_shape(a, k, stride) == Ok::<Seq<usize>, Fault>(t),
    ensures
        ({
            let s = (stride as usize) as int;
            &&& a.len() == 4
            &&& k.len() == 4
            &&& t.len() == 4
            &&& 0 < s
            &&& t[0] == a[0]
            &&& t[1] == k[0]
            &&& k[1] == a[1]
            &&& k[2] > 0
            &&& k[3] > 0
            &&& a[2] == s * (t[2] - 1) + k[2]
            &&& a[3] == s * (t[3] - 1) + k[3]
        }),
{
    let s = (stride as usize) as int;
    assert(k[2] > 0 && k[3] > 0);
    let (x, y) = (a[2] - k[2], a[3] - k[3]);
    lemma_whole(x, s);
    lemma_whole(y, s);
    let (p, q) = (x / s, y / s);
    assert(0 <= p <= x && p * s == s * p && 0 <= q <= y && q * s == s * q) by (nonlinear_arith)
        requires
            0 <= x,
            0 <= y,
            0 < s,
            p == x / s,
            q == y / s,
    ;
    assert(t =~= seq![a[0], k[0], (p + 1) as usize, (q + 1) as usize]);
}

/// A product of the convolution of the spread weight by the flipped kernel, with the element that
/// it weighs.
proof fn lemma_product_at<S: Scalar>(
    v: spec_fn(S) -> real,
    s: int,
    w: TensorV<S>,
    x: TensorV<S>,
    k: TensorV<S>,
    d: Seq<TensorV<S>>,
    f: Seq<TensorV<S>>,
    p: Place,
)
    requires
        exact::exact(v),
        d.len() == 3,
        f.len() == 3,
        w.shape.len() == 4,
        x.shape.len() == 4,
        k.shape.len() == 4,
        support::dense(w.shape),
        support::dense(k.shape),
        0 < s <= usize::MAX,
        w.shape[0] == x.shape[0],
        w.shape[1] == k.shape[0],
        k.shape[1] == x.shape[1],
        x.shape[2] == s * (w.shape[2] - 1) + k.shape[2],
        x.shape[3] == s * (w.shape[3] - 1) + k.shape[3],
        spread_out(
            w,
            s,
            (k.shape[2] - 1) as usize,
            (k.shape[3] - 1) as usize,
            d[0],
            d[1],
            d[2],
        ),
        flips(k, f[0], f[1], f[2]),
        lies(x.shape, k.shape[0] as int, k.shape[2] as int, k.shape[3] as int, p),
    ensures
        ({
            let (m, n) = (k.shape[2] as int, k.shape[3] as int);
            let z = restored(p, s, m, n);
            v(x.data[model::at4(x.shape, p.a, p.b, p.c, p.d)]) * term(v, d[2], f[2], 1, p)
                == if is_mirror(p, s, m, n, w.shape[2] as int, w.shape[3] as int) {
                v(w.data[model::at4(w.shape, z.a, z.b, z.c, z.d)]) * term(v, x, k, s, z)
            } else {
                0real
            }
        }),
{
    let (m, n) = (k.shape[2] as int, k.shape[3] as int);
    let z = restored(p, s, m, n);
    let (h, c) = ((m - 1) as usize, (n - 1) as usize);
    let t = w.shape;
    assert(k.shape[2] > 0 && k.shape[3] > 0);
    lemma_spread_shapes(w, s, h, c, d[0], d[1], d[2]);
    let (r2, r3) = (t[2] - 1, t[3] - 1);
    assert(s * r2 == r2 * s && s * r3 == r3 * s) by (nonlinear_arith);
    lemma_spread_weight(w, s, h, c, d[0], d[1], d[2], p.a, p.e, p.c + p.f, p.d + p.g);
    lemma_flip_shapes(k, f[0], f[1], f[2]);
    lemma_flipped(k, f[0], f[1], f[2], p.b, p.e, p.f, p.g);
    lemma_mirror(x.shape, k.shape, t, s, p);
    exact::lemma_numbers(v);
    assert(1 * p.c == p.c && 1 * p.d == p.d);
    let (e, b) = (
        v(x.data[model::at4(x.shape, p.a, p.b, p.c, p.d)]),
        v(f[2].data[model::at4(f[2].shape, p.b, p.e, p.f, p.g)]),
    );
    if is_mirror(p, s, m, n, t[2] as int, t[3] as int) {
        assert(mirrored(z, s, m, n) == p);
        let g = v(w.data[model::at4(t, z.a, z.b, z.c, z.d)]);
        exact::lemma_regroup(e, g, b);
        exact::lemma_regroup(g, e, b);
        exact::lemma_units(e, g);
    } else {
        exact::lemma_units(b, b);
        exact::lemma_units(e, e);
    }
}

/// The results of the program of a convolution.
proof fn lemma_conv_steps<S: Scalar>(
    a: Seq<usize>,
    k: TensorV<S>,
    stride: isize,
    rule: RuleV<S>,
    inputs: Seq<TensorV<S>>,
    parts: Seq<TensorV<S>>,
) -> (r: (Seq<TensorV<S>>, Seq<TensorV<S>>))
    requires
        inputs.len() == 3,
        inputs[2] == k,
        vjp::conv_rule::<S>(a, k.shape, stride) == Ok::<RuleV<S>, Fault>(rule),
        vjp::applied::<S, Tensor<S>>((), crown::without_bias(Ok(rule))->Ok_0, inputs).1 == Ok::<
            Seq<TensorV<S>>,
            Fault,
        >(parts),
    ensures
        ({
            let (d, f) = r;
            &&& d.len() == 3
            &&& f.len() == 3
            &&& spread_out(
                inputs[0],
                (stride as usize) as int,
                (k.shape[2] - 1) as usize,
                (k.shape[3] - 1) as usize,
                d[0],
                d[1],
                d[2],
            )
            &&& flips(k, f[0], f[1], f[2])
            &&& model::bin_tensor(BinOpV::Conv(1), d[2], f[2]) == Ok::<TensorV<S>, Fault>(parts[0])
            &&& parts.len() == 2
            &&& parts[1] == model::scalar_tensor(scalar::zero::<S>())
        }),
{
    let s = (stride as usize) as int;
    let (h, x) = ((k.shape[2] - 1) as usize, (k.shape[3] - 1) as usize);
    let all = carry_moves::lemma_unbiased(rule, inputs, parts);
    let steps = rule.steps.push(vjp::load_number(scalar::zero::<S>()));
    let both = UnOpV::Pad(
        vjp::zero_pad::<S>(0, 0, (s - 1) as usize, seq![(-2) as isize, (-1) as isize]),
    );
    let rows = UnOpV::Pad(vjp::zero_pad::<S>(h, h, 0, seq![(-2) as isize]));
    let columns = UnOpV::Pad(vjp::zero_pad::<S>(x, x, 0, seq![(-1) as isize]));
    let up = UnOpV::<S>::Slice((-2) as isize, (-1) as isize, None, (-1) as isize);
    let left = UnOpV::<S>::Slice((-1) as isize, (-1) as isize, None, (-1) as isize);
    pairing::lemma_un_step(steps, inputs, all, 0, both, Reg::In(0));
    pairing::lemma_un_step(steps, inputs, all, 1, rows, Reg::Out(0));
    pairing::lemma_un_step(steps, inputs, all, 2, columns, Reg::Out(1));
    pairing::lemma_un_step(steps, inputs, all, 3, UnOpV::MoveAxis(0, 1), Reg::In(2));
    pairing::lemma_un_step(steps, inputs, all, 4, up, Reg::Out(3));
    pairing::lemma_un_step(steps, inputs, all, 5, left, Reg::Out(4));
    pairing::lemma_bin_step(steps, inputs, all, 6, BinOpV::Conv(1), Reg::Out(2), Reg::Out(5));
    (seq![all[0], all[1], all[2]], seq![all[3], all[4], all[5]])
}

/// A convolution and the convolution of the spread weight by the flipped kernel have the same
/// products.
#[verifier::rlimit(40)]
proof fn lemma_same_products<S: Scalar>(
    v: spec_fn(S) -> real,
    stride: isize,
    w: TensorV<S>,
    x: TensorV<S>,
    k: TensorV<S>,
    y: TensorV<S>,
    d: Seq<TensorV<S>>,
    f: Seq<TensorV<S>>,
    p: TensorV<S>,
)
    requires
        exact::exact(v),
        d.len() == 3,
        f.len() == 3,
        support::weighable(w),
        support::weighable(x),
        support::weighable(k),
        tiles(x.shape, k.shape, stride),
        model::bin_tensor(BinOpV::Conv(stride), x, k) == Ok::<TensorV<S>, Fault>(y),
        w.shape == y.shape,
        spread_out(
            w,
            (stride as usize) as int,
            (k.shape[2] - 1) as usize,
            (k.shape[3] - 1) as usize,
            d[0],
            d[1],
            d[2],
        ),
        flips(k, f[0], f[1], f[2]),
        model::bin_tensor(BinOpV::Conv(1), d[2], f[2]) == Ok::<TensorV<S>, Fault>(p),
        p.shape == x.shape,
        f[2].shape == seq![k.shape[1], k.shape[0], k.shape[2], k.shape[3]],
    ensures
        sums::sum(|r: int| v(x.data[r]) * v(p.data[r]), p.data.len()) == sums::sum(
            |r: int| v(w.data[r]) * v(y.data[r]),
            y.data.len(),
        ),
{
    let s = (stride as usize) as int;
    let (xs, ks, t) = (x.shape, k.shape, y.shape);
    lemma_tiled(xs, ks, stride, t);
    let (m, n) = (ks[2] as int, ks[3] as int);
    let (l1, l2) = (ks[0] as int, ks[1] as int);
    let (fx, fw) = (|r: int| v(x.data[r]), |r: int| v(w.data[r]));
    lemma_over_places(v, fx, d[2], f[2], 1, p);
    lemma_over_places(v, fw, x, k, stride, y);
    let (u1, u2) = (l1 * m * n, l2 * m * n);
    let (n1, n2) = ((p.data.len() * u1) as nat, (y.data.len() * u2) as nat);
    assert(0 <= p.data.len() * u1 && 0 <= y.data.len() * u2) by (nonlinear_arith)
        requires
            0 <= u1,
            0 <= u2,
    ;
    let left = |q: int| fx(q / u1) * term(v, d[2], f[2], 1, unpack(xs, l1, m, n, q));
    let right = |q: int| fw(q / u2) * term(v, x, k, s, unpack(t, l2, m, n, q));
    let g = |z: int| pack(xs, l1, m, n, mirrored(unpack(t, l2, m, n, z), s, m, n));
    let hit = |q: int| is_mirror(unpack(xs, l1, m, n, q), s, m, n, t[2] as int, t[3] as int);
    let h = |q: int| pack(t, l2, m, n, restored(unpack(xs, l1, m, n, q), s, m, n));
    let unit = |q: int| 1real;
    assert forall|z: int| 0 <= z < n2 implies 0 <= #[trigger] g(z) < n1 && hit(g(z)) && h(g(z))
        == z by {
        lemma_unpack(t, l2, m, n, z);
        let a = unpack(t, l2, m, n, z);
        lemma_mirror(xs, ks, t, s, a);
        lemma_pack(xs, l1, m, n, mirrored(a, s, m, n));
    }
    assert forall|q: int| 0 <= q < n1 && #[trigger] hit(q) implies 0 <= h(q) < n2 && g(h(q))
        == q by {
        lemma_unpack(xs, l1, m, n, q);
        let a = unpack(xs, l1, m, n, q);
        lemma_mirror(xs, ks, t, s, a);
        lemma_pack(t, l2, m, n, restored(a, s, m, n));
    }
    carry_places::lemma_sum_gather(right, unit, g, hit, h, n2, n1);
    let kept = |q: int|
        if hit(q) {
            right(h(q)) * unit(q)
        } else {
            0real
        };
    assert forall|q: int| 0 <= q < n1 implies #[trigger] left(q) == kept(q) by {
        lemma_unpack(xs, l1, m, n, q);
        let a = unpack(xs, l1, m, n, q);
        lemma_product_at(v, s, w, x, k, d, f, a);
        if hit(q) {
            lemma_mirror(xs, ks, t, s, a);
            lemma_pack(t, l2, m, n, restored(a, s, m, n));
            exact::lemma_units(right(h(q)), 1real);
        }
    }
    sums::lemma_sum_same(left, kept, n1);
    let scaled = |z: int| right(z) * unit(g(z));
    assert forall|z: int| 0 <= z < n2 implies #[trigger] scaled(z) == right(z) by {
        exact::lemma_units(right(z), 1real);
    }
    sums::lemma_sum_same(scaled, right, n2);
    let (a1, a2) = (|r: int| v(x.data[r]) * v(p.data[r]), |r: int| fx(r) * v(p.data[r]));
    sums::lemma_sum_same(a1, a2, p.data.len());
    let (b1, b2) = (|r: int| v(w.data[r]) * v(y.data[r]), |r: int| fw(r) * v(y.data[r]));
    sums::lemma_sum_same(b1, b2, y.data.len());
    let (c1, c2) = (
        |q: int| fx(q / (l1 * m * n)) * term(v, d[2], f[2], 1, unpack(p.shape, l1, m, n, q)),
        |q: int| fw(q / (l2 * m * n)) * term(v, x, k, s, unpack(y.shape, l2, m, n, q)),
    );
    sums::lemma_sum_same(c1, left, n1);
    sums::lemma_sum_same(c2, right, n2);
}

/// The convolution of the spread weight by the flipped kernel has the shape of the operand.
proof fn lemma_weight_shape<S: Scalar>(
    stride: isize,
    xs: Seq<usize>,
    w: TensorV<S>,
    k: TensorV<S>,
    d: Seq<TensorV<S>>,
    f: Seq<TensorV<S>>,
    p: TensorV<S>,
)
    requires
        d.len() == 3,
        f.len() == 3,
        support::dense(w.shape),
        support::dense(k.shape),
        tiles(xs, k.shape, stride),
        model::conv_shape(xs, k.shape, stride) == Ok::<Seq<usize>, Fault>(w.shape),
        spread_out(
            w,
            (stride as usize) as int,
            (k.shape[2] - 1) as usize,
            (k.shape[3] - 1) as usize,
            d[0],
            d[1],
            d[2],
        ),
        flips(k, f[0], f[1], f[2]),
        model::bin_tensor(BinOpV::Conv(1), d[2], f[2]) == Ok::<TensorV<S>, Fault>(p),
    ensures
        p.shape == xs,
        reals::full(p),
{
    let s = (stride as usize) as int;
    let (ks, t) = (k.shape, w.shape);
    lemma_tiled(xs, ks, stride, t);
    let (h, c) = ((ks[2] - 1) as usize, (ks[3] - 1) as usize);
    lemma_spread_shapes(w, s, h, c, d[0], d[1], d[2]);
    lemma_flip_shapes(k, f[0], f[1], f[2]);
    let (r2, r3) = (t[2] - 1, t[3] - 1);
    assert(s * r2 == r2 * s && s * r3 == r3 * s) by (nonlinear_arith);
    let (e2, e3) = (d[2].shape[2] - ks[2], d[2].shape[3] - ks[3]);
    assert(e2 / 1 == e2 && e3 / 1 == e3);
    let one = (1isize as usize) as int;
    assert(one == 1);
    assert(p.shape == model::conv_shape(d[2].shape, f[2].shape, 1)->Ok_0);
    assert(p.shape =~= xs);
}

/// The program of a convolution whose windows reach the end of its axes carries weights.
pub proof fn lemma_conv_carries<S: Scalar>(
    v: spec_fn(S) -> real,
    stride: isize,
    x: TensorV<S>,
    k: TensorV<S>,
    y: TensorV<S>,
    rule: RuleV<S>,
    inputs: Seq<TensorV<S>>,
    parts: Seq<TensorV<S>>,
)
    requires
        exact::exact(v),
        inputs.len() == 3,
        inputs[2] == k,
        support::weighable(inputs[0]),
        support::weighable(x),
        support::weighable(k),
        tiles(x.shape, k.shape, stride),
        model::bin_tensor(BinOpV::Conv(stride), x, k) == Ok::<TensorV<S>, Fault>(y),
        inputs[0].shape == y.shape,
        vjp::conv_rule::<S>(x.shape, k.shape, stride) == Ok::<RuleV<S>, Fault>(rule),
        vjp::applied::<S, Tensor<S>>((), crown::without_bias(Ok(rule))->Ok_0, inputs).1 == Ok::<
            Seq<TensorV<S>>,
            Fault,
        >(parts),
    ensures
        support::carries(v, parts, seq![x], inputs[0], y),
{
    let w = inputs[0];
    let (xs, ks, t) = (x.shape, k.shape, y.shape);
    lemma_tiled(xs, ks, stride, t);
    let (d, f) = lemma_conv_steps(xs, k, stride, rule, inputs, parts);
    let p = parts[0];
    lemma_flip_shapes(k, f[0], f[1], f[2]);
    lemma_weight_shape(stride, xs, w, k, d, f, p);
    lemma_same_products(v, stride, w, x, k, y, d, f, p);
    let (f1, f2) = (|r: int| v(x.data[r]) * v(p.data[r]), |r: int| v(p.data[r]) * v(x.data[r]));
    assert forall|r: int| 0 <= r < p.data.len() implies #[trigger] f1(r) == f2(r) by {
        exact::lemma_units(v(x.data[r]), v(p.data[r]));
    }
    sums::lemma_sum_same(f1, f2, p.data.len());
    pairing::lemma_same_shape(xs);
    pairing::lemma_spread_same(v, p, x);
    carry_moves::lemma_one(v, parts, x, w, y);
}

} // verus!
