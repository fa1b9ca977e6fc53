//! Shapes of row-major tensors: sizes, axis numbers, broadcasting and flat indices.

use vstd::prelude::*;

verus! {

/// The number of elements of a tensor of shape `s`.
pub open spec fn product(s: Seq<usize>) -> nat
    decreases s.len(),
{
    if s.len() == 0 {
        1
    } else {
        product(s.drop_last()) * (s.last() as nat)
    }
}

/// The product of the axis lengths of `s`, counting an empty axis as one.
pub open spec fn volume(s: Seq<usize>) -> nat
    decreases s.len(),
{
    if s.len() == 0 {
        1
    } else {
        volume(s.drop_last()) * (if s.last() == 0 { 1 } else { s.last() as nat })
    }
}

/// A shape that a tensor can have: neither its volume nor its rank exceeds `isize::MAX`.
pub open spec fn fits(s: Seq<usize>) -> bool {
    volume(s) <= isize::MAX && s.len() <= isize::MAX
}

/// The axis that `axis` names in a tensor of rank `ndim`, negative numbers counting from the end.
pub open spec fn norm_axis(axis: int, ndim: int) -> int {
    if axis < 0 {
        axis + ndim
    } else {
        axis
    }
}

/// Whether `axis` names an axis of a tensor of rank `ndim`.
pub open spec fn axis_ok(axis: int, ndim: int) -> bool {
    -ndim <= axis < ndim
}

/// The length of axis `i` of `s` once `s` is aligned to the right in a shape of rank `n`.
pub open spec fn aligned(s: Seq<usize>, n: int, i: int) -> usize {
    if i + s.len() < n {
        1
    } else {
        s[i + s.len() - n]
    }
}

/// Whether two axis lengths can be broadcast against each other.
pub open spec fn dims_agree(a: usize, b: usize) -> bool {
    a == b || a == 1 || b == 1
}

/// The larger of two ranks.
pub open spec fn rank_of(a: Seq<usize>, b: Seq<usize>) -> nat {
    if a.len() >= b.len() {
        a.len()
    } else {
        b.len()
    }
}

/// The broadcast of two shapes, where there is one: aligned to the right, axes of length one
/// expand.
pub open spec fn broadcast(a: Seq<usize>, b: Seq<usize>) -> Option<Seq<usize>> {
    let n = rank_of(a, b) as int;
    if forall|i: int| 0 <= i < n ==> dims_agree(#[trigger] aligned(a, n, i), aligned(b, n, i)) {
        Some(
            Seq::new(
                n as nat,
                |i: int|
                    if aligned(a, n, i) == 1 {
                        aligned(b, n, i)
                    } else {
                        aligned(a, n, i)
                    },
            ),
        )
    } else {
        None
    }
}

/// Whether a tensor of shape `s` can be broadcast to the shape `out`.
pub open spec fn expands_to(s: Seq<usize>, out: Seq<usize>) -> bool {
    &&& s.len() <= out.len()
    &&& forall|i: int|
        0 <= i < s.len() ==> #[trigger] s[i] == 1 || s[i] == out[i + out.len() - s.len()]
}

/// The flat index in a tensor of shape `s` that is read at flat index `k` of its broadcast to
/// the shape `out`.
pub open spec fn source_index(k: int, out: Seq<usize>, s: Seq<usize>) -> int
    decreases s.len(),
{
    if s.len() == 0 || out.len() == 0 {
        0
    } else {
        source_index(k / (out.last() as int), out.drop_last(), s.drop_last()) * (s.last() as int)
            + (if s.last() == 1 {
            0
        } else {
            k % (out.last() as int)
        })
    }
}

/// The coordinates of flat index `k` in a tensor of shape `s`.
pub open spec fn unravel(k: int, s: Seq<usize>) -> Seq<usize>
    decreases s.len(),
{
    if s.len() == 0 {
        Seq::empty()
    } else {
        unravel(k / (s.last() as int), s.drop_last()).push((k % (s.last() as int)) as usize)
    }
}

/// The flat index of the coordinates `m` in a tensor of shape `s`.
pub open spec fn ravel(m: Seq<usize>, s: Seq<usize>) -> int
    decreases s.len(),
{
    if s.len() == 0 || m.len() == 0 {
        0
    } else {
        ravel(m.drop_last(), s.drop_last()) * (s.last() as int) + m.last()
    }
}

/// Whether `m` are coordinates of an element of a tensor of shape `s`.
pub open spec fn in_shape(m: Seq<usize>, s: Seq<usize>) -> bool {
    &&& m.len() == s.len()
    &&& forall|i: int| 0 <= i < s.len() ==> #[trigger] m[i] < s[i]
}

/// Handles negative python style axis index and converts it into an absolute axis index.
pub fn norm_axis_index(axis: isize, ndim: usize) -> (r: usize)
    requires
        ndim <= isize::MAX,
    ensures
        r == norm_axis(axis as int, ndim as int) as usize,
        axis_ok(axis as int, ndim as int) ==> r == norm_axis(axis as int, ndim as int) && r < ndim,
{
    if axis < 0 {
        (axis + ndim as isize) as usize
    } else {
        axis as usize
    }
}

/// numpy broadcasting: align shapes from the right, expanding size-1 dims.
pub fn broadcast_shape(a: &[usize], b: &[usize]) -> (r: Option<Vec<usize>>)
    ensures
        match r {
            Some(v) => broadcast(a@, b@) == Some(v@),
            None => broadcast(a@, b@) is None,
        },
{
    let n: usize = if a.len() >= b.len() {
        a.len()
    } else {
        b.len()
    };
    let ghost g = n as int;
    let mut out: Vec<usize> = Vec::new();
    for i in 0..n
        invariant
            n == rank_of(a@, b@),
            g == n,
            out@.len() == i,
            forall|j: int|
                0 <= j < i ==> dims_agree(#[trigger] aligned(a@, g, j), aligned(b@, g, j)),
            forall|j: int|
                0 <= j < i ==> out@[j] == (if aligned(a@, g, j) == 1 {
                    aligned(b@, g, j)
                } else {
                    aligned(a@, g, j)
                }),
    {
        let ad: usize = if i < n - a.len() {
            1
        } else {
            a[i - (n - a.len())]
        };
        let bd: usize = if i < n - b.len() {
            1
        } else {
            b[i - (n - b.len())]
        };
        assert(ad == aligned(a@, g, i as int));
        assert(bd == aligned(b@, g, i as int));
        if ad == bd || ad == 1 || bd == 1 {
            out.push(
                if ad == 1 {
                    bd
                } else {
                    ad
                },
            );
        } else {
            return None;
        }
    }
    proof {
        assert(out@ =~= broadcast(a@, b@)->0);
    }
    Some(out)
}

/// The size of a concatenation is the product of the sizes.
pub proof fn lemma_product_concat(a: Seq<usize>, b: Seq<usize>)
    ensures
        product(a + b) == product(a) * product(b),
    decreases b.len(),
{
    if b.len() == 0 {
        assert(a + b =~= a);
        assert(product(a) * product(b) == product(a)) by (nonlinear_arith)
            requires
                product(b) == 1,
        ;
    } else {
        let ab = a + b;
        assert(ab.drop_last() =~= a + b.drop_last());
        lemma_product_concat(a, b.drop_last());
        let (p, q, l) = (product(a), product(b.drop_last()), b.last() as nat);
        assert(p * q * l == p * (q * l)) by (nonlinear_arith);
    }
}

/// A shape with one axis has the size of that axis.
pub proof fn lemma_product_single(e: usize)
    ensures
        product(seq![e]) == e,
{
    let p = product(seq![e].drop_last());
    assert(p == 1);
    assert(p * (e as nat) == e) by (nonlinear_arith)
        requires
            p == 1,
    ;
}

/// The volume of a concatenation is the product of the volumes.
pub proof fn lemma_volume_concat(a: Seq<usize>, b: Seq<usize>)
    ensures
        volume(a + b) == volume(a) * volume(b),
    decreases b.len(),
{
    if b.len() == 0 {
        assert(a + b =~= a);
        assert(volume(a) * volume(b) == volume(a)) by (nonlinear_arith)
            requires
                volume(b) == 1,
        ;
    } else {
        let ab = a + b;
        assert(ab.drop_last() =~= a + b.drop_last());
        lemma_volume_concat(a, b.drop_last());
        let (p, q) = (volume(a), volume(b.drop_last()));
        let l: nat = if b.last() == 0 {
            1
        } else {
            b.last() as nat
        };
        assert(p * q * l == p * (q * l)) by (nonlinear_arith);
    }
}

/// A volume is positive and bounds the size and every axis length.
pub proof fn lemma_volume_bounds(s: Seq<usize>)
    ensures
        1 <= volume(s),
        product(s) <= volume(s),
        forall|i: int| 0 <= i < s.len() ==> #[trigger] s[i] <= volume(s),
    decreases s.len(),
{
    if s.len() > 0 {
        lemma_volume_bounds(s.drop_last());
        let (p, v) = (product(s.drop_last()), volume(s.drop_last()));
        let l: nat = if s.last() == 0 {
            1
        } else {
            s.last() as nat
        };
        let d = s.last() as nat;
        assert(v * l >= v && v * l >= l && v * l >= p * d) by (nonlinear_arith)
            requires
                v >= 1,
                l >= 1,
                p <= v,
                d <= l,
        ;
        assert forall|i: int| 0 <= i < s.len() implies #[trigger] s[i] <= volume(s) by {
            if i < s.len() - 1 {
                assert(s[i] == s.drop_last()[i]);
            }
        }
    }
}

/// Part of a shape has at most the volume of the whole.
pub proof fn lemma_volume_sub(s: Seq<usize>, from: int, to: int)
    requires
        0 <= from <= to <= s.len(),
    ensures
        volume(s.subrange(from, to)) <= volume(s),
        product(s.subrange(from, to)) <= volume(s),
{
    let (a, b, c) = (s.subrange(0, from), s.subrange(from, to), s.subrange(to, s.len() as int));
    assert(s =~= a + b + c);
    lemma_volume_concat(a + b, c);
    lemma_volume_concat(a, b);
    lemma_volume_bounds(a);
    lemma_volume_bounds(b);
    lemma_volume_bounds(c);
    let (x, y, z) = (volume(a), volume(b), volume(c));
    assert(y <= x * y * z) by (nonlinear_arith)
        requires
            x >= 1,
            y >= 1,
            z >= 1,
    ;
}

/// The size of a shape with a distinguished axis, as outer size times length times inner size.
pub proof fn lemma_product_split(s: Seq<usize>, ax: int)
    requires
        0 <= ax < s.len(),
    ensures
        product(s) == product(s.subrange(0, ax)) * (s[ax] as nat) * product(
            s.subrange(ax + 1, s.len() as int),
        ),
{
    let (a, b) = (s.subrange(0, ax), s.subrange(ax + 1, s.len() as int));
    let h = s.subrange(0, ax + 1);
    assert(s =~= h + b);
    assert(h.drop_last() =~= a);
    lemma_product_concat(h, b);
}

/// Whether a tensor can have this shape.
pub fn check_fits(s: &[usize]) -> (r: bool)
    ensures
        r == fits(s@),
{
    if s.len() > isize::MAX as usize {
        return false;
    }
    let mut v: usize = 1;
    for i in 0..s.len()
        invariant
            s@.len() <= isize::MAX,
            v == volume(s@.subrange(0, i as int)),
            v <= isize::MAX,
    {
        let d: usize = if s[i] == 0 {
            1
        } else {
            s[i]
        };
        proof {
            assert(s@.subrange(0, i + 1).drop_last() =~= s@.subrange(0, i as int));
            lemma_volume_sub(s@, 0, i + 1);
        }
        match v.checked_mul(d) {
            Some(w) => {
                if w > isize::MAX as usize {
                    return false;
                }
                v = w;
            },
            None => {
                return false;
            },
        }
    }
    assert(s@.subrange(0, s@.len() as int) =~= s@);
    true
}

/// The size of the axes `from..to` of a shape.
pub fn size_of(s: &[usize], from: usize, to: usize) -> (r: usize)
    requires
        from <= to <= s@.len(),
        fits(s@),
    ensures
        r == product(s@.subrange(from as int, to as int)),
        r <= isize::MAX,
{
    let mut p: usize = 1;
    assert(s@.subrange(from as int, from as int) =~= Seq::<usize>::empty());
    for i in from..to
        invariant
            from <= to <= s@.len(),
            fits(s@),
            p == product(s@.subrange(from as int, i as int)),
    {
        proof {
            assert(s@.subrange(from as int, i + 1).drop_last() =~= s@.subrange(
                from as int,
                i as int,
            ));
            lemma_volume_sub(s@, from as int, i + 1);
        }
        p = p * s[i];
    }
    proof {
        lemma_volume_sub(s@, from as int, to as int);
    }
    p
}

/// The coordinates of flat index `idx` in a tensor of shape `shape`, the last axis running
/// fastest.
pub fn flat_to_multi(idx: usize, shape: &[usize]) -> (r: Vec<usize>)
    requires
        forall|i: int| 0 <= i < shape@.len() ==> shape@[i] != 0,
    ensures
        r@ == unravel(idx as int, shape@),
{
    let n = shape.len();
    let mut rest: usize = idx;
    let mut rev: Vec<usize> = Vec::new();
    assert(shape@.subrange(0, n as int) =~= shape@);
    assert(rev@.reverse() =~= Seq::<usize>::empty());
    for i in 0..n
        invariant
            n == shape@.len(),
            forall|i: int| 0 <= i < shape@.len() ==> shape@[i] != 0,
            rev@.len() == i,
            unravel(idx as int, shape@) =~= unravel(rest as int, shape@.subrange(0, n - i))
                + rev@.reverse(),
    {
        let d = shape[n - 1 - i];
        let ghost tail = rev@;
        let ghost front = shape@.subrange(0, n - i);
        assert(front.drop_last() =~= shape@.subrange(0, n - i - 1));
        assert(front.last() == d);
        rev.push(rest % d);
        proof {
            assert(rev@.reverse() =~= seq![rest % d] + tail.reverse());
            assert(unravel(rest as int, front) + tail.reverse() =~= unravel(
                rest as int / d as int,
                front.drop_last(),
            ) + rev@.reverse());
        }
        rest = rest / d;
    }
    let mut out: Vec<usize> = Vec::new();
    for i in 0..n
        invariant
            n == rev@.len(),
            out@ =~= rev@.reverse().subrange(0, i as int),
    {
        out.push(rev[n - 1 - i]);
    }
    assert(unravel(rest as int, shape@.subrange(0, 0)) =~= Seq::<usize>::empty());
    assert(out@ =~= rev@.reverse());
    out
}

/// Unravelling an index in range gives coordinates in the shape, and ravelling those gives the
/// index back.
pub proof fn lemma_unravel_ravel(k: int, s: Seq<usize>)
    requires
        0 <= k < product(s),
    ensures
        in_shape(unravel(k, s), s),
        ravel(unravel(k, s), s) == k,
    decreases s.len(),
{
    if s.len() > 0 {
        let d = s.last() as int;
        let p = product(s.drop_last()) as int;
        assert(d > 0 && 0 <= k / d < p && 0 <= k % d < d && (k / d) * d + k % d == k)
            by (nonlinear_arith)
            requires
                0 <= k < p * d,
                d >= 0,
                p >= 0,
        ;
        lemma_unravel_ravel(k / d, s.drop_last());
        let u = unravel(k, s);
        assert(u.drop_last() =~= unravel(k / d, s.drop_last()));
        assert forall|i: int| 0 <= i < s.len() implies #[trigger] u[i] < s[i] by {
            if i < s.len() - 1 {
                assert(u.drop_last()[i] < s.drop_last()[i]);
            }
        }
    }
}

/// A shape with elements has no empty axis.
pub proof fn lemma_nonempty(s: Seq<usize>)
    requires
        product(s) > 0,
    ensures
        forall|i: int| 0 <= i < s.len() ==> s[i] != 0,
    decreases s.len(),
{
    if s.len() > 0 {
        let (p, d) = (product(s.drop_last()), s.last() as nat);
        assert(p > 0 && d > 0) by (nonlinear_arith)
            requires
                p * d > 0,
        ;
        lemma_nonempty(s.drop_last());
        assert forall|i: int| 0 <= i < s.len() implies s[i] != 0 by {
            if i < s.len() - 1 {
                assert(s[i] == s.drop_last()[i]);
            }
        }
    }
}

/// Ravelling coordinates in the shape gives an index in range, and unravelling that gives the
/// coordinates back.
pub proof fn lemma_ravel_unravel(m: Seq<usize>, s: Seq<usize>)
    requires
        in_shape(m, s),
    ensures
        0 <= ravel(m, s) < product(s),
        unravel(ravel(m, s), s) == m,
    decreases s.len(),
{
    if s.len() > 0 {
        let d = s.last() as int;
        let p = product(s.drop_last()) as int;
        assert(in_shape(m.drop_last(), s.drop_last())) by {
            assert forall|i: int| 0 <= i < s.len() - 1 implies #[trigger] m.drop_last()[i]
                < s.drop_last()[i] by {
                assert(m[i] < s[i]);
            }
        }
        assert(m.last() < s.last()) by {
            assert(m[s.len() - 1] < s[s.len() - 1]);
        }
        lemma_ravel_unravel(m.drop_last(), s.drop_last());
        let q = ravel(m.drop_last(), s.drop_last());
        let r = m.last() as int;
        assert(0 <= q * d + r < p * d && (q * d + r) / d == q && (q * d + r) % d == r)
            by (nonlinear_arith)
            requires
                0 <= q < p,
                0 <= r < d,
        ;
        assert(m.drop_last().push(m.last()) =~= m);
    } else {
        assert(m =~= Seq::<usize>::empty());
    }
}

/// The flat index of the coordinates `m` in a tensor of shape `s`.
pub fn multi_to_flat(m: &[usize], s: &[usize]) -> (r: usize)
    requires
        in_shape(m@, s@),
        fits(s@),
    ensures
        r == ravel(m@, s@),
        r < product(s@),
{
    let n = s.len();
    let mut k: usize = 0;
    assert(m@.subrange(0, 0) =~= Seq::<usize>::empty());
    for i in 0..n
        invariant
            n == s@.len(),
            in_shape(m@, s@),
            fits(s@),
            k == ravel(m@.subrange(0, i as int), s@.subrange(0, i as int)),
    {
        proof {
            let (mm, ss) = (m@.subrange(0, i + 1), s@.subrange(0, i + 1));
            assert(mm.drop_last() =~= m@.subrange(0, i as int));
            assert(ss.drop_last() =~= s@.subrange(0, i as int));
            assert(m@[i as int] < s@[i as int]);
            assert(in_shape(mm, ss));
            lemma_ravel_unravel(mm, ss);
            lemma_volume_sub(s@, 0, i + 1);
            let (q, d) = (k as int, s@[i as int] as int);
            assert(q * d >= 0) by (nonlinear_arith)
                requires
                    q >= 0,
                    d >= 0,
            ;
        }
        k = k * s[i] + m[i];
    }
    proof {
        assert(m@.subrange(0, n as int) =~= m@);
        assert(s@.subrange(0, n as int) =~= s@);
        lemma_ravel_unravel(m@, s@);
    }
    k
}

/// The index that a broadcast reads is in range.
pub proof fn lemma_source_index(k: int, out: Seq<usize>, s: Seq<usize>)
    requires
        expands_to(s, out),
        0 <= k < product(out),
    ensures
        0 <= source_index(k, out, s) < product(s),
    decreases s.len(),
{
    if s.len() > 0 {
        let d = out.last() as int;
        let e = s.last() as int;
        let p = product(out.drop_last()) as int;
        assert(d > 0 && 0 <= k / d < p && 0 <= k % d < d) by (nonlinear_arith)
            requires
                0 <= k < p * d,
                d >= 0,
                p >= 0,
        ;
        assert(s[s.len() - 1] == 1 || s[s.len() - 1] == out[out.len() - 1]);
        assert(expands_to(s.drop_last(), out.drop_last())) by {
            assert forall|i: int| 0 <= i < s.len() - 1 implies #[trigger] s.drop_last()[i] == 1
                || s.drop_last()[i] == out.drop_last()[i + (out.len() - 1) - (s.len() - 1)] by {
                assert(s[i] == 1 || s[i] == out[i + out.len() - s.len()]);
            }
        }
        lemma_source_index(k / d, out.drop_last(), s.drop_last());
        let q = source_index(k / d, out.drop_last(), s.drop_last());
        let r: int = if s.last() == 1 {
            0
        } else {
            k % d
        };
        let w = product(s.drop_last()) as int;
        assert(0 <= q * e + r < w * e) by (nonlinear_arith)
            requires
                0 <= q < w,
                0 <= r < e,
        ;
    }
}

/// Broadcasting against any shape leaves both operands expandable to the result.
pub proof fn lemma_broadcast_expands(a: Seq<usize>, b: Seq<usize>)
    requires
        broadcast(a, b) is Some,
    ensures
        expands_to(a, broadcast(a, b)->0),
        expands_to(b, broadcast(a, b)->0),
{
    let out = broadcast(a, b)->0;
    let n = out.len() as int;
    assert forall|i: int| 0 <= i < a.len() implies #[trigger] a[i] == 1 || a[i] == out[i + n
        - a.len()] by {
        let j = i + n - a.len();
        assert(dims_agree(aligned(a, n, j), aligned(b, n, j)));
    }
    assert forall|i: int| 0 <= i < b.len() implies #[trigger] b[i] == 1 || b[i] == out[i + n
        - b.len()] by {
        let j = i + n - b.len();
        assert(dims_agree(aligned(a, n, j), aligned(b, n, j)));
    }
}

/// Reading through two broadcasts in a row is allowed where each one is.
pub proof fn lemma_expands_trans(a: Seq<usize>, b: Seq<usize>, c: Seq<usize>)
    requires
        expands_to(a, b),
        expands_to(b, c),
    ensures
        expands_to(a, c),
{
    assert forall|i: int| 0 <= i < a.len() implies #[trigger] a[i] == 1 || a[i] == c[i + c.len()
        - a.len()] by {
        let j = i + b.len() - a.len();
        assert(a[i] == 1 || a[i] == b[j]);
        assert(b[j] == 1 || b[j] == c[j + c.len() - b.len()]);
    }
}

/// One step of reading a broadcast from its last axis on: `st` is the size of the axes already
/// read.
proof fn lemma_source_step(rest: int, out: Seq<usize>, s: Seq<usize>, st: int)
    requires
        expands_to(s, out),
        0 <= rest < product(out),
        s.len() > 0,
        st >= 0,
    ensures
        out.last() > 0,
        expands_to(s.drop_last(), out.drop_last()),
        0 <= rest / (out.last() as int) < product(out.drop_last()),
        0 <= source_index(rest / (out.last() as int), out.drop_last(), s.drop_last()) * (s.last()
            * st),
        ({
            let c = if s.last() == 1 {
                0
            } else {
                rest % (out.last() as int)
            };
            &&& 0 <= c
            &&& 0 <= c * st
            &&& source_index(rest, out, s) * st == source_index(
                rest / (out.last() as int),
                out.drop_last(),
                s.drop_last(),
            ) * (s.last() * st) + c * st
        }),
{
    let d = out.last() as int;
    let e = s.last() as int;
    let p = product(out.drop_last()) as int;
    assert(d > 0 && 0 <= rest / d < p && 0 <= rest % d < d) by (nonlinear_arith)
        requires
            0 <= rest < p * d,
            d >= 0,
            p >= 0,
    ;
    assert(expands_to(s.drop_last(), out.drop_last())) by {
        assert forall|j: int| 0 <= j < s.len() - 1 implies #[trigger] s.drop_last()[j] == 1
            || s.drop_last()[j] == out.drop_last()[j + (out.len() - 1) - (s.len() - 1)] by {
            assert(s[j] == 1 || s[j] == out[j + out.len() - s.len()]);
        }
    }
    lemma_source_index(rest / d, out.drop_last(), s.drop_last());
    let q = source_index(rest / d, out.drop_last(), s.drop_last());
    let c: int = if s.last() == 1 {
        0
    } else {
        rest % d
    };
    assert((q * e + c) * st == q * (e * st) + c * st) by (nonlinear_arith);
    assert(q * (e * st) >= 0 && c * st >= 0) by (nonlinear_arith)
        requires
            q >= 0,
            e >= 0,
            st >= 0,
            c >= 0,
    ;
}

/// The flat index that a broadcast of shape `s` to `out` reads at flat index `k`.
pub fn broadcast_index(k: usize, out: &[usize], s: &[usize]) -> (r: usize)
    requires
        expands_to(s@, out@),
        k < product(out@),
        fits(s@),
    ensures
        r == source_index(k as int, out@, s@),
        r < product(s@),
{
    let n = s.len();
    let m = out.len();
    let mut rest: usize = k;
    let mut stride: usize = 1;
    let mut acc: usize = 0;
    let ghost goal = source_index(k as int, out@, s@);
    proof {
        lemma_source_index(k as int, out@, s@);
        lemma_volume_bounds(s@);
        assert(s@.subrange(0, n as int) =~= s@);
        assert(out@.subrange(0, m as int) =~= out@);
        assert(s@.subrange(n as int, n as int) =~= Seq::<usize>::empty());
    }
    for i in 0..n
        invariant
            n == s@.len(),
            m == out@.len(),
            n <= m,
            fits(s@),
            expands_to(s@.subrange(0, n - i), out@.subrange(0, m - i)),
            stride == product(s@.subrange(n - i, n as int)),
            rest < product(out@.subrange(0, m - i)),
            0 <= goal <= isize::MAX,
            goal == source_index(
                rest as int,
                out@.subrange(0, m - i),
                s@.subrange(0, n - i),
            ) * stride + acc,
    {
        let d = out[m - 1 - i];
        let e = s[n - 1 - i];
        proof {
            let fo = out@.subrange(0, m - i);
            let fs = s@.subrange(0, n - i);
            assert(fo.drop_last() =~= out@.subrange(0, m - i - 1));
            assert(fs.drop_last() =~= s@.subrange(0, n - i - 1));
            assert(fo.last() == d && fs.last() == e);
            lemma_source_step(rest as int, fo, fs, stride as int);
            let t0 = s@.subrange(n - i, n as int);
            let t1 = s@.subrange(n - i - 1, n as int);
            assert(t1 =~= seq![e] + t0);
            lemma_product_concat(seq![e], t0);
            lemma_product_single(e);
            assert(e * stride == stride * e) by (nonlinear_arith);
            lemma_volume_sub(s@, n - i - 1, n as int);
        }
        let c: usize = if e == 1 {
            0
        } else {
            rest % d
        };
        acc = acc + c * stride;
        stride = stride * e;
        rest = rest / d;
    }
    proof {
        assert(s@.subrange(0, 0) =~= Seq::<usize>::empty());
    }
    acc
}

} // verus!
