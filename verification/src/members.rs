//! Batched interval propagation bounds every member: in exact arithmetic, the output on an input
//! in box number `i` lies in member number `i` of the propagated batch.

use vstd::prelude::*;
use crate::batched;
use crate::batched::{BatchV, Bilinear, IBPBatchedTensor};
use crate::containment;
use crate::env;
use crate::eval;
use crate::exact;
use crate::input_splitting;
use crate::input_splitting::BoxV;
use crate::input_verdicts;
use crate::interval;
use crate::interval::IBPV;
use crate::linalg;
use crate::manipulate;
use crate::matrices;
use crate::model;
use crate::model::{BinOpV, Fault, TensorV, UnOpV};
use crate::nn;
use crate::nn::{AtomV, EqnV, GraphV, PrimV};
use crate::reals;
use crate::scalar::Scalar;
use crate::shape;
use crate::stacks;
use crate::sums;
use crate::tensor::Tensor;

verus! {

// ---- blocks ----
/// The shape of a stack of `n` members of shape `s`.
pub open spec fn atop(n: usize, s: Seq<usize>) -> Seq<usize> {
    seq![n] + s
}

/// Whether `x` is member number `i` of the stack `t` of `n` members.
pub open spec fn is_block<S>(x: TensorV<S>, t: TensorV<S>, n: usize, i: int) -> bool {
    &&& t.shape == atop(n, x.shape)
    &&& 0 <= i < n
    &&& reals::full(x)
    &&& reals::full(t)
    &&& forall|q: int|
        0 <= q < x.data.len() ==> #[trigger] x.data[q] == t.data[i * x.data.len() + q]
}

/// Whether `x` is member number `i` of some stack of `n` tensors that lies in a batch.
pub open spec fn sits<S: Scalar>(
    v: spec_fn(S) -> real,
    x: TensorV<S>,
    b: BatchV<S>,
    n: usize,
    i: int,
) -> bool {
    &&& !b.shared
    &&& exists|t: TensorV<S>| #[trigger]
        is_block(x, t, n, i) && containment::inside(v, t, batched::whole(b))
}

/// The size of a stack.
pub proof fn lemma_atop(n: usize, s: Seq<usize>)
    ensures
        shape::product(atop(n, s)) == n * shape::product(s),
        atop(n, s).remove(0) == s,
{
    shape::lemma_product_concat(seq![n], s);
    shape::lemma_product_single(n);
    assert(atop(n, s).remove(0) =~= s);
}

/// Where the elements of a member stand.
pub proof fn lemma_in_block<S>(x: TensorV<S>, t: TensorV<S>, n: usize, i: int, q: int)
    requires
        is_block(x, t, n, i),
        0 <= q < x.data.len(),
    ensures
        0 <= i * x.data.len() + q < t.data.len(),
{
    lemma_atop(n, x.shape);
    manipulate::lemma_cell(i, q, n as int, x.data.len() as int);
}

/// A stack in a batch whose member is numerically `y` can be had with the member `y`.
proof fn lemma_settle<S: Scalar>(
    v: spec_fn(S) -> real,
    y: TensorV<S>,
    t: TensorV<S>,
    b: BatchV<S>,
    n: usize,
    i: int,
)
    requires
        exact::exact(v),
        t.shape == atop(n, y.shape),
        0 <= i < n,
        reals::full(y),
        !b.shared,
        containment::inside(v, t, batched::whole(b)),
        forall|q: int|
            0 <= q < y.data.len() ==> v(#[trigger] y.data[q]) == v(t.data[i * y.data.len() + q]),
    ensures
        sits(v, y, b, n, i),
{
    let m = y.data.len() as int;
    lemma_atop(n, y.shape);
    let u = TensorV {
        shape: t.shape,
        data: Seq::new(
            t.data.len(),
            |r: int|
                if m > 0 && r / m == i {
                    y.data[r % m]
                } else {
                    t.data[r]
                },
        ),
    };
    assert forall|r: int| 0 <= r < t.data.len() implies v(#[trigger] u.data[r]) == v(
        t.data[r],
    ) by {
        if m > 0 && r / m == i {
            manipulate::lemma_row(r, n as int, m);
            assert(v(y.data[r % m]) == v(t.data[i * m + r % m]));
        }
    }
    let w = batched::whole(b);
    assert(containment::below(v, w.lb, u)) by {
        assert forall|r: int| 0 <= r < w.lb.data.len() implies v(#[trigger] w.lb.data[r]) <= v(
            u.data[r],
        ) by {
            assert(v(u.data[r]) == v(t.data[r]));
        }
    }
    assert(containment::below(v, u, w.ub)) by {
        assert forall|r: int| 0 <= r < u.data.len() implies v(#[trigger] u.data[r]) <= v(
            w.ub.data[r],
        ) by {
            assert(v(t.data[r]) <= v(w.ub.data[r]));
        }
    }
    assert(is_block(y, u, n, i)) by {
        assert forall|q: int| 0 <= q < y.data.len() implies #[trigger] y.data[q] == u.data[i * m
            + q] by {
            manipulate::lemma_cell(i, q, n as int, m);
        }
    }
}

// ---- operations on one batch ----
/// Members under an operation that acts on each element alone.
proof fn lemma_elementwise<S: Scalar>(
    v: spec_fn(S) -> real,
    op: UnOpV<S>,
    x: TensorV<S>,
    b: BatchV<S>,
    n: usize,
    i: int,
    y: TensorV<S>,
    c: BatchV<S>,
)
    requires
        exact::exact(v),
        sits(v, x, b, n, i),
        model::is_pointwise(op),
        containment::un_bounded(v, op, batched::whole(b)),
        model::un_tensor(op, x) == Ok::<TensorV<S>, Fault>(y),
        batched::un_batch(op, b) == Ok::<BatchV<S>, Fault>(c),
    ensures
        sits(v, y, c, n, i),
{
    let t = choose|t: TensorV<S>| #[trigger]
        is_block(x, t, n, i) && containment::inside(v, t, batched::whole(b));
    let u = model::un_tensor(op, t)->Ok_0;
    containment::lemma_un_inside(v, op, t, batched::whole(b));
    assert(is_block(y, u, n, i)) by {
        assert forall|q: int| 0 <= q < y.data.len() implies #[trigger] y.data[q] == u.data[i
            * y.data.len() + q] by {
            lemma_in_block(x, t, n, i, q);
            assert(x.data[q] == t.data[i * x.data.len() + q]);
            assert(y.data[q] == model::at_point(op, x.data[q]));
        }
    }
    assert(batched::whole(c) == interval::un_interval(op, batched::whole(b))->Ok_0);
}

/// The lengths that are given, with the number of members before them.
pub proof fn lemma_known(n: isize, d: Seq<isize>)
    requires
        0 <= n,
    ensures
        model::known_size(seq![n] + d) == n * model::known_size(d),
    decreases d.len(),
{
    let e = seq![n] + d;
    if d.len() == 0 {
        assert(e.drop_last() =~= Seq::<isize>::empty());
        assert(model::known_size(e.drop_last()) == 1);
        assert(model::known_size(e) == 1 * n);
        assert(n * 1 == n) by (nonlinear_arith);
    } else {
        let f = d.drop_last();
        assert(e.drop_last() =~= seq![n] + f);
        lemma_known(n, f);
        let (k, l) = (model::known_size(f) as int, d.last() as int);
        assert((n * k) * l == n * (k * l)) by (nonlinear_arith);
    }
}

/// The length that is inferred for a stack is that for its members.
pub proof fn lemma_inferred(n: int, total: nat, known: nat)
    requires
        0 < n,
    ensures
        model::inferred((n * total) as nat, (n * known) as nat) == model::inferred(total, known),
{
    assert(0 <= n * total && 0 <= n * known && (n * known == 0 <==> known == 0)) by (nonlinear_arith)
        requires
            0 < n,
    ;
    if known > 0 {
        let (q, r) = ((total / known) as int, (total % known) as int);
        assert(total == q * known + r && 0 <= r < known) by (nonlinear_arith)
            requires
                known > 0,
                q == total / known,
                r == total % known,
        ;
        let (a, b) = (n * total, n * known);
        assert(a == q * b + n * r && 0 <= n * r < b) by (nonlinear_arith)
            requires
                a == n * total,
                b == n * known,
                total == q * known + r,
                0 <= r < known,
                0 < n,
        ;
        let z = n * r;
        assert(a / b == q) by (nonlinear_arith)
            requires
                a == q * b + z,
                0 <= z < b,
        ;
    }
}

/// Members under a change of shape.
proof fn lemma_reshape<S: Scalar>(
    v: spec_fn(S) -> real,
    d: Seq<isize>,
    x: TensorV<S>,
    b: BatchV<S>,
    n: usize,
    i: int,
    y: TensorV<S>,
    c: BatchV<S>,
)
    requires
        exact::exact(v),
        sits(v, x, b, n, i),
        n <= isize::MAX,
        model::un_tensor(UnOpV::Reshape(d), x) == Ok::<TensorV<S>, Fault>(y),
        batched::un_batch(UnOpV::Reshape(d), b) == Ok::<BatchV<S>, Fault>(c),
    ensures
        sits(v, y, c, n, i),
{
    let t = choose|t: TensorV<S>| #[trigger]
        is_block(x, t, n, i) && containment::inside(v, t, batched::whole(b));
    lemma_atop(n, x.shape);
    assert(t.shape[0] == n);
    let e = seq![n as isize] + d;
    let op = UnOpV::<S>::Reshape(e);
    containment::lemma_un_rises(v, op, b.lb, t);
    containment::lemma_un_rises(v, op, t, b.ub);
    let u = model::un_tensor(op, t)->Ok_0;
    input_verdicts::lemma_between(v, c.lb, c.ub, u);
    lemma_known(n as isize, d);
    lemma_inferred(n as int, shape::product(x.shape), model::known_size(d));
    assert(u.shape =~= atop(n, y.shape)) by {
        assert forall|k: int| 0 <= k < e.len() implies #[trigger] u.shape[k] == atop(
            n,
            y.shape,
        )[k] by {
            if k > 0 {
                assert(e[k] == d[k - 1]);
            }
        }
    }
    assert(is_block(y, u, n, i));
}

/// The operation on a stack that acts on its members as another operation that moves elements.
pub open spec fn moves_behind<S>(op: UnOpV<S>) -> Option<UnOpV<S>> {
    match op {
        UnOpV::ReduceSum(axes) => Some(UnOpV::ReduceSum(batched::shifted_all(axes))),
        UnOpV::ExpandDims(axes) => Some(UnOpV::ExpandDims(batched::shifted_all(axes))),
        UnOpV::MoveAxis(from, to) => Some(
            UnOpV::MoveAxis(batched::shifted(from), batched::shifted(to)),
        ),
        UnOpV::Slice(axis, start, end, step) => Some(
            UnOpV::Slice(batched::shifted(axis), start, end, step),
        ),
        UnOpV::Pad(p) => Some(UnOpV::Pad(stacks::behind(p))),
        _ => None,
    }
}

/// Members under an operation that moves elements.
proof fn lemma_moves<S: Scalar>(
    v: spec_fn(S) -> real,
    op: UnOpV<S>,
    x: TensorV<S>,
    b: BatchV<S>,
    n: usize,
    i: int,
    y: TensorV<S>,
    c: BatchV<S>,
)
    requires
        exact::exact(v),
        sits(v, x, b, n, i),
        moves_behind(op) is Some,
        op matches UnOpV::Pad(p) ==> model::axes_ok(p.axes, x.shape.len() as int),
        model::un_tensor(op, x) == Ok::<TensorV<S>, Fault>(y),
        batched::un_batch(op, b) == Ok::<BatchV<S>, Fault>(c),
    ensures
        sits(v, y, c, n, i),
{
    let t = choose|t: TensorV<S>| #[trigger]
        is_block(x, t, n, i) && containment::inside(v, t, batched::whole(b));
    let f = moves_behind(op)->Some_0;
    assert(model::un_tensor(f, b.lb) == Ok::<TensorV<S>, Fault>(c.lb));
    assert(model::un_tensor(f, b.ub) == Ok::<TensorV<S>, Fault>(c.ub));
    containment::lemma_un_rises(v, f, b.lb, t);
    containment::lemma_un_rises(v, f, t, b.ub);
    let u = model::un_tensor(f, t)->Ok_0;
    input_verdicts::lemma_between(v, c.lb, c.ub, u);
    match op {
        UnOpV::ReduceSum(axes) => {
            stacks::lemma_reduce_members(axes, x, t, n, i, y, u);
        },
        UnOpV::ExpandDims(axes) => {
            assert(containment::below(v, x, x));
            containment::lemma_un_rises(v, op, x, x);
            stacks::lemma_expand_members(axes, x, t, n, i, y, u);
        },
        UnOpV::MoveAxis(from, to) => {
            stacks::lemma_move_members(from, to, x, t, n, i, y, u);
        },
        UnOpV::Slice(axis, start, end, step) => {
            stacks::lemma_slice_members(axis, start, end, step, x, t, n, i, y, u);
        },
        UnOpV::Pad(p) => {
            stacks::lemma_pad_members(p, x, t, n, i, y, u);
        },
        _ => {},
    }
    assert(is_block(y, u, n, i));
}

/// A tensor with its elements in another shape.
pub open spec fn relabelled<S>(t: TensorV<S>, s: Seq<usize>) -> TensorV<S> {
    TensorV { shape: s, data: t.data }
}

/// Members under a pooling by windows that hold one member each.
proof fn lemma_pools<S: Scalar>(
    v: spec_fn(S) -> real,
    window: Seq<usize>,
    stride: Seq<usize>,
    average: bool,
    x: TensorV<S>,
    b: BatchV<S>,
    n: usize,
    i: int,
    y: TensorV<S>,
    c: BatchV<S>,
)
    requires
        exact::exact(v),
        sits(v, x, b, n, i),
        window[0] == 1,
        stride[0] == 1,
        model::un_tensor(UnOpV::Pool(window, stride, average), x) == Ok::<TensorV<S>, Fault>(y),
        batched::un_batch(UnOpV::Pool(window, stride, average), b) == Ok::<BatchV<S>, Fault>(c),
    ensures
        sits(v, y, c, n, i),
{
    let t = choose|t: TensorV<S>| #[trigger]
        is_block(x, t, n, i) && containment::inside(v, t, batched::whole(b));
    let op = UnOpV::<S>::Pool(window, stride, average);
    lemma_atop(n, x.shape);
    assert(t.shape.len() == x.shape.len() + 1);
    assert(t.shape.len() == 5);
    let m = batched::merged(t.shape)->Ok_0;
    let (l, f, h) = (relabelled(b.lb, m), relabelled(t, m), relabelled(b.ub, m));
    assert(containment::below(v, l, f)) by {
        assert forall|k: int| 0 <= k < l.data.len() implies v(#[trigger] l.data[k]) <= v(
            f.data[k],
        ) by {
            assert(v(b.lb.data[k]) <= v(t.data[k]));
        }
    }
    assert(containment::below(v, f, h)) by {
        assert forall|k: int| 0 <= k < f.data.len() implies v(#[trigger] f.data[k]) <= v(
            h.data[k],
        ) by {
            assert(v(t.data[k]) <= v(b.ub.data[k]));
        }
    }
    containment::lemma_un_rises(v, op, l, f);
    containment::lemma_un_rises(v, op, f, h);
    let o = model::un_tensor(op, f)->Ok_0;
    let u = relabelled(o, batched::unmerged(t.shape, o.shape));
    assert(batched::pool_batch(t, window, stride, average) == Ok::<TensorV<S>, Fault>(u));
    let (p, q) = (model::un_tensor(op, l)->Ok_0, model::un_tensor(op, h)->Ok_0);
    assert(containment::below(v, c.lb, u)) by {
        assert forall|k: int| 0 <= k < c.lb.data.len() implies v(#[trigger] c.lb.data[k]) <= v(
            u.data[k],
        ) by {
            assert(v(p.data[k]) <= v(o.data[k]));
        }
    }
    assert(containment::below(v, u, c.ub)) by {
        assert forall|k: int| 0 <= k < u.data.len() implies v(#[trigger] u.data[k]) <= v(
            c.ub.data[k],
        ) by {
            assert(v(o.data[k]) <= v(q.data[k]));
        }
    }
    input_verdicts::lemma_between(v, c.lb, c.ub, u);
    stacks::lemma_pool_members(window, stride, average, x, t, n, i, y, u);
}

// ---- broadcasting ----
/// A member of a stack is read where the stack is.
proof fn lemma_source_member(k: int, s: Seq<usize>, t: Seq<usize>, n: usize, i: int)
    requires
        0 <= k < shape::product(s),
        t.len() == s.len(),
        0 <= i < n,
    ensures
        shape::source_index(i * shape::product(s) + k, atop(n, s), atop(n, t)) == (if n == 1 {
            0
        } else {
            i
        }) * shape::product(t) + shape::source_index(k, s, t),
    decreases s.len(),
{
    let (a, b) = (atop(n, s), atop(n, t));
    if s.len() == 0 {
        assert(a =~= seq![n]);
        assert(b =~= seq![n]);
        assert(a.drop_last() =~= Seq::<usize>::empty());
        assert(b.drop_last() =~= Seq::<usize>::empty());
        assert(shape::product(s) == 1 && shape::product(t) == 1);
        assert(k == 0);
        assert(i * 1 + 0 == i) by (nonlinear_arith);
        assert(shape::source_index(i / (n as int), Seq::<usize>::empty(), Seq::<usize>::empty())
            == 0);
        assert(i % (n as int) == i) by (nonlinear_arith)
            requires
                0 <= i < n,
        ;
        assert(0 * (n as int) == 0) by (nonlinear_arith);
        let h: int = if n == 1 {
            0
        } else {
            i
        };
        assert(h * 1 + 0 == h) by (nonlinear_arith);
    } else {
        let (d, e) = (s.last() as int, t.last() as int);
        let (s1, t1) = (s.drop_last(), t.drop_last());
        assert(a.drop_last() =~= atop(n, s1));
        assert(b.drop_last() =~= atop(n, t1));
        manipulate::lemma_row(k, shape::product(s1) as int, d);
        let (k1, r) = (k / d, k % d);
        let (p, q) = (shape::product(s1) as int, shape::product(t1) as int);
        let w = i * p + k1;
        assert(i * (p * d) + (k1 * d + r) == w * d + r) by (nonlinear_arith)
            requires
                w == i * p + k1,
        ;
        assert((w * d + r) / d == w && (w * d + r) % d == r) by (nonlinear_arith)
            requires
                0 <= r < d,
        ;
        lemma_source_member(k1, s1, t1, n, i);
        let h: int = if n == 1 {
            0
        } else {
            i
        };
        let f = shape::source_index(k1, s1, t1);
        assert((h * q + f) * e == h * (q * e) + f * e) by (nonlinear_arith);
    }
}

/// A tensor that is no stack is read at the same place for all members.
proof fn lemma_source_shared(k: int, s: Seq<usize>, t: Seq<usize>, n: usize, i: int)
    requires
        0 <= k < shape::product(s),
        t.len() <= s.len(),
        0 <= i < n,
    ensures
        shape::source_index(i * shape::product(s) + k, atop(n, s), t) == shape::source_index(
            k,
            s,
            t,
        ),
    decreases s.len(),
{
    if t.len() > 0 {
        let a = atop(n, s);
        let d = s.last() as int;
        let (s1, t1) = (s.drop_last(), t.drop_last());
        assert(a.drop_last() =~= atop(n, s1));
        manipulate::lemma_row(k, shape::product(s1) as int, d);
        let (k1, r) = (k / d, k % d);
        let p = shape::product(s1) as int;
        let w = i * p + k1;
        assert(i * (p * d) + (k1 * d + r) == w * d + r) by (nonlinear_arith)
            requires
                w == i * p + k1,
        ;
        assert((w * d + r) / d == w && (w * d + r) % d == r) by (nonlinear_arith)
            requires
                0 <= r < d,
        ;
        lemma_source_shared(k1, s1, t1, n, i);
    }
}

/// The broadcast of two stacks is a stack of broadcasts.
proof fn lemma_broadcast_members(s: Seq<usize>, t: Seq<usize>, n: usize)
    requires
        s.len() == t.len(),
    ensures
        shape::broadcast(atop(n, s), atop(n, t)) == (match shape::broadcast(s, t) {
            Some(o) => Some(atop(n, o)),
            None => None,
        }),
{
    let (a, b) = (atop(n, s), atop(n, t));
    let m = s.len() as int;
    assert forall|j: int| 0 <= j < m implies shape::aligned(a, m + 1, j + 1) == #[trigger]
        shape::aligned(s, m, j) && shape::aligned(b, m + 1, j + 1) == shape::aligned(t, m, j) by {}
    assert(shape::aligned(a, m + 1, 0) == n && shape::aligned(b, m + 1, 0) == n);
    if shape::broadcast(s, t) is Some {
        assert forall|j: int| 0 <= j < m + 1 implies shape::dims_agree(
            #[trigger] shape::aligned(a, m + 1, j),
            shape::aligned(b, m + 1, j),
        ) by {
            if j > 0 {
                assert(shape::dims_agree(shape::aligned(s, m, j - 1), shape::aligned(t, m, j - 1)));
            }
        }
        let o = shape::broadcast(s, t)->Some_0;
        let r = shape::broadcast(a, b)->Some_0;
        assert(r =~= atop(n, o)) by {
            assert forall|j: int| 0 <= j < m + 1 implies #[trigger] r[j] == atop(n, o)[j] by {
                if j > 0 {
                    assert(shape::aligned(a, m + 1, j) == shape::aligned(s, m, j - 1));
                }
            }
        }
    } else {
        let j = choose|j: int|
            0 <= j < m && !shape::dims_agree(
                #[trigger] shape::aligned(s, m, j),
                shape::aligned(t, m, j),
            );
        assert(!shape::dims_agree(
            shape::aligned(a, m + 1, j + 1),
            shape::aligned(b, m + 1, j + 1),
        ));
    }
}

/// The broadcast of a stack and a tensor of no higher rank than its members is a stack of
/// broadcasts.
proof fn lemma_broadcast_shared(s: Seq<usize>, t: Seq<usize>, n: usize)
    requires
        t.len() <= s.len(),
    ensures
        shape::broadcast(atop(n, s), t) == (match shape::broadcast(s, t) {
            Some(o) => Some(atop(n, o)),
            None => None,
        }),
        shape::broadcast(t, atop(n, s)) == (match shape::broadcast(t, s) {
            Some(o) => Some(atop(n, o)),
            None => None,
        }),
{
    let a = atop(n, s);
    let m = s.len() as int;
    assert forall|j: int| 0 <= j < m implies shape::aligned(a, m + 1, j + 1) == #[trigger]
        shape::aligned(s, m, j) && shape::aligned(t, m + 1, j + 1) == shape::aligned(t, m, j) by {}
    assert(shape::aligned(a, m + 1, 0) == n && shape::aligned(t, m + 1, 0) == 1);
    let ok = forall|j: int|
        0 <= j < m ==> shape::dims_agree(
            #[trigger] shape::aligned(s, m, j),
            shape::aligned(t, m, j),
        );
    let ko = forall|j: int|
        0 <= j < m ==> shape::dims_agree(
            #[trigger] shape::aligned(t, m, j),
            shape::aligned(s, m, j),
        );
    assert(ok == ko) by {
        if ok {
            assert forall|j: int| 0 <= j < m implies shape::dims_agree(
                #[trigger] shape::aligned(t, m, j),
                shape::aligned(s, m, j),
            ) by {
                assert(shape::dims_agree(shape::aligned(s, m, j), shape::aligned(t, m, j)));
            }
        } else {
            let j = choose|j: int|
                0 <= j < m && !shape::dims_agree(
                    #[trigger] shape::aligned(s, m, j),
                    shape::aligned(t, m, j),
                );
            assert(!shape::dims_agree(shape::aligned(t, m, j), shape::aligned(s, m, j)));
        }
    }
    if ok {
        assert forall|j: int| 0 <= j < m + 1 implies shape::dims_agree(
            #[trigger] shape::aligned(a, m + 1, j),
            shape::aligned(t, m + 1, j),
        ) by {
            if j > 0 {
                assert(shape::dims_agree(shape::aligned(s, m, j - 1), shape::aligned(t, m, j - 1)));
            }
        }
        assert forall|j: int| 0 <= j < m + 1 implies shape::dims_agree(
            #[trigger] shape::aligned(t, m + 1, j),
            shape::aligned(a, m + 1, j),
        ) by {
            assert(shape::dims_agree(shape::aligned(a, m + 1, j), shape::aligned(t, m + 1, j)));
        }
        let (o, r) = (shape::broadcast(s, t)->Some_0, shape::broadcast(a, t)->Some_0);
        assert(r =~= atop(n, o)) by {
            assert forall|j: int| 0 <= j < m + 1 implies #[trigger] r[j] == atop(n, o)[j] by {
                if j > 0 {
                    assert(shape::aligned(a, m + 1, j) == shape::aligned(s, m, j - 1));
                }
            }
        }
        let (o2, r2) = (shape::broadcast(t, s)->Some_0, shape::broadcast(t, a)->Some_0);
        assert(r2 =~= atop(n, o2)) by {
            assert forall|j: int| 0 <= j < m + 1 implies #[trigger] r2[j] == atop(n, o2)[j] by {
                if j > 0 {
                    assert(shape::aligned(a, m + 1, j) == shape::aligned(s, m, j - 1));
                }
            }
        }
    } else {
        let j = choose|j: int|
            0 <= j < m && !shape::dims_agree(
                #[trigger] shape::aligned(s, m, j),
                shape::aligned(t, m, j),
            );
        assert(!shape::dims_agree(
            shape::aligned(a, m + 1, j + 1),
            shape::aligned(t, m + 1, j + 1),
        ));
        assert(!shape::dims_agree(
            shape::aligned(t, m + 1, j + 1),
            shape::aligned(a, m + 1, j + 1),
        ));
    }
}

/// An operand of a batched operation: a member of a batch, or a constant that all members share
/// and whose rank is no higher than that of the members.
pub open spec fn stands<S: Scalar>(
    v: spec_fn(S) -> real,
    constant: bool,
    x: TensorV<S>,
    b: BatchV<S>,
    n: usize,
    i: int,
) -> bool {
    if constant {
        b == (BatchV { lb: x, ub: x, shared: true }) && reals::full(x)
    } else {
        sits(v, x, b, n, i)
    }
}

/// The tensor that stands for an operand in a batched operation.
proof fn lemma_stack_of<S: Scalar>(
    v: spec_fn(S) -> real,
    constant: bool,
    x: TensorV<S>,
    b: BatchV<S>,
    n: usize,
    i: int,
) -> (t: TensorV<S>)
    requires
        exact::exact(v),
        stands(v, constant, x, b, n, i),
    ensures
        containment::inside(v, t, batched::whole(b)),
        if constant {
            t == x
        } else {
            is_block(x, t, n, i)
        },
{
    if constant {
        assert(containment::below(v, x, x));
        input_verdicts::lemma_between(v, x, x, x);
        x
    } else {
        choose|t: TensorV<S>| #[trigger]
            is_block(x, t, n, i) && containment::inside(v, t, batched::whole(b))
    }
}

/// The ranks of the operands of a sum or product of batches: equal for two batches, no higher for
/// a constant than for the members of the batch it meets.
pub open spec fn ranks_meet(ca: bool, cb: bool, a: nat, b: nat) -> bool {
    &&& !ca || !cb
    &&& !ca && !cb ==> a == b
    &&& ca ==> a <= b
    &&& cb ==> b <= a
}

/// Where an operand of a sum or product of stacks is read.
proof fn lemma_read<S>(
    constant: bool,
    x: TensorV<S>,
    t: TensorV<S>,
    o: Seq<usize>,
    n: usize,
    i: int,
    q: int,
)
    requires
        if constant {
            t == x && reals::full(x) && x.shape.len() <= o.len()
        } else {
            is_block(x, t, n, i) && x.shape.len() == o.len()
        },
        0 <= i < n,
        0 <= q < shape::product(o),
        shape::expands_to(x.shape, o),
    ensures
        x.data[shape::source_index(q, o, x.shape)] == t.data[shape::source_index(
            i * shape::product(o) + q,
            atop(n, o),
            t.shape,
        )],
{
    shape::lemma_source_index(q, o, x.shape);
    if constant {
        lemma_source_shared(q, o, x.shape, n, i);
    } else {
        lemma_source_member(q, o, x.shape, n, i);
        let f = shape::source_index(q, o, x.shape);
        assert(x.data[f] == t.data[i * x.data.len() + f]);
        if n == 1 {
            assert(i * shape::product(x.shape) == 0) by (nonlinear_arith)
                requires
                    i == 0,
            ;
            assert(0 * shape::product(x.shape) == 0) by (nonlinear_arith);
        }
    }
}

/// Members under a sum or a product.
#[verifier::spinoff_prover]
#[verifier::rlimit(50)]
proof fn lemma_combined<S: Scalar>(
    v: spec_fn(S) -> real,
    op: BinOpV,
    ca: bool,
    cb: bool,
    x: TensorV<S>,
    y: TensorV<S>,
    a: BatchV<S>,
    b: BatchV<S>,
    n: usize,
    i: int,
    z: TensorV<S>,
    c: BatchV<S>,
)
    requires
        exact::exact(v),
        op is Add || op is Mul,
        0 <= i < n,
        stands(v, ca, x, a, n, i),
        stands(v, cb, y, b, n, i),
        ranks_meet(ca, cb, x.shape.len(), y.shape.len()),
        model::bin_tensor(op, x, y) == Ok::<TensorV<S>, Fault>(z),
        batched::bin_batch(op, a, b) == Ok::<BatchV<S>, Fault>(c),
    ensures
        sits(v, z, c, n, i),
{
    let t = lemma_stack_of(v, ca, x, a, n, i);
    let u = lemma_stack_of(v, cb, y, b, n, i);
    let o = z.shape;
    if ca {
        lemma_broadcast_shared(y.shape, x.shape, n);
    } else if cb {
        lemma_broadcast_shared(x.shape, y.shape, n);
    } else {
        lemma_broadcast_members(x.shape, y.shape, n);
    }
    assert(shape::broadcast(t.shape, u.shape) == Some(atop(n, o)));
    let (wa, wb) = (batched::whole(a), batched::whole(b));
    assert(wa.lb.shape == t.shape && wb.lb.shape == u.shape);
    let w = model::bin_tensor(op, t, u)->Ok_0;
    containment::lemma_bin_inside(v, op, t, u, wa, wb);
    input_verdicts::lemma_between(v, c.lb, c.ub, w);
    shape::lemma_broadcast_expands(x.shape, y.shape);
    lemma_atop(n, o);
    assert(is_block(z, w, n, i)) by {
        assert forall|q: int| 0 <= q < z.data.len() implies #[trigger] z.data[q] == w.data[i
            * z.data.len() + q] by {
            manipulate::lemma_cell(i, q, n as int, z.data.len() as int);
            lemma_read(ca, x, t, o, n, i, q);
            lemma_read(cb, y, u, o, n, i, q);
        }
    }
}

/// The shapes of a selection by a batch.
proof fn lemma_chosen_shapes(
    cx: bool,
    cy: bool,
    q: Seq<usize>,
    x: Seq<usize>,
    y: Seq<usize>,
    t: Seq<usize>,
    u: Seq<usize>,
    o: Seq<usize>,
    n: usize,
)
    requires
        ranks_meet(false, cx, q.len(), x.len()),
        ranks_meet(false, cy, q.len(), y.len()),
        t == (if cx {
            x
        } else {
            atop(n, x)
        }),
        u == (if cy {
            y
        } else {
            atop(n, y)
        }),
        model::select_shape(q, x, y) == Ok::<Seq<usize>, Fault>(o),
    ensures
        shape::broadcast(atop(n, q), t) matches Some(m) && shape::broadcast(m, u) == Some(
            atop(n, o),
        ),
        o.len() == q.len(),
        shape::expands_to(q, o),
        shape::expands_to(x, o),
        shape::expands_to(y, o),
{
    let m = shape::broadcast(q, x)->Some_0;
    shape::lemma_broadcast_expands(q, x);
    shape::lemma_broadcast_expands(m, y);
    if cx {
        lemma_broadcast_shared(q, x, n);
    } else {
        lemma_broadcast_members(q, x, n);
    }
    if cy {
        lemma_broadcast_shared(m, y, n);
    } else {
        lemma_broadcast_members(m, y, n);
    }
    shape::lemma_expands_trans(q, m, o);
    shape::lemma_expands_trans(x, m, o);
}

/// Members under a selection by a batch.
#[verifier::spinoff_prover]
#[verifier::rlimit(50)]
proof fn lemma_chosen<S: Scalar>(
    v: spec_fn(S) -> real,
    cx: bool,
    cy: bool,
    q: TensorV<S>,
    x: TensorV<S>,
    y: TensorV<S>,
    p: BatchV<S>,
    a: BatchV<S>,
    b: BatchV<S>,
    n: usize,
    i: int,
    z: TensorV<S>,
    c: BatchV<S>,
)
    requires
        exact::exact(v),
        0 <= i < n,
        sits(v, q, p, n, i),
        stands(v, cx, x, a, n, i),
        stands(v, cy, y, b, n, i),
        ranks_meet(false, cx, q.shape.len(), x.shape.len()),
        ranks_meet(false, cy, q.shape.len(), y.shape.len()),
        containment::select_bounded(v, batched::whole(p)),
        model::select_tensor(q, x, y) == Ok::<TensorV<S>, Fault>(z),
        batched::batch_result(
            interval::select_interval(batched::whole(p), batched::whole(a), batched::whole(b)),
        ) == Ok::<BatchV<S>, Fault>(c),
    ensures
        sits(v, z, c, n, i),
{
    let s = lemma_stack_of(v, false, q, p, n, i);
    let t = lemma_stack_of(v, cx, x, a, n, i);
    let u = lemma_stack_of(v, cy, y, b, n, i);
    let o = z.shape;
    lemma_chosen_shapes(cx, cy, q.shape, x.shape, y.shape, t.shape, u.shape, o, n);
    let (wp, wa, wb) = (batched::whole(p), batched::whole(a), batched::whole(b));
    assert(wp.lb.shape == s.shape && wa.lb.shape == t.shape && wb.lb.shape == u.shape);
    let w = model::select_tensor(s, t, u)->Ok_0;
    assert(model::select_tensor(s, t, u) is Ok);
    containment::lemma_select_inside(v, s, t, u, wp, wa, wb);
    input_verdicts::lemma_between(v, c.lb, c.ub, w);
    lemma_atop(n, o);
    assert(is_block(z, w, n, i)) by {
        assert forall|k: int| 0 <= k < z.data.len() implies #[trigger] z.data[k] == w.data[i
            * z.data.len() + k] by {
            manipulate::lemma_cell(i, k, n as int, z.data.len() as int);
            lemma_read(false, q, s, o, n, i, k);
            lemma_read(cx, x, t, o, n, i, k);
            lemma_read(cy, y, u, o, n, i, k);
        }
    }
}

// ---- contractions ----
/// The product of two vectors.
proof fn lemma_vecvec<S: Scalar>(
    v: spec_fn(S) -> real,
    a: TensorV<S>,
    b: TensorV<S>,
    c: TensorV<S>,
)
    requires
        exact::exact(v),
        reals::full(a),
        reals::full(b),
        a.shape.len() == 1,
        b.shape.len() == 1,
        model::bin_tensor(BinOpV::Dot, a, b) == Ok::<TensorV<S>, Fault>(c),
    ensures
        a.shape[0] == b.shape[0],
        c.shape == Seq::<usize>::empty(),
        c.data.len() == 1,
        v(c.data[0]) == sums::sum(|k: int| v(a.data[k]) * v(b.data[k]), a.shape[0] as nat),
{
    let out = c.shape;
    let kk = a.shape[0] as int;
    assert(out =~= Seq::<usize>::empty());
    reals::lemma_bilinear_len(BinOpV::Dot, a, b, out);
    reals::lemma_bilinear(v, BinOpV::Dot, a, b, out, 0);
    assert(0int / 1 == 0 && 0int % 1 == 0) by (nonlinear_arith);
    let f = |k: int|
        v(a.data[reals::left_index(BinOpV::Dot, a.shape, b.shape, out, 0, k)]) * v(
            b.data[reals::right_index(BinOpV::Dot, a.shape, b.shape, out, 0, k)],
        );
    let g = |k: int| v(a.data[k]) * v(b.data[k]);
    assert forall|k: int| 0 <= k < kk implies #[trigger] f(k) == g(k) by {
        assert((0 * kk + k) * 1 + 0 == k) by (nonlinear_arith);
        assert(0 * kk + k == k) by (nonlinear_arith);
    }
    sums::lemma_sum_same(f, g, kk as nat);
}

/// A sum of products, with the factors exchanged.
proof fn lemma_exchanged(f: spec_fn(int) -> real, g: spec_fn(int) -> real, n: nat)
    ensures
        sums::sum(|k: int| f(k) * g(k), n) == sums::sum(|k: int| g(k) * f(k), n),
{
    let (p, q) = (|k: int| f(k) * g(k), |k: int| g(k) * f(k));
    assert forall|k: int| 0 <= k < n implies #[trigger] p(k) == q(k) by {
        exact::lemma_units(f(k), g(k));
    }
    sums::lemma_sum_same(p, q, n);
}

/// The matrix or vector that a stack of vectors is multiplied by, where `w` is multiplied by each
/// of them.
pub open spec fn turned<S: Scalar>(w: TensorV<S>) -> Result<TensorV<S>, Fault> {
    if w.shape.len() == 2 {
        model::un_tensor(UnOpV::MoveAxis(0, 1), w)
    } else {
        Ok(w)
    }
}

/// A stack of vectors times a matrix or vector holds the products of the vectors.
proof fn lemma_rows<S: Scalar>(
    v: spec_fn(S) -> real,
    w: TensorV<S>,
    m: TensorV<S>,
    x: TensorV<S>,
    t: TensorV<S>,
    n: usize,
    i: int,
    y: TensorV<S>,
    u: TensorV<S>,
)
    requires
        exact::exact(v),
        reals::full(w),
        1 <= w.shape.len() <= 2,
        x.shape.len() == 1,
        is_block(x, t, n, i),
        turned(w) == Ok::<TensorV<S>, Fault>(m),
        model::bin_tensor(BinOpV::Dot, w, x) == Ok::<TensorV<S>, Fault>(y),
        model::bin_tensor(BinOpV::Dot, t, m) == Ok::<TensorV<S>, Fault>(u),
    ensures
        reals::full(y),
        u.shape == atop(n, y.shape),
        forall|q: int|
            0 <= q < y.data.len() ==> v(#[trigger] y.data[q]) == v(u.data[i * y.data.len() + q]),
{
    let kk = x.shape[0] as int;
    matrices::lemma_product1(x.shape);
    lemma_atop(n, x.shape);
    assert(t.shape =~= seq![n, x.shape[0]]);
    let row = |k: int| v(t.data[i * t.shape[1] + k]);
    let own = |k: int| v(x.data[k]);
    assert forall|k: int| 0 <= k < kk implies #[trigger] own(k) == row(k) by {
        assert(x.data[k] == t.data[i * x.data.len() + k]);
    }
    if w.shape.len() == 1 {
        assert(m == w);
        matrices::lemma_matvec(v, t, m, u, i);
        lemma_vecvec(v, w, x, y);
        let factor = |k: int| v(w.data[k]);
        lemma_exchanged(factor, own, kk as nat);
        let (f, g) = (|k: int| own(k) * factor(k), |k: int| row(k) * factor(k));
        assert forall|k: int| 0 <= k < kk implies #[trigger] f(k) == g(k) by {
            assert(own(k) == row(k));
        }
        sums::lemma_sum_same(f, g, kk as nat);
        let (h1, h2) = (
            |k: int| v(t.data[i * t.shape[1] + k]) * v(m.data[k]),
            |k: int| v(x.data[k]) * v(w.data[k]),
        );
        sums::lemma_sum_same(g, h1, kk as nat);
        sums::lemma_sum_same(f, h2, kk as nat);
        let h3 = |k: int| v(w.data[k]) * v(x.data[k]);
        let h4 = |k: int| factor(k) * own(k);
        sums::lemma_sum_same(h3, h4, kk as nat);
        assert(u.shape =~= atop(n, y.shape));
        assert(i * 1 + 0 == i) by (nonlinear_arith);
    } else {
        matrices::lemma_transpose(w, m);
        assert(y.shape =~= seq![m.shape[1]]) by {
            assert(w.shape.drop_last() =~= seq![w.shape[0]]);
        }
        assert(u.shape =~= seq![n, m.shape[1]]) by {
            assert(t.shape.drop_last() =~= seq![n]);
            assert(m.shape.subrange(0, 0) =~= Seq::<usize>::empty());
        }
        assert(u.shape =~= atop(n, y.shape));
        matrices::lemma_product1(y.shape);
        reals::lemma_bilinear_len(BinOpV::Dot, w, x, y.shape);
        assert forall|q: int| 0 <= q < y.data.len() implies v(#[trigger] y.data[q]) == v(
            u.data[i * y.data.len() + q],
        ) by {
            matrices::lemma_matmul(v, t, m, u, i, q);
            let f = |k: int| v(t.data[i * t.shape[1] + k]) * v(m.data[k * m.shape[1] + q]);
            matrices::lemma_matvec(v, w, x, y, q);
            let g = |k: int| v(w.data[q * w.shape[1] + k]) * v(x.data[k]);
            assert forall|k: int| 0 <= k < kk implies #[trigger] f(k) == g(k) by {
                assert(own(k) == row(k));
                assert(m.data[k * w.shape[0] + q] == w.data[q * w.shape[1] + k]);
                exact::lemma_units(v(w.data[q * w.shape[1] + k]), v(x.data[k]));
            }
            sums::lemma_sum_same(f, g, kk as nat);
        }
    }
}

/// Turning commutes with what is done to each element.
proof fn lemma_turned_zipped<S: Scalar>(
    w: TensorV<S>,
    f: spec_fn(S, S) -> S,
    a: TensorV<S>,
    b: TensorV<S>,
)
    requires
        reals::full(w),
        w.shape.len() == 2,
        model::un_tensor(UnOpV::MoveAxis(0, 1), w) == Ok::<TensorV<S>, Fault>(a),
        model::un_tensor(UnOpV::MoveAxis(0, 1), interval::zipped(w, w, f)) == Ok::<
            TensorV<S>,
            Fault,
        >(b),
    ensures
        b == interval::zipped(a, a, f),
{
    let z = interval::zipped(w, w, f);
    matrices::lemma_transpose(w, a);
    matrices::lemma_transpose(z, b);
    matrices::lemma_product2(a.shape);
    let c = interval::zipped(a, a, f);
    assert(b.data =~= c.data) by {
        let (p, q) = (w.shape[0] as int, w.shape[1] as int);
        assert forall|r: int| 0 <= r < b.data.len() implies #[trigger] b.data[r] == c.data[r] by {
            manipulate::lemma_row(r, q, p);
            let (j, i) = (r / p, r % p);
            assert(b.data[j * z.shape[0] + i] == z.data[i * z.shape[1] + j]);
            assert(a.data[j * w.shape[0] + i] == w.data[i * w.shape[1] + j]);
            matrices::lemma_product2(w.shape);
            manipulate::lemma_cell(i, j, p, q);
        }
    }
}

/// Weighing by a constant is the contraction with it, turned.
proof fn lemma_weighed<S: Scalar>(
    v: spec_fn(S) -> real,
    a: IBPV<S>,
    w: TensorV<S>,
    m: TensorV<S>,
    c: BatchV<S>,
)
    requires
        exact::exact(v),
        reals::full(w),
        a.lb.shape.len() == 2,
        a.ub.shape.len() == 2,
        1 <= w.shape.len() <= 2,
        turned(w) == Ok::<TensorV<S>, Fault>(m),
        batched::bilinear_batch(Bilinear::Weigh, a, interval::between(w, w)) == Ok::<
            BatchV<S>,
            Fault,
        >(c),
    ensures
        interval::linear_interval(BinOpV::Dot, a, interval::between(m, m)) matches Ok(z)
            && c.lb == z.lb && c.ub == z.ub,
{
    let point = interval::between(w, w);
    assert(interval::all_same(w, w));
    assert(interval::all_same(m, m));
    let mid = |x: S, y: S| x.plus(y).times(crate::scalar::half());
    let rad = |x: S, y: S| x.minus(y).times(crate::scalar::half());
    let mag = |x: S, y: S| x.magnitude();
    assert(interval::magnitudes(w).data =~= interval::zipped(w, w, mag).data);
    assert(interval::magnitudes(m).data =~= interval::zipped(m, m, mag).data);
    if w.shape.len() == 2 {
        let op = UnOpV::<S>::MoveAxis(0, 1);
        lemma_turned_zipped(w, mid, m, model::un_tensor(op, interval::middle(w, w))->Ok_0);
        lemma_turned_zipped(w, rad, m, model::un_tensor(op, interval::radius(w, w))->Ok_0);
        lemma_turned_zipped(w, mag, m, model::un_tensor(op, interval::magnitudes(w))->Ok_0);
    }
}

/// Members under a contraction of a constant matrix or vector with them.
proof fn lemma_contracted<S: Scalar>(
    v: spec_fn(S) -> real,
    w: TensorV<S>,
    x: TensorV<S>,
    b: BatchV<S>,
    n: usize,
    i: int,
    y: TensorV<S>,
    c: BatchV<S>,
)
    requires
        exact::exact(v),
        0 <= i < n,
        reals::full(w),
        1 <= w.shape.len() <= 2,
        x.shape.len() == 1,
        sits(v, x, b, n, i),
        model::bin_tensor(BinOpV::Dot, w, x) == Ok::<TensorV<S>, Fault>(y),
        batched::bin_batch(BinOpV::Dot, BatchV { lb: w, ub: w, shared: true }, b) == Ok::<BatchV<S>, Fault>(c),
    ensures
        sits(v, y, c, n, i),
{
    let t = choose|t: TensorV<S>| #[trigger]
        is_block(x, t, n, i) && containment::inside(v, t, batched::whole(b));
    let a = batched::whole(b);
    lemma_atop(n, x.shape);
    assert(t.shape =~= seq![n, x.shape[0]]);
    assert(interval::all_same(w, w));
    let m = turned(w)->Ok_0;
    assert(turned(w) is Ok);
    lemma_weighed(v, a, w, m, c);
    let p = interval::between(m, m);
    assert(interval::all_same(m, m));
    let z = interval::linear_interval(BinOpV::Dot, a, p)->Ok_0;
    assert(interval::linear_interval(BinOpV::Dot, a, p) is Ok);
    let u = model::bin_tensor(BinOpV::Dot, t, m)->Ok_0;
    assert(model::bin_tensor(BinOpV::Dot, t, m) is Ok);
    assert(reals::full(m)) by {
        if w.shape.len() == 2 {
            matrices::lemma_transpose(w, m);
        }
    }
    assert(containment::below(v, m, m));
    input_verdicts::lemma_between(v, m, m, m);
    containment::lemma_bin_inside(v, BinOpV::Dot, t, m, a, p);
    input_verdicts::lemma_between(v, c.lb, c.ub, u);
    lemma_rows(v, w, m, x, t, n, i, y, u);
    lemma_settle(v, y, u, c, n, i);
}

/// Members under a contraction with a constant on the right.
proof fn lemma_contracted_rows<S: Scalar>(
    v: spec_fn(S) -> real,
    w: TensorV<S>,
    x: TensorV<S>,
    b: BatchV<S>,
    n: usize,
    i: int,
    y: TensorV<S>,
    c: BatchV<S>,
)
    requires
        exact::exact(v),
        reals::full(w),
        1 <= w.shape.len(),
        1 <= x.shape.len(),
        sits(v, x, b, n, i),
        model::bin_tensor(BinOpV::Dot, x, w) == Ok::<TensorV<S>, Fault>(y),
        batched::bin_batch(BinOpV::Dot, b, BatchV { lb: w, ub: w, shared: true }) == Ok::<BatchV<S>, Fault>(c),
    ensures
        sits(v, y, c, n, i),
{
    let t = choose|t: TensorV<S>| #[trigger]
        is_block(x, t, n, i) && containment::inside(v, t, batched::whole(b));
    let a = batched::whole(b);
    assert(interval::all_same(w, w));
    let p = interval::between(w, w);
    assert(containment::below(v, w, w));
    input_verdicts::lemma_between(v, w, w, w);
    let u = model::bin_tensor(BinOpV::Dot, t, w)->Ok_0;
    assert(model::bin_tensor(BinOpV::Dot, t, w) is Ok);
    containment::lemma_bin_inside(v, BinOpV::Dot, t, w, a, p);
    input_verdicts::lemma_between(v, c.lb, c.ub, u);
    stacks::lemma_dot_members(w, x, t, n, i, y, u);
}

/// The bounds of a batched convolution by a constant are those of the members laid side by side.
#[verifier::rlimit(40)]
proof fn lemma_convolved_bounds<S: Scalar>(
    stride: isize,
    k: TensorV<S>,
    b: BatchV<S>,
    m: Seq<usize>,
    c: BatchV<S>,
)
    requires
        b.lb.shape == b.ub.shape,
        b.lb.data.len() == b.ub.data.len(),
        b.lb.shape.len() == 5,
        batched::merged(b.lb.shape) == Ok::<Seq<usize>, Fault>(m),
        interval::all_same(k, k),
        batched::bilinear_batch(
            Bilinear::Conv(stride),
            batched::whole(b),
            interval::between(k, k),
        ) == Ok::<BatchV<S>, Fault>(c),
    ensures
        ({
            let a = batched::whole(b);
            let f = IBPV { lb: relabelled(a.lb, m), ub: relabelled(a.ub, m), is_point: a.is_point };
            match interval::linear_interval(BinOpV::Conv(stride), f, interval::between(k, k)) {
                Ok(z) => {
                    &&& c.lb == relabelled(z.lb, batched::unmerged(b.lb.shape, z.lb.shape))
                    &&& c.ub == relabelled(z.ub, batched::unmerged(b.lb.shape, z.lb.shape))
                    &&& shape::fits(m)
                    &&& b.lb.data.len() == shape::product(m)
                    &&& shape::fits(batched::unmerged(b.lb.shape, z.lb.shape))
                },
                Err(_) => false,
            }
        }),
{
    let a = batched::whole(b);
    let f = IBPV { lb: relabelled(a.lb, m), ub: relabelled(a.ub, m), is_point: a.is_point };
    let p = interval::between(k, k);
    let op = BinOpV::Conv(stride);
    if a.is_point {
        assert(relabelled(interval::magnitudes(a.lb), m).data =~= interval::magnitudes(f.lb).data);
        assert(relabelled(interval::magnitudes(a.lb), m) == interval::magnitudes(f.lb));
    } else {
        assert(relabelled(interval::middle(a.lb, a.ub), m).data =~= interval::middle(
            f.lb,
            f.ub,
        ).data);
        assert(relabelled(interval::middle(a.lb, a.ub), m) == interval::middle(f.lb, f.ub));
        assert(relabelled(interval::radius(a.ub, a.lb), m).data =~= interval::radius(
            f.ub,
            f.lb,
        ).data);
        assert(relabelled(interval::radius(a.ub, a.lb), m) == interval::radius(f.ub, f.lb));
    }
    let z = interval::linear_interval(op, f, p)->Ok_0;
    assert(interval::linear_interval(op, f, p) is Ok);
    assert(c.lb.data =~= z.lb.data);
    assert(c.ub.data =~= z.ub.data);
}

/// Members under a convolution by a constant kernel.
proof fn lemma_convolved<S: Scalar>(
    v: spec_fn(S) -> real,
    stride: isize,
    k: TensorV<S>,
    x: TensorV<S>,
    b: BatchV<S>,
    n: usize,
    i: int,
    y: TensorV<S>,
    c: BatchV<S>,
)
    requires
        exact::exact(v),
        reals::full(k),
        sits(v, x, b, n, i),
        model::bin_tensor(BinOpV::Conv(stride), x, k) == Ok::<TensorV<S>, Fault>(y),
        batched::bin_batch(BinOpV::Conv(stride), b, BatchV { lb: k, ub: k, shared: true }) == Ok::<
            BatchV<S>,
            Fault,
        >(c),
    ensures
        sits(v, y, c, n, i),
{
    let t = choose|t: TensorV<S>| #[trigger]
        is_block(x, t, n, i) && containment::inside(v, t, batched::whole(b));
    let a = batched::whole(b);
    let op = BinOpV::Conv(stride);
    lemma_atop(n, x.shape);
    assert(x.shape.len() == 4);
    assert(t.shape.len() == 5);
    assert(interval::all_same(k, k));
    let p = interval::between(k, k);
    let m = batched::merged(t.shape)->Ok_0;
    assert(batched::merged(t.shape) is Ok);
    lemma_convolved_bounds(stride, k, b, m, c);
    let f = IBPV { lb: relabelled(a.lb, m), ub: relabelled(a.ub, m), is_point: a.is_point };
    let flat = relabelled(t, m);
    assert(containment::inside(v, flat, f)) by {
        assert forall|q: int| 0 <= q < f.lb.data.len() implies v(#[trigger] f.lb.data[q]) <= v(
            flat.data[q],
        ) by {
            assert(v(a.lb.data[q]) <= v(t.data[q]));
        }
        assert forall|q: int| 0 <= q < flat.data.len() implies v(#[trigger] flat.data[q]) <= v(
            f.ub.data[q],
        ) by {
            assert(v(t.data[q]) <= v(a.ub.data[q]));
        }
        if a.is_point {
            assert forall|q: int| 0 <= q < f.ub.data.len() implies v(#[trigger] f.ub.data[q]) <= v(
                f.lb.data[q],
            ) by {
                assert(v(a.ub.data[q]) <= v(a.lb.data[q]));
            }
        }
    }
    assert(containment::below(v, k, k));
    input_verdicts::lemma_between(v, k, k, k);
    let z = interval::linear_interval(op, f, p)->Ok_0;
    let o = model::bin_tensor(op, flat, k)->Ok_0;
    assert(model::bin_tensor(op, flat, k) is Ok);
    containment::lemma_bin_inside(v, op, flat, k, f, p);
    let u = relabelled(o, batched::unmerged(t.shape, o.shape));
    lemma_atop(n, y.shape);
    assert(u.shape =~= atop(n, y.shape));
    linalg::lemma_product4(o.shape);
    linalg::lemma_product4(y.shape);
    let (s0, o1, o2, o3) = (x.shape[0] as int, y.shape[1] as int, y.shape[2] as int, y.shape[3] as int);
    assert(n * (s0 * o1 * o2 * o3) == (n * s0) * o1 * o2 * o3) by (nonlinear_arith);
    assert(reals::full(u));
    assert(batched::conv_batch(t, k, stride) == Ok::<TensorV<S>, Fault>(u));
    assert(containment::below(v, c.lb, u)) by {
        assert forall|q: int| 0 <= q < c.lb.data.len() implies v(#[trigger] c.lb.data[q]) <= v(
            u.data[q],
        ) by {
            assert(v(z.lb.data[q]) <= v(o.data[q]));
        }
    }
    assert(containment::below(v, u, c.ub)) by {
        assert forall|q: int| 0 <= q < u.data.len() implies v(#[trigger] u.data[q]) <= v(
            c.ub.data[q],
        ) by {
            assert(v(o.data[q]) <= v(z.ub.data[q]));
        }
    }
    input_verdicts::lemma_between(v, c.lb, c.ub, u);
    stacks::lemma_conv_members(stride, k, x, t, n, i, y, u);
}

// ---- whole graphs ----
/// Whether the variables of an environment are member number `i` of those of another.
pub open spec fn tied<S: Scalar>(
    v: spec_fn(S) -> real,
    e: Map<Seq<char>, TensorV<S>>,
    b: Map<Seq<char>, BatchV<S>>,
    n: usize,
    i: int,
) -> bool {
    &&& e.dom() == b.dom()
    &&& forall|x: Seq<char>| #[trigger] e.dom().contains(x) ==> sits(v, e[x], b[x], n, i)
}

/// Whether an operation on one batch acts on its members as on single tensors, with bounds that
/// hold. Padded axes must exist, and the windows of a pooling may not reach over members.
pub open spec fn unary_acts<S: Scalar>(v: spec_fn(S) -> real, op: UnOpV<S>, b: BatchV<S>) -> bool {
    match op {
        UnOpV::Reshape(_) => b.lb.shape[0] <= isize::MAX,
        UnOpV::ReduceSum(_) | UnOpV::ExpandDims(_) | UnOpV::MoveAxis(_, _) => true,
        UnOpV::Slice(_, _, _, _) => true,
        UnOpV::Pad(p) => model::axes_ok(p.axes, b.lb.shape.len() - 1),
        UnOpV::Pool(window, stride, _) => window[0] == 1 && stride[0] == 1,
        _ => model::is_pointwise(op) && containment::un_bounded(v, op, batched::whole(b)),
    }
}

/// The rank of the members of a batch, or of a constant.
pub open spec fn member_rank<S>(a: AtomV<S>, b: BatchV<S>) -> nat {
    if a.value is Some {
        b.lb.shape.len()
    } else {
        (b.lb.shape.len() - 1) as nat
    }
}

/// Whether an operation on two batches acts on their members as on single tensors, with bounds
/// that hold: a sum or product whose ranks meet, a contraction of a constant with vectors or of
/// members with a constant, or a convolution by one.
pub open spec fn binary_acts<S: Scalar>(
    op: BinOpV,
    a: AtomV<S>,
    c: AtomV<S>,
    x: BatchV<S>,
    y: BatchV<S>,
) -> bool {
    match op {
        BinOpV::Add | BinOpV::Mul => ranks_meet(
            a.value is Some,
            c.value is Some,
            member_rank(a, x),
            member_rank(c, y),
        ),
        BinOpV::Dot => if a.value is Some {
            c.value is None && member_rank(c, y) == 1 && 1 <= member_rank(a, x) <= 2
        } else {
            c.value is Some && 1 <= member_rank(a, x) && 1 <= member_rank(c, y)
        },
        BinOpV::Conv(_) => a.value is None && c.value is Some,
        _ => false,
    }
}

/// Whether an operation acts on the members of the batches of an environment as on single
/// tensors, with bounds that hold.
pub open spec fn prim_acts<S: Scalar>(
    v: spec_fn(S) -> real,
    b: Map<Seq<char>, BatchV<S>>,
    p: PrimV<S>,
) -> bool {
    match p {
        PrimV::Un(op, a) => a.value is None && unary_acts(v, op, b[a.name]),
        PrimV::Bin(op, a, c) => match (
            env::resolved::<S, IBPBatchedTensor<S>>(b, a),
            env::resolved::<S, IBPBatchedTensor<S>>(b, c),
        ) {
            (Ok(x), Ok(y)) => binary_acts(op, a, c, x, y),
            _ => true,
        },
        PrimV::Select(q, a, c) => match (
            env::resolved::<S, IBPBatchedTensor<S>>(b, q),
            env::resolved::<S, IBPBatchedTensor<S>>(b, a),
            env::resolved::<S, IBPBatchedTensor<S>>(b, c),
        ) {
            (Ok(p), Ok(x), Ok(y)) => {
                &&& q.value is None
                &&& ranks_meet(false, a.value is Some, member_rank(q, p), member_rank(a, x))
                &&& ranks_meet(false, c.value is Some, member_rank(q, p), member_rank(c, y))
                &&& containment::select_bounded(v, batched::whole(p))
            },
            _ => true,
        },
    }
}

/// Whether all operations from equation `k` on act on members as on single tensors, with bounds
/// that hold.
pub open spec fn all_act<S: Scalar>(
    v: spec_fn(S) -> real,
    eqns: Seq<EqnV<S>>,
    b: Map<Seq<char>, BatchV<S>>,
    k: nat,
) -> bool
    decreases eqns.len() - k,
{
    k >= eqns.len() || {
        &&& prim_acts(v, b, eqns[k as int].prim)
        &&& eval::prim_value::<S, IBPBatchedTensor<S>>((), b, eqns[k as int].prim).1 matches Ok(x)
            ==> all_act(v, eqns, b.insert(eqns[k as int].out.name, x), k + 1)
    }
}

/// The ranks of a member and of its batch.
proof fn lemma_rank<S: Scalar>(
    v: spec_fn(S) -> real,
    x: TensorV<S>,
    b: BatchV<S>,
    n: usize,
    i: int,
)
    requires
        sits(v, x, b, n, i),
    ensures
        b.lb.shape == atop(n, x.shape),
        b.lb.shape.len() == x.shape.len() + 1,
        b.lb.shape[0] == n,
        0 <= i < n,
{
    let t = choose|t: TensorV<S>| #[trigger]
        is_block(x, t, n, i) && containment::inside(v, t, batched::whole(b));
}

/// Members under an operation on one operand.
#[verifier::spinoff_prover]
#[verifier::rlimit(50)]
proof fn lemma_unary_sits<S: Scalar>(
    v: spec_fn(S) -> real,
    e: Map<Seq<char>, TensorV<S>>,
    b: Map<Seq<char>, BatchV<S>>,
    p: PrimV<S>,
    op: UnOpV<S>,
    a: AtomV<S>,
    n: usize,
    i: int,
)
    requires
        exact::exact(v),
        0 <= i < n,
        tied(v, e, b, n, i),
        containment::solid(p),
        prim_acts(v, b, p),
        p == PrimV::Un(op, a),
        eval::prim_value::<S, Tensor<S>>((), e, p).1 is Ok,
        eval::prim_value::<S, IBPBatchedTensor<S>>((), b, p).1 is Ok,
    ensures
        sits(
            v,
            eval::prim_value::<S, Tensor<S>>((), e, p).1->Ok_0,
            eval::prim_value::<S, IBPBatchedTensor<S>>((), b, p).1->Ok_0,
            n,
            i,
        ),
{
    let z = eval::prim_value::<S, Tensor<S>>((), e, p).1->Ok_0;
    let c = eval::prim_value::<S, IBPBatchedTensor<S>>((), b, p).1->Ok_0;
    let (x, y) = (e[a.name], b[a.name]);
    assert(sits(v, x, y, n, i));
    lemma_rank(v, x, y, n, i);
    match op {
        UnOpV::Reshape(d) => {
            lemma_reshape(v, d, x, y, n, i, z, c);
        },
        UnOpV::ReduceSum(_)
        | UnOpV::ExpandDims(_)
        | UnOpV::MoveAxis(_, _)
        | UnOpV::Slice(_, _, _, _)
        | UnOpV::Pad(_) => {
            lemma_moves(v, op, x, y, n, i, z, c);
        },
        UnOpV::Pool(window, stride, average) => {
            lemma_pools(v, window, stride, average, x, y, n, i, z, c);
        },
        _ => {
            lemma_elementwise(v, op, x, y, n, i, z, c);
        },
    }
}

/// Members under an operation on two operands.
#[verifier::spinoff_prover]
#[verifier::rlimit(50)]
proof fn lemma_binary_sits<S: Scalar>(
    v: spec_fn(S) -> real,
    e: Map<Seq<char>, TensorV<S>>,
    b: Map<Seq<char>, BatchV<S>>,
    p: PrimV<S>,
    op: BinOpV,
    a1: AtomV<S>,
    a2: AtomV<S>,
    n: usize,
    i: int,
)
    requires
        exact::exact(v),
        0 <= i < n,
        tied(v, e, b, n, i),
        containment::solid(p),
        prim_acts(v, b, p),
        p == PrimV::Bin(op, a1, a2),
        eval::prim_value::<S, Tensor<S>>((), e, p).1 is Ok,
        eval::prim_value::<S, IBPBatchedTensor<S>>((), b, p).1 is Ok,
    ensures
        sits(
            v,
            eval::prim_value::<S, Tensor<S>>((), e, p).1->Ok_0,
            eval::prim_value::<S, IBPBatchedTensor<S>>((), b, p).1->Ok_0,
            n,
            i,
        ),
{
    let z = eval::prim_value::<S, Tensor<S>>((), e, p).1->Ok_0;
    let c = eval::prim_value::<S, IBPBatchedTensor<S>>((), b, p).1->Ok_0;
    assert(nn::operands_of(p)[0] == a1 && nn::operands_of(p)[1] == a2);
    let x = env::resolved::<S, Tensor<S>>(e, a1)->Ok_0;
    let y = env::resolved::<S, Tensor<S>>(e, a2)->Ok_0;
    let s = env::resolved::<S, IBPBatchedTensor<S>>(b, a1)->Ok_0;
    let t = env::resolved::<S, IBPBatchedTensor<S>>(b, a2)->Ok_0;
    if a1.value is None {
        assert(e.dom().contains(a1.name));
        lemma_rank(v, x, s, n, i);
    }
    if a2.value is None {
        assert(e.dom().contains(a2.name));
        lemma_rank(v, y, t, n, i);
    }
    if let BinOpV::Conv(stride) = op {
        lemma_convolved(v, stride, y, x, s, n, i, z, c);
    } else if op is Dot {
        if a1.value is Some {
            lemma_contracted(v, x, y, t, n, i, z, c);
        } else {
            lemma_contracted_rows(v, y, x, s, n, i, z, c);
        }
    } else {
        lemma_combined(
            v,
            op,
            a1.value is Some,
            a2.value is Some,
            x,
            y,
            s,
            t,
            n,
            i,
            z,
            c,
        );
    }
}

/// Members under a selection.
#[verifier::spinoff_prover]
#[verifier::rlimit(50)]
proof fn lemma_select_sits<S: Scalar>(
    v: spec_fn(S) -> real,
    e: Map<Seq<char>, TensorV<S>>,
    b: Map<Seq<char>, BatchV<S>>,
    p: PrimV<S>,
    a0: AtomV<S>,
    a1: AtomV<S>,
    a2: AtomV<S>,
    n: usize,
    i: int,
)
    requires
        exact::exact(v),
        0 <= i < n,
        tied(v, e, b, n, i),
        containment::solid(p),
        prim_acts(v, b, p),
        p == PrimV::Select(a0, a1, a2),
        eval::prim_value::<S, Tensor<S>>((), e, p).1 is Ok,
        eval::prim_value::<S, IBPBatchedTensor<S>>((), b, p).1 is Ok,
    ensures
        sits(
            v,
            eval::prim_value::<S, Tensor<S>>((), e, p).1->Ok_0,
            eval::prim_value::<S, IBPBatchedTensor<S>>((), b, p).1->Ok_0,
            n,
            i,
        ),
{
    let z = eval::prim_value::<S, Tensor<S>>((), e, p).1->Ok_0;
    let c = eval::prim_value::<S, IBPBatchedTensor<S>>((), b, p).1->Ok_0;
    assert(nn::operands_of(p)[0] == a0 && nn::operands_of(p)[1] == a1
        && nn::operands_of(p)[2] == a2);
    let q = env::resolved::<S, Tensor<S>>(e, a0)->Ok_0;
    let x = env::resolved::<S, Tensor<S>>(e, a1)->Ok_0;
    let y = env::resolved::<S, Tensor<S>>(e, a2)->Ok_0;
    let r = env::resolved::<S, IBPBatchedTensor<S>>(b, a0)->Ok_0;
    let s = env::resolved::<S, IBPBatchedTensor<S>>(b, a1)->Ok_0;
    let t = env::resolved::<S, IBPBatchedTensor<S>>(b, a2)->Ok_0;
    assert(e.dom().contains(a0.name));
    lemma_rank(v, q, r, n, i);
    if a1.value is None {
        assert(e.dom().contains(a1.name));
        lemma_rank(v, x, s, n, i);
    }
    if a2.value is None {
        assert(e.dom().contains(a2.name));
        lemma_rank(v, y, t, n, i);
    }
    lemma_chosen(
        v,
        a1.value is Some,
        a2.value is Some,
        q,
        x,
        y,
        r,
        s,
        t,
        n,
        i,
        z,
        c,
    );
}

/// Members under one operation.
proof fn lemma_prim_sits<S: Scalar>(
    v: spec_fn(S) -> real,
    e: Map<Seq<char>, TensorV<S>>,
    b: Map<Seq<char>, BatchV<S>>,
    p: PrimV<S>,
    n: usize,
    i: int,
)
    requires
        exact::exact(v),
        0 <= i < n,
        tied(v, e, b, n, i),
        containment::solid(p),
        prim_acts(v, b, p),
        eval::prim_value::<S, Tensor<S>>((), e, p).1 is Ok,
        eval::prim_value::<S, IBPBatchedTensor<S>>((), b, p).1 is Ok,
    ensures
        sits(
            v,
            eval::prim_value::<S, Tensor<S>>((), e, p).1->Ok_0,
            eval::prim_value::<S, IBPBatchedTensor<S>>((), b, p).1->Ok_0,
            n,
            i,
        ),
{
    match p {
        PrimV::Un(op, a) => {
            lemma_unary_sits(v, e, b, p, op, a, n, i);
        },
        PrimV::Bin(op, a1, a2) => {
            lemma_binary_sits(v, e, b, p, op, a1, a2, n, i);
        },
        PrimV::Select(a0, a1, a2) => {
            lemma_select_sits(v, e, b, p, a0, a1, a2, n, i);
        },
    }
}

/// Members under all operations from equation `k` on.
proof fn lemma_forward_tied<S: Scalar>(
    v: spec_fn(S) -> real,
    eqns: Seq<EqnV<S>>,
    e: Map<Seq<char>, TensorV<S>>,
    b: Map<Seq<char>, BatchV<S>>,
    k: nat,
    n: usize,
    i: int,
)
    requires
        exact::exact(v),
        0 <= i < n,
        tied(v, e, b, n, i),
        forall|j: int| 0 <= j < eqns.len() ==> containment::solid((#[trigger] eqns[j]).prim),
        all_act(v, eqns, b, k),
        eval::forward::<S, Tensor<S>>((), eqns, e, k).1 is Ok,
        eval::forward::<S, IBPBatchedTensor<S>>((), eqns, b, k).1 is Ok,
    ensures
        tied(
            v,
            eval::forward::<S, Tensor<S>>((), eqns, e, k).1->Ok_0,
            eval::forward::<S, IBPBatchedTensor<S>>((), eqns, b, k).1->Ok_0,
            n,
            i,
        ),
    decreases eqns.len() - k,
{
    if k < eqns.len() {
        let eqn = eqns[k as int];
        lemma_prim_sits(v, e, b, eqn.prim, n, i);
        let y = eval::prim_value::<S, Tensor<S>>((), e, eqn.prim).1->Ok_0;
        let c = eval::prim_value::<S, IBPBatchedTensor<S>>((), b, eqn.prim).1->Ok_0;
        let (e2, b2) = (e.insert(eqn.out.name, y), b.insert(eqn.out.name, c));
        assert(e2.dom() =~= b2.dom());
        lemma_forward_tied(v, eqns, e2, b2, k + 1, n, i);
    }
}

/// The environments that give variables their values are tied where the values are.
proof fn lemma_bound_tied<S: Scalar>(
    v: spec_fn(S) -> real,
    vars: Seq<AtomV<S>>,
    xs: Seq<TensorV<S>>,
    bs: Seq<BatchV<S>>,
    k: nat,
    n: usize,
    i: int,
)
    requires
        k <= xs.len(),
        xs.len() == bs.len(),
        forall|j: int| 0 <= j < xs.len() ==> sits(v, #[trigger] xs[j], bs[j], n, i),
    ensures
        tied(v, eval::bound(vars, xs, k), eval::bound(vars, bs, k), n, i),
    decreases k,
{
    if k > 0 {
        lemma_bound_tied(v, vars, xs, bs, (k - 1) as nat, n, i);
        assert(sits(v, xs[k - 1], bs[k - 1], n, i));
        let (e, b) = (eval::bound(vars, xs, k), eval::bound(vars, bs, k));
        assert(e.dom() =~= b.dom());
    } else {
        let (e, b) = (eval::bound(vars, xs, k), eval::bound(vars, bs, k));
        assert(e.dom() =~= b.dom());
    }
}

/// The outputs of tied environments are tied.
proof fn lemma_gathered_tied<S: Scalar>(
    v: spec_fn(S) -> real,
    vars: Seq<AtomV<S>>,
    e: Map<Seq<char>, TensorV<S>>,
    b: Map<Seq<char>, BatchV<S>>,
    k: nat,
    n: usize,
    i: int,
)
    requires
        k <= vars.len(),
        tied(v, e, b, n, i),
        eval::gathered(vars, e, k) is Ok,
        eval::gathered(vars, b, k) is Ok,
    ensures
        ({
            let (ys, cs) = (eval::gathered(vars, e, k)->Ok_0, eval::gathered(vars, b, k)->Ok_0);
            &&& ys.len() == k
            &&& cs.len() == k
            &&& forall|j: int| 0 <= j < k ==> sits(v, #[trigger] ys[j], cs[j], n, i)
        }),
    decreases k,
{
    if k > 0 {
        lemma_gathered_tied(v, vars, e, b, (k - 1) as nat, n, i);
        assert(e.dom().contains(vars[k - 1].name));
    }
}

/// The inputs of a batched evaluation.
proof fn lemma_batches<S: Scalar>(picked: Seq<BoxV<S>>, k: nat)
    requires
        input_splitting::batches(picked, k) is Ok,
    ensures
        input_splitting::batches(picked, k)->Ok_0.len() == k,
        forall|j: int|
            0 <= j < k ==> batched::batch_from(input_splitting::position(picked, j)) == Ok::<
                BatchV<S>,
                Fault,
            >(#[trigger] input_splitting::batches(picked, k)->Ok_0[j]),
    decreases k,
{
    if k > 0 {
        lemma_batches(picked, (k - 1) as nat);
    }
}

/// A tensor in one of some intervals that are not empty sits in their batch.
proof fn lemma_stacked_sits<S: Scalar>(
    v: spec_fn(S) -> real,
    boxes: Seq<IBPV<S>>,
    b: BatchV<S>,
    i: int,
    x: TensorV<S>,
)
    requires
        exact::exact(v),
        0 <= i < boxes.len() <= usize::MAX,
        forall|j: int|
            0 <= j < boxes.len() ==> containment::inside(v, boxes[j].ub, #[trigger] boxes[j]),
        containment::inside(v, x, boxes[i]),
        batched::batch_from(boxes) == Ok::<BatchV<S>, Fault>(b),
    ensures
        sits(v, x, b, boxes.len() as usize, i),
{
    let n = boxes.len() as usize;
    let (lows, highs) = (batched::lows(boxes), batched::highs(boxes));
    let s = lows[0].shape;
    assert(lows[0] == boxes[0].lb && highs[0] == boxes[0].ub);
    assert(containment::inside(v, boxes[0].ub, boxes[0]));
    assert(lows[i].shape == s);
    let m = shape::product(s) as int;
    lemma_atop(n, s);
    let t = TensorV {
        shape: atop(n, s),
        data: Seq::new(
            shape::product(atop(n, s)),
            |r: int|
                if r / m == i {
                    x.data[r % m]
                } else {
                    highs[r / m].data[r % m]
                },
        ),
    };
    assert forall|r: int| 0 <= r < t.data.len() implies v(b.lb.data[r]) <= v(#[trigger] t.data[r])
        && v(t.data[r]) <= v(b.ub.data[r]) by {
        manipulate::lemma_row(r, n as int, m);
        let (j, q) = (r / m, r % m);
        let c = boxes[j];
        assert(containment::inside(v, boxes[j].ub, boxes[j]));
        assert(lows[j] == c.lb && highs[j] == c.ub);
        assert(lows[j].shape == s);
        assert(v(c.lb.data[q]) <= v(c.ub.data[q]));
        if j == i {
            assert(v(c.lb.data[q]) <= v(x.data[q]));
            assert(v(x.data[q]) <= v(c.ub.data[q]));
        }
    }
    assert(containment::below(v, b.lb, t)) by {
        assert forall|r: int| 0 <= r < b.lb.data.len() implies v(#[trigger] b.lb.data[r]) <= v(
            t.data[r],
        ) by {
            assert(v(t.data[r]) <= v(b.ub.data[r]));
        }
    }
    assert(containment::below(v, t, b.ub));
    input_verdicts::lemma_between(v, b.lb, b.ub, t);
    assert(is_block(x, t, n, i)) by {
        assert forall|q: int| 0 <= q < x.data.len() implies #[trigger] x.data[q] == t.data[i
            * x.data.len() + q] by {
            manipulate::lemma_cell(i, q, n as int, m);
        }
    }
}

/// What sits in a batch lies in the member of the batch.
proof fn lemma_member_holds<S: Scalar>(
    v: spec_fn(S) -> real,
    x: TensorV<S>,
    b: BatchV<S>,
    n: usize,
    i: int,
)
    requires
        exact::exact(v),
        sits(v, x, b, n, i),
    ensures
        containment::inside(v, x, batched::member(b, i)),
{
    let t = choose|t: TensorV<S>| #[trigger]
        is_block(x, t, n, i) && containment::inside(v, t, batched::whole(b));
    let m = x.data.len() as int;
    lemma_atop(n, x.shape);
    let (l, u) = (model::indexed(b.lb, 0, i), model::indexed(b.ub, 0, i));
    assert(t.shape.subrange(1, t.shape.len() as int) =~= x.shape);
    assert forall|q: int| 0 <= q < m implies v(#[trigger] l.data[q]) <= v(x.data[q]) && v(
        x.data[q],
    ) <= v(u.data[q]) by {
        assert(q / m == 0 && q % m == q) by (nonlinear_arith)
            requires
                0 <= q < m,
        ;
        assert((0 * n + i) * m + q == i * m + q) by (nonlinear_arith);
        lemma_in_block(x, t, n, i, q);
        assert(x.data[q] == t.data[i * x.data.len() + q]);
        assert(v(b.lb.data[i * m + q]) <= v(t.data[i * m + q]));
        assert(v(t.data[i * m + q]) <= v(b.ub.data[i * m + q]));
    }
    assert(containment::below(v, x, u)) by {
        assert forall|q: int| 0 <= q < x.data.len() implies v(#[trigger] x.data[q]) <= v(
            u.data[q],
        ) by {
            assert(v(l.data[q]) <= v(x.data[q]));
        }
    }
    input_verdicts::lemma_between(v, l, u, x);
}

/// Whether the operations of a graph act on the members of all batches of boxes in `root` as on
/// single tensors, with bounds that hold.
pub open spec fn graph_acts<S: Scalar>(
    v: spec_fn(S) -> real,
    g: GraphV<S>,
    root: Seq<IBPV<S>>,
) -> bool {
    &&& g.invars.len() == root.len()
    &&& forall|j: int| 0 <= j < g.equations.len() ==> containment::solid((#[trigger] g.equations[j]).prim)
    &&& forall|picked: Seq<BoxV<S>>|
        input_verdicts::all_nested(v, picked, root) && input_splitting::all_of_length(
            picked,
            root.len(),
        ) ==> (#[trigger] input_splitting::batches(picked, root.len()) matches Ok(b) ==> all_act(
            v,
            g.equations,
            eval::bound(g.invars, b, root.len()),
            0,
        ))
}

/// Batched interval propagation is sound in exact arithmetic: the outputs on inputs in box number
/// `i` lie in member number `i` of the propagated batches.
pub proof fn lemma_batches_hold<S: Scalar>(
    v: spec_fn(S) -> real,
    g: GraphV<S>,
    root: Seq<IBPV<S>>,
)
    requires
        exact::exact(v),
        graph_acts(v, g, root),
    ensures
        input_verdicts::batches_hold(v, g, root),
{
    let n = root.len();
    assert forall|picked: Seq<BoxV<S>>, i: int, xs: Seq<TensorV<S>>|
        input_splitting::all_of_length(picked, n) && input_verdicts::all_nested(v, picked, root)
            && 0 <= i < picked.len() <= usize::MAX && input_verdicts::in_box(
            v,
            xs,
            picked[i].inputs,
        ) implies #[trigger] input_verdicts::member_holds(v, g, n, picked, i, xs) by {
        let r = input_splitting::batches(picked, n);
        if r is Ok {
            let bs = r->Ok_0;
            let outs = eval::evaluated::<S, IBPBatchedTensor<S>>((), g, bs).1;
            let ys = eval::evaluated::<S, Tensor<S>>((), g, xs).1;
            if outs is Ok && ys is Ok {
                lemma_batches(picked, n);
                let size = picked.len() as usize;
                assert(picked[i].inputs.len() == n);
                assert forall|j: int| 0 <= j < xs.len() implies sits(
                    v,
                    #[trigger] xs[j],
                    bs[j],
                    size,
                    i,
                ) by {
                    let column = input_splitting::position(picked, j);
                    assert(batched::batch_from(column) == Ok::<BatchV<S>, Fault>(bs[j]));
                    assert forall|m: int| 0 <= m < column.len() implies containment::inside(
                        v,
                        column[m].ub,
                        #[trigger] column[m],
                    ) by {
                        let own = picked[m].inputs;
                        assert(own.len() == n);
                        let ends = input_splitting::upper_ends(own);
                        assert(input_verdicts::nested(v, own, root));
                        assert(input_verdicts::in_box(v, ends, own));
                        assert(containment::inside(v, ends[j], own[j]));
                    }
                    assert(containment::inside(v, xs[j], picked[i].inputs[j]));
                    lemma_stacked_sits(v, column, bs[j], i, xs[j]);
                }
                let (e, b) = (eval::bound(g.invars, xs, n), eval::bound(g.invars, bs, n));
                lemma_bound_tied(v, g.invars, xs, bs, n, size, i);
                lemma_forward_tied(v, g.equations, e, b, 0, size, i);
                let e2 = eval::forward::<S, Tensor<S>>((), g.equations, e, 0).1->Ok_0;
                let b2 = eval::forward::<S, IBPBatchedTensor<S>>((), g.equations, b, 0).1->Ok_0;
                lemma_gathered_tied(v, g.outvars, e2, b2, g.outvars.len(), size, i);
                let (y, c) = (ys->Ok_0, outs->Ok_0);
                if let Some(out) = input_splitting::members(c, i) {
                    assert forall|j: int| 0 <= j < out.len() implies containment::inside(
                        v,
                        y[j],
                        #[trigger] out[j],
                    ) by {
                        assert(sits(v, y[j], c[j], size, i));
                        lemma_member_holds(v, y[j], c[j], size, i);
                    }
                }
            }
        }
    }
}

} // verus!
