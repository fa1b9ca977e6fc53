//! Members of a batch have the bounds that they have alone.

use vstd::prelude::*;
use crate::batched;
use crate::batched::BatchV;
use crate::interval;
use crate::interval::IBPV;
use crate::members;
use crate::members::{atop, is_block};
use crate::model;
use crate::model::{Fault, TensorV, UnOpV};
use crate::reals;
use crate::scalar::Scalar;
use crate::shape;
use crate::shaping;
use crate::stacks;


verus! {

/// Part number `i` of a stack along its first axis.
proof fn lemma_part<S>(t: TensorV<S>, i: int)
    requires
        reals::full(t),
        t.shape.len() > 0,
        0 <= i < t.shape[0],
    ensures
        is_block(model::indexed(t, 0, i), t, t.shape[0], i),
{
    let x = model::indexed(t, 0, i);
    let n = t.shape[0];
    let s = t.shape.remove(0);
    assert(t.shape =~= atop(n, s));
    members::lemma_atop(n, s);
    assert(t.shape.subrange(1, t.shape.len() as int) =~= s);
    let m = shape::product(s) as int;
    assert forall|q: int| 0 <= q < x.data.len() implies #[trigger] x.data[q] == t.data[i
        * x.data.len() + q] by {
        assert(q / m == 0 && q % m == q) by (nonlinear_arith)
            requires
                0 <= q < m,
        ;
        assert((0 * n + i) * m + q == i * m + q) by (nonlinear_arith);
    }
}

/// A block of a stack is the part of its number.
proof fn lemma_block<S>(y: TensorV<S>, u: TensorV<S>, n: usize, i: int)
    requires
        is_block(y, u, n, i),
    ensures
        model::indexed(u, 0, i) == y,
{
    members::lemma_atop(n, y.shape);
    lemma_part(u, i);
    let x = model::indexed(u, 0, i);
    assert(x.shape =~= y.shape);
    assert forall|q: int| 0 <= q < y.data.len() implies #[trigger] x.data[q] == y.data[q] by {
        assert(y.data[q] == u.data[i * y.data.len() + q]);
    }
    assert(x.data =~= y.data);
}

/// Elements that are computed one by one.
proof fn lemma_each<S>(
    x: TensorV<S>,
    z: TensorV<S>,
    t: TensorV<S>,
    w: TensorV<S>,
    n: usize,
    i: int,
    f: spec_fn(S, S) -> S,
)
    requires
        is_block(x, t, n, i),
        is_block(z, w, n, i),
        z.shape == x.shape,
    ensures
        is_block(interval::zipped(x, z, f), interval::zipped(t, w, f), n, i),
{
    let (y, u) = (interval::zipped(x, z, f), interval::zipped(t, w, f));
    assert forall|q: int| 0 <= q < y.data.len() implies #[trigger] y.data[q] == u.data[i
        * y.data.len() + q] by {
        members::lemma_in_block(x, t, n, i, q);
        assert(x.data[q] == t.data[i * x.data.len() + q]);
        assert(z.data[q] == w.data[i * z.data.len() + q]);
    }
}

/// An operation that moves elements or acts on each, on a block and on its stack.
proof fn lemma_moved<S: Scalar>(
    op: UnOpV<S>,
    x: TensorV<S>,
    t: TensorV<S>,
    n: usize,
    i: int,
    y: TensorV<S>,
    u: TensorV<S>,
)
    requires
        is_block(x, t, n, i),
        keeps_members(op, n, x.shape.len() as int),
        !(op is Neg || op is Square),
        model::un_tensor(op, x) == Ok::<TensorV<S>, Fault>(y),
        batched::behind_batch(op, t) == Ok::<TensorV<S>, Fault>(u),
    ensures
        is_block(y, u, n, i),
{
    match op {
        UnOpV::ReduceSum(axes) => {
            stacks::lemma_reduce_members(axes, x, t, n, i, y, u);
        },
        UnOpV::ExpandDims(axes) => {
            shaping::lemma_expanded_full(x, axes);
            shaping::lemma_expanded_full(t, batched::shifted_all(axes));
            stacks::lemma_expand_members(axes, x, t, n, i, y, u);
        },
        UnOpV::MoveAxis(from, to) => {
            stacks::lemma_move_members(from, to, x, t, n, i, y, u);
        },
        UnOpV::Slice(axis, start, end, step) => {
            stacks::lemma_slice_members(axis, start, end, step, x, t, n, i, y, u);
        },
        UnOpV::Reshape(d) => {
            members::lemma_atop(n, x.shape);
            let e = seq![n as isize] + d;
            members::lemma_known(n as isize, d);
            members::lemma_inferred(n as int, shape::product(x.shape), model::known_size(d));
            assert(u.shape =~= atop(n, y.shape)) by {
                assert forall|k: int| 0 <= k < e.len() implies #[trigger] u.shape[k] == atop(
                    n,
                    y.shape,
                )[k] by {
                    if k > 0 {
                        assert(e[k] == d[k - 1]);
                    }
                }
            }
        },
        UnOpV::Pad(p) => {
            stacks::lemma_pad_members(p, x, t, n, i, y, u);
        },
        _ => {
            assert forall|q: int| 0 <= q < y.data.len() implies #[trigger] y.data[q] == u.data[i
                * y.data.len() + q] by {
                members::lemma_in_block(x, t, n, i, q);
                assert(x.data[q] == t.data[i * x.data.len() + q]);
                assert(y.data[q] == model::at_point(op, x.data[q]));
            }
        },
    }
}

/// The operations that act on each of `n` members of a rank alone.
pub open spec fn keeps_members<S>(op: UnOpV<S>, n: usize, rank: int) -> bool {
    match op {
        UnOpV::Neg | UnOpV::Square | UnOpV::Relu | UnOpV::Exp => true,
        UnOpV::ReduceSum(_) | UnOpV::ExpandDims(_) | UnOpV::MoveAxis(_, _) => true,
        UnOpV::Slice(_, _, _, _) => true,
        UnOpV::Reshape(_) => n <= isize::MAX,
        UnOpV::Pad(p) => model::axes_ok(p.axes, rank),
        _ => false,
    }
}

/// What an operation gives on a member of a batch is the member of what it gives on the batch:
/// the first axis is never mixed, moved or summed up.
pub proof fn lemma_members_alike<S: Scalar>(
    op: UnOpV<S>,
    b: BatchV<S>,
    i: int,
    y: IBPV<S>,
    d: BatchV<S>,
)
    requires
        reals::full(b.lb),
        reals::full(b.ub),
        b.lb.shape == b.ub.shape,
        b.lb.shape.len() > 0,
        0 <= i < b.lb.shape[0],
        keeps_members(op, b.lb.shape[0], b.lb.shape.len() - 1),
        interval::un_interval(op, batched::member(b, i)) == Ok::<IBPV<S>, Fault>(y),
        batched::un_batch(op, b) == Ok::<BatchV<S>, Fault>(d),
    ensures
        batched::member(d, i).lb == y.lb,
        batched::member(d, i).ub == y.ub,
{
    let n = b.lb.shape[0];
    let x = batched::member(b, i);
    lemma_part(b.lb, i);
    lemma_part(b.ub, i);
    match op {
        UnOpV::Neg => {
            let f = |p: S, q: S| p.opposite();
            lemma_each(x.ub, x.ub, b.ub, b.ub, n, i, f);
            lemma_each(x.lb, x.lb, b.lb, b.lb, n, i, f);
            assert(y.lb.data =~= interval::zipped(x.ub, x.ub, f).data);
            assert(y.ub.data =~= interval::zipped(x.lb, x.lb, f).data);
            assert(d.lb.data =~= interval::zipped(b.ub, b.ub, f).data);
            assert(d.ub.data =~= interval::zipped(b.lb, b.lb, f).data);
        },
        UnOpV::Square => {
            let (f, g) = (
                |l: S, u: S| interval::square_low(l, u),
                |l: S, u: S| interval::square_high(l, u),
            );
            lemma_each(x.lb, x.ub, b.lb, b.ub, n, i, f);
            lemma_each(x.lb, x.ub, b.lb, b.ub, n, i, g);
            assert(y.lb.data =~= interval::zipped(x.lb, x.ub, f).data);
            assert(y.ub.data =~= interval::zipped(x.lb, x.ub, g).data);
            assert(d.lb.data =~= interval::zipped(b.lb, b.ub, f).data);
            assert(d.ub.data =~= interval::zipped(b.lb, b.ub, g).data);
        },
        _ => {
            lemma_moved(op, x.lb, b.lb, n, i, y.lb, d.lb);
            lemma_moved(op, x.ub, b.ub, n, i, y.ub, d.ub);
        },
    }
    lemma_block(y.lb, d.lb, n, i);
    lemma_block(y.ub, d.ub, n, i);
}

} // verus!
