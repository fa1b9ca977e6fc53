//! Operations that undo others.

use vstd::prelude::*;
use crate::carry_pad;
use crate::carry_places;
use crate::manipulate;
use crate::model;
use crate::model::{Fault, PadV, TensorV, UnOpV};
use crate::reals;
use crate::scalar::Scalar;
use crate::shape;
use crate::vjp;

verus! {

/// Moving an axis back undoes moving it.
pub proof fn lemma_moved_back<S: Scalar>(from: isize, to: isize, t: TensorV<S>, u: TensorV<S>)
    requires
        reals::full(t),
        model::un_tensor(UnOpV::MoveAxis(from, to), t) == Ok::<TensorV<S>, Fault>(u),
    ensures
        model::un_tensor(UnOpV::MoveAxis(to, from), u) == Ok::<TensorV<S>, Fault>(t),
{
    let s = t.shape;
    let n = s.len() as int;
    let (a, b) = (shape::norm_axis(from as int, n), shape::norm_axis(to as int, n));
    manipulate::lemma_moved(s, a, b);
    let low = if a <= b {
        a
    } else {
        b
    };
    let (o, p, q, inner) = (
        shape::product(s.subrange(0, low)) as int,
        model::first_block(s, a, b) as int,
        model::second_block(s, a, b) as int,
        model::behind_blocks(s, a, b) as int,
    );
    let all = shape::product(s);
    let r = model::un_tensor(UnOpV::<S>::MoveAxis(to, from), u)->Ok_0;
    if a == b {
        assert(model::moved(s, a, b) =~= s);
        assert(s.subrange(a + 1, b + 1) =~= Seq::<usize>::empty());
        assert forall|k: int| 0 <= k < all implies #[trigger] r.data[k] == t.data[k] by {
            manipulate::lemma_swapped(k, o, p, q, inner);
            carry_places::lemma_unmoved(k, p, inner);
        }
    } else {
        carry_places::lemma_moved_blocks(s, a, b);
        assert(o * q * p * inner == o * p * q * inner) by (nonlinear_arith);
        assert forall|k: int| 0 <= k < all implies #[trigger] r.data[k] == t.data[k] by {
            carry_places::lemma_swapped_back(k, o, q, p, inner);
        }
    }
    assert(r.data =~= t.data);
}

/// Taking the shape back undoes a change of shape.
pub proof fn lemma_reshaped_back<S: Scalar>(d: Seq<isize>, t: TensorV<S>, u: TensorV<S>)
    requires
        reals::full(t),
        shape::fits(t.shape),
        t.shape.len() <= isize::MAX,
        model::un_tensor(UnOpV::Reshape(d), t) == Ok::<TensorV<S>, Fault>(u),
    ensures
        model::un_tensor(UnOpV::Reshape(vjp::as_lengths(t.shape)), u) == Ok::<TensorV<S>, Fault>(t),
{
    let back = vjp::as_lengths(t.shape);
    shape::lemma_volume_bounds(t.shape);
    assert(model::resolved(back, shape::product(u.shape)) =~= t.shape) by {
        assert forall|i: int| 0 <= i < t.shape.len() implies back[i] >= 0 && #[trigger] t.shape[i]
            == back[i] as usize by {}
    }
}

/// Cutting a padding off along an axis undoes it, where the axis is not empty.
pub proof fn lemma_cut_back<S: Scalar>(p: PadV<S>, axis: isize, t: TensorV<S>, u: TensorV<S>)
    requires
        reals::full(t),
        p.axes == seq![axis],
        0 <= axis < t.shape.len(),
        t.shape[axis as int] > 0,
        p.interior < isize::MAX,
        model::un_tensor(UnOpV::Pad(p), t) == Ok::<TensorV<S>, Fault>(u),
        p.left + (t.shape[axis as int] - 1) * (p.interior + 1) + 1 <= isize::MAX,
    ensures
        ({
            let end = p.left + (t.shape[axis as int] - 1) * (p.interior + 1) + 1;
            model::un_tensor(
                UnOpV::Slice(
                    axis,
                    p.left as isize,
                    Some(end as isize),
                    (p.interior + 1) as isize,
                ),
                u,
            ) == Ok::<TensorV<S>, Fault>(t)
        }),
{
    let s = t.shape;
    let n = s.len() as int;
    let ax = axis as int;
    let (d, st) = (s[ax] as int, p.interior + 1);
    let inner = model::inner_size(s, ax) as int;
    let outer = model::outer_size(s, ax) as int;
    let span = (d - 1) * st;
    assert(0 <= span && (d - 1) * p.interior == span - (d - 1)) by (nonlinear_arith)
        requires
            0 <= d - 1,
            st == p.interior + 1,
            span == (d - 1) * st,
    ;
    let end = p.left + span + 1;
    assert(model::names_axis(p.axes, n, ax)) by {
        assert(shape::norm_axis(p.axes[0] as int, n) == ax);
    }
    assert(model::pad_len(p, s, ax) <= usize::MAX);
    let e = u.shape[ax] as int;
    assert(e == model::padded_len(p, s[ax]));
    assert(end <= e);
    assert(u.shape =~= s.update(ax, u.shape[ax])) by {
        assert forall|i: int| 0 <= i < n implies #[trigger] u.shape[i] == s.update(
            ax,
            u.shape[ax],
        )[i] by {
            if i != ax {
                assert(!model::names_axis(p.axes, n, i)) by {
                    if model::names_axis(p.axes, n, i) {
                        assert(p.axes[0] == axis);
                    }
                }
            }
        }
    }
    // the indices of the slice
    assert(d * st == span + st) by (nonlinear_arith)
        requires
            span == (d - 1) * st,
    ;
    let whole = span + st;
    assert(whole / st == d) by (nonlinear_arith)
        requires
            whole == d * st,
            0 < st,
    ;
    assert(model::slice_first(e, p.left as int, st as int) == p.left);
    assert(model::slice_first(e, end, st as int) == end);
    assert(model::slice_count(e, p.left as int, Some(end as isize), st as int) == d);
    let op = UnOpV::<S>::Slice(axis, p.left as isize, Some(end as isize), st as isize);
    let r = model::un_tensor(op, u)->Ok_0;
    assert(r.shape =~= s);
    assert(u.shape.subrange(ax + 1, n) =~= s.subrange(ax + 1, n));
    assert(u.shape.subrange(0, ax) =~= s.subrange(0, ax));
    manipulate::lemma_remove(s, ax);
    manipulate::lemma_remove(u.shape, ax);
    assert forall|k: int| 0 <= k < t.data.len() implies #[trigger] r.data[k] == t.data[k] by {
        carry_places::lemma_parts(s, ax, k);
        let (o, c, i) = (k / inner / d, k / inner % d, k % inner);
        carry_pad::lemma_spaced(p, c, s[ax]);
        let far = p.left + c * st;
        manipulate::lemma_cell(o, far, outer, e);
        manipulate::lemma_cell(o * e + far, i, outer * e, inner);
        let z = model::slice_index(k, e, inner, p.left as int, d, st as int);
        assert(z == (o * e + far) * inner + i) by {
            assert(o * e + p.left + c * st == o * e + far);
        }
        carry_places::lemma_pad_one(p, axis, t, u, z);
        assert(u.data[z] == t.data[k]);
    }
    assert(r.data =~= t.data);
}

/// Two shapes broadcast to the same shape in either order.
pub proof fn lemma_broadcast_symmetric(a: Seq<usize>, b: Seq<usize>)
    ensures
        shape::broadcast(a, b) == shape::broadcast(b, a),
{
    let n = shape::rank_of(a, b) as int;
    assert forall|i: int| 0 <= i < n implies shape::dims_agree(
        #[trigger] shape::aligned(a, n, i),
        shape::aligned(b, n, i),
    ) == shape::dims_agree(shape::aligned(b, n, i), shape::aligned(a, n, i)) by {}
    if shape::broadcast(a, b) is Some {
        assert forall|i: int| 0 <= i < n implies shape::dims_agree(
            #[trigger] shape::aligned(b, n, i),
            shape::aligned(a, n, i),
        ) by {
            assert(shape::dims_agree(shape::aligned(a, n, i), shape::aligned(b, n, i)));
        }
        let (x, y) = (shape::broadcast(a, b)->0, shape::broadcast(b, a)->0);
        assert forall|i: int| 0 <= i < n implies #[trigger] x[i] == y[i] by {
            assert(shape::dims_agree(shape::aligned(a, n, i), shape::aligned(b, n, i)));
        }
        assert(x =~= y);
    } else {
        let i = choose|i: int|
            0 <= i < n && !shape::dims_agree(
                #[trigger] shape::aligned(a, n, i),
                shape::aligned(b, n, i),
            );
        assert(!shape::dims_agree(shape::aligned(b, n, i), shape::aligned(a, n, i)));
    }
}

} // verus!
