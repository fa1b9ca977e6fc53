//! The program of a padding carries the weights of its result to its operand and what the fill
//! contributes to the bias.

use vstd::prelude::*;
use crate::affine;
use crate::carry;
use crate::carry_places;
use crate::exact;
use crate::manipulate;
use crate::model;
use crate::model::{BinOpV, Fault, PadV, TensorV, UnOpV};
use crate::pairing;
use crate::reals;
use crate::scalar;
use crate::scalar::Scalar;
use crate::shape;
use crate::sums;
use crate::support;
use crate::tensor::Tensor;
use crate::unspread;
use crate::value::{Reg, StepV};
use crate::vjp;
use crate::vjp::RuleV;

verus! {

/// Whether no axis is named twice.
pub open spec fn axes_apart(axes: Seq<isize>, n: int) -> bool {
    forall|i: int, j: int|
        0 <= i < j < axes.len() ==> shape::norm_axis(#[trigger] axes[i] as int, n)
            != shape::norm_axis(#[trigger] axes[j] as int, n)
}

/// Whether one of the first `j` of `axes` names axis `i`.
pub open spec fn named_below(axes: Seq<isize>, n: int, j: int, i: int) -> bool {
    exists|m: int| 0 <= m < j && shape::norm_axis(#[trigger] axes[m] as int, n) == i
}

/// The coordinates in the padded tensor of the element at coordinates `c`, counting the padding
/// along the first `j` axes only.
pub open spec fn spaced<S>(p: PadV<S>, c: Seq<usize>, j: int) -> Seq<usize> {
    Seq::new(
        c.len(),
        |i: int|
            if named_below(p.axes, c.len() as int, j, i) {
                (p.left + c[i] * (p.interior + 1)) as usize
            } else {
                c[i]
            },
    )
}

/// The padded shape `out` with the first `j` axes as in `s`.
pub open spec fn partly<S>(p: PadV<S>, out: Seq<usize>, s: Seq<usize>, j: int) -> Seq<usize> {
    Seq::new(
        s.len(),
        |i: int|
            if named_below(p.axes, s.len() as int, j, i) {
                s[i]
            } else {
                out[i]
            },
    )
}

/// A coordinate of a padded axis that holds a coordinate of the axis.
pub proof fn lemma_spaced<S>(p: PadV<S>, c: int, d: usize)
    requires
        0 <= c < d,
        model::padded_len(p, d) <= usize::MAX,
    ensures
        0 <= p.left + c * (p.interior + 1) < model::padded_len(p, d),
        carry_places::holds(p, p.left + c * (p.interior + 1), d as int),
        carry_places::held(p, p.left + c * (p.interior + 1)) == c,
{
    let g = p.interior + 1;
    assert(0 <= c * g) by (nonlinear_arith)
        requires
            0 <= c,
            0 < g,
    ;
    assert(c * g <= (d - 1) * g) by (nonlinear_arith)
        requires
            c <= d - 1,
            0 < g,
    ;
    assert((d - 1) * g == (d - 1) * p.interior + (d - 1)) by (nonlinear_arith)
        requires
            g == p.interior + 1,
    ;
    carry_places::lemma_multiple(c, g);
}

/// One slice leads one axis back.
proof fn lemma_one_slice<S: Scalar>(
    p: PadV<S>,
    s: Seq<usize>,
    out: Seq<usize>,
    w: TensorV<S>,
    j: int,
    a: TensorV<S>,
    b: TensorV<S>,
)
    requires
        axes_apart(p.axes, s.len() as int),
        0 <= j < p.axes.len(),
        support::dense(s),
        model::pad_shape(p, s) == Ok::<Seq<usize>, Fault>(out),
        vjp::unpad_ok(p, s) is Ok,
        a.shape == partly(p, out, s, j),
        reals::full(a),
        forall|c: Seq<usize>| #[trigger]
            shape::in_shape(c, a.shape) ==> a.data[shape::ravel(c, a.shape)] == w.data[shape::ravel(
                spaced(p, c, j),
                out,
            )],
        model::un_tensor(vjp::unpad_slice(p, s, j), a) == Ok::<TensorV<S>, Fault>(b),
    ensures
        b.shape == partly(p, out, s, j + 1),
        reals::full(b),
        forall|c: Seq<usize>| #[trigger]
            shape::in_shape(c, b.shape) ==> b.data[shape::ravel(c, b.shape)] == w.data[shape::ravel(
                spaced(p, c, j + 1),
                out,
            )],
{
    let n = s.len() as int;
    let axis = p.axes[j];
    let ax = shape::norm_axis(axis as int, n);
    assert(shape::axis_ok(axis as int, n));
    let (d, step) = (s[ax], p.interior + 1);
    assert(d > 0);
    assert(!named_below(p.axes, n, j, ax)) by {
        if named_below(p.axes, n, j, ax) {
            let m = choose|m: int| 0 <= m < j && shape::norm_axis(#[trigger] p.axes[m] as int, n) == ax;
            assert(shape::norm_axis(p.axes[m] as int, n) != shape::norm_axis(
                p.axes[j] as int,
                n,
            ));
        }
    }
    assert(model::names_axis(p.axes, n, ax)) by {
        assert(shape::norm_axis(p.axes[j] as int, n) == ax);
    }
    assert(model::pad_len(p, s, ax) <= usize::MAX);
    let len = a.shape[ax] as int;
    assert(len == model::padded_len(p, d));
    let end = vjp::unpad_end(p, d);
    assert(end <= isize::MAX);
    let m = (d - 1) * step;
    assert(m == (d - 1) * p.interior + (d - 1)) by (nonlinear_arith)
        requires
            m == (d - 1) * step,
            step == p.interior + 1,
    ;
    assert((p.interior + 1) * (d - 1) == m) by (nonlinear_arith)
        requires
            m == (d - 1) * step,
            step == p.interior + 1,
    ;
    assert(0 <= m) by (nonlinear_arith)
        requires
            m == (d - 1) * step,
            d > 0,
            step > 0,
    ;
    assert(end == p.left + m + 1);
    assert(end <= len);
    let count = model::slice_count(len, p.left as int, Some(end as isize), step as int);
    assert((m + step) / step == d && (m + 1 + step - 1) == m + step) by {
        assert(m + step == d * step) by (nonlinear_arith)
            requires
                m == (d - 1) * step,
        ;
        carry_places::lemma_multiple(d as int, step as int);
    }
    assert(count == d);
    let inner = model::inner_size(a.shape, ax) as int;
    assert(b.shape =~= partly(p, out, s, j + 1)) by {
        assert forall|i: int| 0 <= i < n implies #[trigger] b.shape[i] == partly(
            p,
            out,
            s,
            j + 1,
        )[i] by {
            if i == ax {
                assert(shape::norm_axis(p.axes[j] as int, n) == i);
            } else if named_below(p.axes, n, j + 1, i) {
                let k = choose|k: int|
                    0 <= k < j + 1 && shape::norm_axis(#[trigger] p.axes[k] as int, n) == i;
                assert(k < j);
            } else {
                assert(!named_below(p.axes, n, j, i)) by {
                    if named_below(p.axes, n, j, i) {
                        let k = choose|k: int|
                            0 <= k < j && shape::norm_axis(#[trigger] p.axes[k] as int, n) == i;
                        assert(named_below(p.axes, n, j + 1, i));
                    }
                }
            }
        }
    }
    assert(b.shape == a.shape.update(ax, d));
    assert(b.shape.subrange(ax + 1, n) =~= a.shape.subrange(ax + 1, n));
    manipulate::lemma_update(a.shape, ax, d);
    assert forall|c: Seq<usize>| #[trigger]
        shape::in_shape(c, b.shape) implies b.data[shape::ravel(c, b.shape)]
        == w.data[shape::ravel(spaced(p, c, j + 1), out)] by {
        let r = shape::ravel(c, b.shape);
        shape::lemma_ravel_unravel(c, b.shape);
        carry_places::lemma_parts(b.shape, ax, r);
        let (o, t, i) = (r / inner / (d as int), r / inner % (d as int), r % inner);
        lemma_spaced(p, t, d);
        let far = (p.left + t * step) as usize;
        carry_places::lemma_axis(b.shape, ax, o, t, i, a.shape[ax], far);
        assert(c[ax] == t);
        let e = c.update(ax, far);
        assert(b.shape.update(ax, a.shape[ax]) =~= a.shape);
        assert(b.data[r] == a.data[shape::ravel(e, a.shape)]);
        assert(shape::in_shape(e, a.shape));
        assert(spaced(p, e, j) =~= spaced(p, c, j + 1)) by {
            assert forall|q: int| 0 <= q < n implies #[trigger] spaced(p, e, j)[q] == spaced(
                p,
                c,
                j + 1,
            )[q] by {
                if q == ax {
                    assert(shape::norm_axis(p.axes[j] as int, n) == q);
                } else if named_below(p.axes, n, j + 1, q) {
                    let k = choose|k: int|
                        0 <= k < j + 1 && shape::norm_axis(#[trigger] p.axes[k] as int, n) == q;
                    assert(k < j);
                    assert(named_below(p.axes, n, j, q));
                } else if named_below(p.axes, n, j, q) {
                    let k = choose|k: int|
                        0 <= k < j && shape::norm_axis(#[trigger] p.axes[k] as int, n) == q;
                    assert(named_below(p.axes, n, j + 1, q));
                }
            }
        }
    }
}

/// All slices lead back to the operand.
proof fn lemma_slices<S: Scalar>(
    p: PadV<S>,
    s: Seq<usize>,
    out: Seq<usize>,
    w: TensorV<S>,
    all: Seq<TensorV<S>>,
    j: int,
)
    requires
        axes_apart(p.axes, s.len() as int),
        0 <= j <= p.axes.len() <= all.len(),
        support::dense(s),
        model::pad_shape(p, s) == Ok::<Seq<usize>, Fault>(out),
        vjp::unpad_ok(p, s) is Ok,
        w.shape == out,
        reals::full(w),
        forall|i: int|
            0 <= i < p.axes.len() ==> model::un_tensor(
                vjp::unpad_slice(p, s, i),
                unspread::after(w, all, i),
            ) == Ok::<TensorV<S>, Fault>(#[trigger] all[i]),
    ensures
        ({
            let a = unspread::after(w, all, j);
            &&& a.shape == partly(p, out, s, j)
            &&& reals::full(a)
            &&& forall|c: Seq<usize>| #[trigger]
                shape::in_shape(c, a.shape) ==> a.data[shape::ravel(c, a.shape)]
                    == w.data[shape::ravel(spaced(p, c, j), out)]
        }),
    decreases j,
{
    if j == 0 {
        assert forall|i: int| !named_below(p.axes, s.len() as int, 0, i) by {}
        assert(partly(p, out, s, 0) =~= out);
        assert forall|c: Seq<usize>| #[trigger]
            shape::in_shape(c, w.shape) implies w.data[shape::ravel(c, w.shape)]
            == w.data[shape::ravel(spaced(p, c, 0), out)] by {
            assert(spaced(p, c, 0) =~= c);
        }
    } else {
        lemma_slices(p, s, out, w, all, j - 1);
        assert(all[j - 1] == unspread::after(w, all, j));
        lemma_one_slice(
            p,
            s,
            out,
            w,
            j - 1,
            unspread::after(w, all, j - 1),
            all[j - 1],
        );
    }
}

/// The place in the padded tensor of element `k` of the operand.
pub open spec fn pad_place<S>(p: PadV<S>, s: Seq<usize>, out: Seq<usize>, k: int) -> int {
    shape::ravel(spaced(p, shape::unravel(k, s), p.axes.len() as int), out)
}

/// The element of the operand at a place of the padded tensor.
pub open spec fn pad_source<S>(p: PadV<S>, s: Seq<usize>, out: Seq<usize>, r: int) -> int {
    shape::ravel(model::pad_coordinates(p, shape::unravel(r, out), s), s)
}

/// Elements and their places.
proof fn lemma_places<S>(p: PadV<S>, s: Seq<usize>, out: Seq<usize>)
    requires
        model::axes_ok(p.axes, s.len() as int),
        model::pad_shape(p, s) == Ok::<Seq<usize>, Fault>(out),
    ensures
        forall|k: int|
            0 <= k < shape::product(s) ==> 0 <= #[trigger] pad_place(p, s, out, k)
                < shape::product(out) && model::pad_hit(
                p,
                shape::unravel(pad_place(p, s, out, k), out),
                s,
            ) && pad_source(p, s, out, pad_place(p, s, out, k)) == k,
        forall|r: int|
            0 <= r < shape::product(out) && model::pad_hit(p, shape::unravel(r, out), s) ==> 0
                <= #[trigger] pad_source(p, s, out, r) < shape::product(s) && pad_place(
                p,
                s,
                out,
                pad_source(p, s, out, r),
            ) == r,
{
    let n = s.len() as int;
    let all = p.axes.len() as int;
    assert forall|k: int| 0 <= k < shape::product(s) implies 0 <= #[trigger] pad_place(
        p,
        s,
        out,
        k,
    ) < shape::product(out) && model::pad_hit(p, shape::unravel(pad_place(p, s, out, k), out), s)
        && pad_source(p, s, out, pad_place(p, s, out, k)) == k by {
        let c = shape::unravel(k, s);
        shape::lemma_unravel_ravel(k, s);
        let e = spaced(p, c, all);
        assert forall|i: int| 0 <= i < n implies (#[trigger] e[i]) < out[i] && model::pad_axis(
            p,
            e,
            s,
            i,
        ) == Some(c[i] as int) by {
            assert(c[i] < s[i]);
            assert(named_below(p.axes, n, all, i) == model::names_axis(p.axes, n, i)) by {
                if model::names_axis(p.axes, n, i) {
                    let m = choose|m: int|
                        0 <= m < p.axes.len() && shape::norm_axis(#[trigger] p.axes[m] as int, n) == i;
                    assert(named_below(p.axes, n, all, i));
                }
            }
            assert(model::pad_len(p, s, i) <= usize::MAX);
            if model::names_axis(p.axes, n, i) {
                lemma_spaced(p, c[i] as int, s[i]);
            }
        }
        assert(shape::in_shape(e, out));
        shape::lemma_ravel_unravel(e, out);
        assert(model::pad_coordinates(p, e, s) =~= c) by {
            assert forall|i: int| 0 <= i < n implies #[trigger] model::pad_coordinates(
                p,
                e,
                s,
            )[i] == c[i] by {
                assert(e[i] < out[i]);
            }
        }
        assert forall|i: int| 0 <= i < n implies (#[trigger] model::pad_axis(p, e, s, i)) is Some by {
            assert(e[i] < out[i]);
        }
    }
    assert forall|r: int|
        0 <= r < shape::product(out) && model::pad_hit(p, shape::unravel(r, out), s) implies 0
        <= #[trigger] pad_source(p, s, out, r) < shape::product(s) && pad_place(
        p,
        s,
        out,
        pad_source(p, s, out, r),
    ) == r by {
        let e = shape::unravel(r, out);
        shape::lemma_unravel_ravel(r, out);
        let c = model::pad_coordinates(p, e, s);
        assert forall|i: int| 0 <= i < n implies (#[trigger] c[i]) < s[i] && spaced(p, c, all)[i]
            == e[i] by {
            assert(e[i] < out[i]);
            assert(model::pad_axis(p, e, s, i) is Some);
            assert(named_below(p.axes, n, all, i) == model::names_axis(p.axes, n, i)) by {
                if model::names_axis(p.axes, n, i) {
                    let m = choose|m: int|
                        0 <= m < p.axes.len() && shape::norm_axis(#[trigger] p.axes[m] as int, n) == i;
                    assert(named_below(p.axes, n, all, i));
                }
            }
            assert(model::pad_len(p, s, i) <= usize::MAX);
            if model::names_axis(p.axes, n, i) {
                let g = p.interior + 1;
                let q = (e[i] - p.left) / g;
                carry_places::lemma_exact_quotient(e[i] - p.left, g as int);
                assert(0 <= q) by (nonlinear_arith)
                    requires
                        q == (e[i] - p.left) / g,
                        e[i] >= p.left,
                        g > 0,
                ;
            }
        }
        assert(shape::in_shape(c, s));
        shape::lemma_ravel_unravel(c, s);
        assert(spaced(p, c, all) =~= e);
    }
}

/// The steps of the program of a padding.
proof fn lemma_pad_program<S: Scalar>(p: PadV<S>, s: Seq<usize>, rule: RuleV<S>)
    requires
        affine::pad_rule(p, s) == Ok::<RuleV<S>, Fault>(rule),
    ensures
        ({
            let n = p.axes.len() as int;
            let steps = rule.steps;
            &&& n <= isize::MAX
            &&& steps.len() == n + 4
            &&& forall|i: int|
                0 <= i < n ==> #[trigger] steps[i] == StepV::Un(
                    vjp::unpad_slice(p, s, i),
                    if i == 0 {
                        Reg::In(0)
                    } else {
                        Reg::Out((i - 1) as usize)
                    },
                )
            &&& steps[n] == StepV::Load(model::filled(s, scalar::zero::<S>()))
            &&& steps[n + 1] == StepV::Un(UnOpV::Pad(p), Reg::Out(n as usize))
            &&& steps[n + 2] == StepV::<S>::Bin(BinOpV::Mul, Reg::In(0), Reg::Out((n + 1) as usize))
            &&& steps[n + 3] == StepV::<S>::SumAll(Reg::Out((n + 2) as usize))
            &&& rule.outs == seq![
                if n == 0 {
                    Reg::In(0)
                } else {
                    Reg::Out((n - 1) as usize)
                },
                Reg::Out((n + 3) as usize),
            ]
            &&& vjp::unpad_ok(p, s) is Ok
        }),
{
    reveal(affine::pad_rule);
    let n = p.axes.len() as int;
    let chain = vjp::chain(vjp::unpad_ops(p, s), Reg::In(0), 0);
    assert(chain.len() == n);
    assert forall|i: int| 0 <= i < n implies #[trigger] rule.steps[i] == StepV::Un(
        vjp::unpad_slice(p, s, i),
        if i == 0 {
            Reg::In(0)
        } else {
            Reg::Out((i - 1) as usize)
        },
    ) by {
        assert(rule.steps[i] == chain[i]);
    }
}

/// The results of a program with two results.
proof fn lemma_two_results<S: Scalar>(
    rule: RuleV<S>,
    inputs: Seq<TensorV<S>>,
    parts: Seq<TensorV<S>>,
) -> (all: Seq<TensorV<S>>)
    requires
        rule.outs.len() == 2,
        rule.steps.len() > 0,
        vjp::applied::<S, Tensor<S>>((), rule, inputs).1 == Ok::<Seq<TensorV<S>>, Fault>(parts),
    ensures
        pairing::performed(rule.steps, inputs, all),
        all.len() == rule.steps.len(),
        parts.len() == 2,
        parts[0] == pairing::named(rule.outs[0], inputs, all),
        parts[1] == pairing::named(rule.outs[1], inputs, all),
{
    let all = pairing::lemma_applied(rule, inputs, parts);
    carry::lemma_step(rule.steps, inputs, all, 0);
    all
}

/// What the program of a padding computes.
proof fn lemma_pad_steps<S: Scalar>(
    p: PadV<S>,
    s: Seq<usize>,
    rule: RuleV<S>,
    w: TensorV<S>,
    parts: Seq<TensorV<S>>,
) -> (all: Seq<TensorV<S>>)
    requires
        affine::pad_rule(p, s) == Ok::<RuleV<S>, Fault>(rule),
        vjp::applied::<S, Tensor<S>>((), rule, seq![w]).1 == Ok::<Seq<TensorV<S>>, Fault>(parts),
    ensures
        ({
            let n = p.axes.len() as int;
            &&& all.len() == n + 4
            &&& forall|i: int|
                0 <= i < n ==> model::un_tensor(
                    vjp::unpad_slice(p, s, i),
                    unspread::after(w, all, i),
                ) == Ok::<TensorV<S>, Fault>(#[trigger] all[i])
            &&& model::un_tensor(
                UnOpV::Pad(p),
                model::filled(s, scalar::zero()),
            ) == Ok::<TensorV<S>, Fault>(all[n + 1])
            &&& model::bin_tensor(BinOpV::Mul, w, all[n + 1]) == Ok::<TensorV<S>, Fault>(all[n + 2])
            &&& pairing::summed(all[n + 2], all[n + 3])
            &&& parts.len() == 2
            &&& parts[0] == unspread::after(w, all, n)
            &&& parts[1] == all[n + 3]
        }),
{
    let inputs = seq![w];
    let n = p.axes.len() as int;
    lemma_pad_program(p, s, rule);
    let steps = rule.steps;
    let all = lemma_two_results(rule, inputs, parts);
    assert forall|i: int| 0 <= i < n implies model::un_tensor(
        vjp::unpad_slice(p, s, i),
        unspread::after(w, all, i),
    ) == Ok::<TensorV<S>, Fault>(#[trigger] all[i]) by {
        let a = if i == 0 {
            Reg::In(0)
        } else {
            Reg::Out((i - 1) as usize)
        };
        assert(steps[i] == StepV::Un(vjp::unpad_slice(p, s, i), a));
        pairing::lemma_un_step(steps, inputs, all, i, vjp::unpad_slice(p, s, i), a);
    }
    pairing::lemma_load_step(steps, inputs, all, n, model::filled(s, scalar::zero::<S>()));
    pairing::lemma_un_step(steps, inputs, all, n + 1, UnOpV::Pad(p), Reg::Out(n as usize));
    pairing::lemma_bin_step(
        steps,
        inputs,
        all,
        n + 2,
        BinOpV::Mul,
        Reg::In(0),
        Reg::Out((n + 1) as usize),
    );
    pairing::lemma_sum_step(steps, inputs, all, n + 3, Reg::Out((n + 2) as usize));
    all
}

/// The program of a padding along axes of which none is named twice carries weights.
#[verifier::rlimit(40)]
pub proof fn lemma_pad_carries<S: Scalar>(
    v: spec_fn(S) -> real,
    p: PadV<S>,
    x: TensorV<S>,
    y: TensorV<S>,
    rule: RuleV<S>,
    w: TensorV<S>,
    parts: Seq<TensorV<S>>,
)
    requires
        exact::exact(v),
        support::weighable(w),
        support::weighable(x),
        axes_apart(p.axes, x.shape.len() as int),
        model::un_tensor(UnOpV::Pad(p), x) == Ok::<TensorV<S>, Fault>(y),
        w.shape == y.shape,
        affine::pad_rule(p, x.shape) == Ok::<RuleV<S>, Fault>(rule),
        vjp::applied::<S, Tensor<S>>((), rule, seq![w]).1 == Ok::<Seq<TensorV<S>>, Fault>(parts),
    ensures
        support::carries(v, parts, seq![x], w, y),
{
    let (s, out) = (x.shape, y.shape);
    let n = p.axes.len() as int;
    let all = lemma_pad_steps(p, s, rule, w, parts);
    lemma_pad_program(p, s, rule);
    lemma_slices(p, s, out, w, all, n);
    lemma_places(p, s, out);
    let part = parts[0];
    assert(part.shape =~= s) by {
        assert forall|i: int| 0 <= i < s.len() implies #[trigger] part.shape[i] == s[i] by {
            if !named_below(p.axes, s.len() as int, n, i) {
                assert(!model::names_axis(p.axes, s.len() as int, i)) by {
                    if model::names_axis(p.axes, s.len() as int, i) {
                        let m = choose|m: int|
                            0 <= m < p.axes.len() && shape::norm_axis(
                                #[trigger] p.axes[m] as int,
                                s.len() as int,
                            ) == i;
                        assert(named_below(p.axes, s.len() as int, n, i));
                    }
                }
                assert(model::pad_len(p, s, i) <= usize::MAX);
            }
        }
    }
    let (nx, ny) = (shape::product(s), shape::product(out));
    let hit = |r: int| model::pad_hit(p, shape::unravel(r, out), s);
    let g = |k: int| pad_place(p, s, out, k);
    let h = |r: int| pad_source(p, s, out, r);
    let (fx, fw) = (|k: int| v(x.data[k]), |r: int| v(w.data[r]));
    assert forall|k: int| 0 <= k < nx implies 0 <= #[trigger] g(k) < ny && hit(g(k)) && h(g(k)) == k by {
        assert(0 <= pad_place(p, s, out, k) < ny);
    }
    assert forall|r: int| 0 <= r < ny && #[trigger] hit(r) implies 0 <= h(r) < nx && g(h(r)) == r by {
        assert(0 <= pad_source(p, s, out, r));
    }
    carry_places::lemma_sum_gather(fx, fw, g, hit, h, nx, ny);
    // the bias
    let zeros = model::filled(s, scalar::zero::<S>());
    let fill = all[n + 1];
    pairing::lemma_mul_same(v, w, fill, all[n + 2]);
    pairing::lemma_sum_all(v, all[n + 2], all[n + 3]);
    exact::lemma_numbers(v);
    let kept = |r: int|
        if hit(r) {
            fx(h(r)) * fw(r)
        } else {
            0real
        };
    let rest = |r: int| v(all[n + 2].data[r]);
    let whole = |r: int| v(w.data[r]) * v(y.data[r]);
    assert forall|r: int| 0 <= r < ny implies #[trigger] whole(r) == kept(r) + rest(r) by {
        let (a, b) = (v(w.data[r]), v(y.data[r]));
        exact::lemma_units(a, b);
        exact::lemma_units(b, a);
        if hit(r) {
            assert(0 <= h(r) < nx);
            assert(y.data[r] == x.data[h(r)]);
            assert(fill.data[r] == zeros.data[h(r)]);
        } else {
            assert(y.data[r] == p.value);
            assert(fill.data[r] == p.value);
        }
    }
    sums::lemma_sum_plus(kept, rest, whole, ny);
    pairing::lemma_same_shape(s);
    pairing::lemma_spread_same(v, part, x);
    let (f1, f2) = (
        |k: int| v(part.data[k]) * v(x.data[k]),
        |k: int| fx(k) * fw(g(k)),
    );
    assert forall|k: int| 0 <= k < nx implies #[trigger] f1(k) == f2(k) by {
        let c = shape::unravel(k, s);
        shape::lemma_unravel_ravel(k, s);
        assert(shape::in_shape(c, part.shape));
        assert(part.data[k] == w.data[g(k)]);
        exact::lemma_units(v(x.data[k]), v(w.data[g(k)]));
    }
    sums::lemma_sum_same(f1, f2, nx);
    reveal_with_fuel(support::carried, 2);
    assert(shape::expands_to(s, part.shape));
}

} // verus!
