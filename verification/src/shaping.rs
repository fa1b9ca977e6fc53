//! The shapes of the results of programs, on tensors and on traced values.

use vstd::prelude::*;
use crate::carry_moves;
use crate::model;
use crate::model::{BinOpV, Fault, TensorV, UnOpV};
use crate::nn;
use crate::nn::{AtomV, PrimV};
use crate::pairing;
use crate::reals;
use crate::scalar;
use crate::scalar::Scalar;
use crate::shape;
use crate::support;
use crate::tensor::Tensor;
use crate::tracer;
use crate::tracer::{BuilderV, Tracer, TracerV};
use crate::unspread;
use crate::value;
use crate::value::{Reg, StepV, Value};
use crate::vjp;
use crate::vjp::RuleV;

verus! {

// ---- shapes ----
/// The shape of the result of an operation on a value of shape `s`, for those of the operations
/// that bound propagation through layers and its gradients consist of.
pub open spec fn un_plain<S>(op: UnOpV<S>, s: Seq<usize>) -> Option<Seq<usize>> {
    let n = s.len() as int;
    match op {
        UnOpV::Neg | UnOpV::Relu => Some(s),
        UnOpV::ReduceSum(axes) => if n <= isize::MAX && model::axes_ok(axes, n)
            && carry_moves::named_once(axes, n) {
            Some(model::drop_axes(s, axes, n, n as nat))
        } else {
            None
        },
        UnOpV::ExpandDims(axes) => if n + axes.len() <= isize::MAX && model::expand_ok(s, axes) {
            Some(model::expanded(s, axes))
        } else {
            None
        },
        UnOpV::MoveAxis(a, b) => if n == 2 && ((a == -1 && b == -2) || (a == -2 && b == -1)) {
            Some(seq![s[1], s[0]])
        } else {
            None
        },
        _ => None,
    }
}

/// The shape of the result of such an operation on values of shapes `a` and `b`.
pub open spec fn bin_plain(op: BinOpV, a: Seq<usize>, b: Seq<usize>) -> Option<Seq<usize>> {
    match op {
        BinOpV::Add | BinOpV::Mul => shape::broadcast(a, b),
        BinOpV::Dot => if 1 <= a.len() <= 2 && 1 <= b.len() <= 2 && a.last() == b[0] {
            if b.len() == 1 {
                Some(a.drop_last())
            } else {
                Some(a.drop_last().push(b[1]))
            }
        } else {
            None
        },
        _ => None,
    }
}

/// The shape of a selection between values of one shape.
pub open spec fn select_plain(c: Seq<usize>, a: Seq<usize>, b: Seq<usize>) -> Option<Seq<usize>> {
    if c == a && a == b {
        Some(a)
    } else {
        None
    }
}

/// The shape of the result of a step, for the shapes of the inputs and of all results.
pub open spec fn step_plain<S>(
    s: StepV<S>,
    ins: Seq<Seq<usize>>,
    done: Seq<Seq<usize>>,
) -> Option<Seq<usize>> {
    match s {
        StepV::Load(t) => if reals::full(t) && support::dense(t.shape) {
            Some(t.shape)
        } else {
            None
        },
        StepV::Un(op, r) => match value::fetched(r, ins, done) {
            Some(x) => un_plain(op, x),
            None => None,
        },
        StepV::Bin(op, r, q) => match (value::fetched(r, ins, done), value::fetched(q, ins, done)) {
            (Some(x), Some(y)) => bin_plain(op, x, y),
            _ => None,
        },
        StepV::Select(p, r, q) => match (
            value::fetched(p, ins, done),
            value::fetched(r, ins, done),
            value::fetched(q, ins, done),
        ) {
            (Some(c), Some(x), Some(y)) => select_plain(c, x, y),
            _ => None,
        },
        StepV::SumAll(r) => match value::fetched(r, ins, done) {
            Some(x) => if x.len() <= isize::MAX {
                Some(Seq::empty())
            } else {
                None
            },
            None => None,
        },
    }
}

/// Whether a step refers to results before number `i` only.
pub open spec fn looks_back<S>(s: StepV<S>, i: int) -> bool {
    match s {
        StepV::Load(_) => true,
        StepV::Un(_, r) => behind(r, i),
        StepV::Bin(_, r, q) => behind(r, i) && behind(q, i),
        StepV::Select(p, r, q) => behind(p, i) && behind(r, i) && behind(q, i),
        StepV::SumAll(r) => behind(r, i),
    }
}

/// Whether an operand is an input or a result before number `i`.
pub open spec fn behind(r: Reg, i: int) -> bool {
    r matches Reg::Out(k) ==> k < i
}

/// Whether the results of a program on inputs of the shapes `ins` have the shapes `ss`.
pub open spec fn shaped_by<S>(
    steps: Seq<StepV<S>>,
    ins: Seq<Seq<usize>>,
    ss: Seq<Seq<usize>>,
) -> bool {
    &&& ss.len() == steps.len()
    &&& forall|i: int| 0 <= i < steps.len() ==> #[trigger] step_shaped(steps, ins, ss, i)
}

/// Whether step `i` of a program looks back and has a result of the given shape.
pub open spec fn step_shaped<S>(
    steps: Seq<StepV<S>>,
    ins: Seq<Seq<usize>>,
    ss: Seq<Seq<usize>>,
    i: int,
) -> bool {
    looks_back(steps[i], i) && step_plain(steps[i], ins, ss) == Some(ss[i])
}

/// The numbers of all axes name every axis once.
pub proof fn lemma_all_axes(s: Seq<usize>)
    requires
        s.len() <= isize::MAX,
    ensures
        un_plain::<()>(UnOpV::ReduceSum(value::all_axes(s.len())), s) == Some(Seq::<usize>::empty()),
        model::axes_ok(value::all_axes(s.len()), s.len() as int),
        carry_moves::named_once(value::all_axes(s.len()), s.len() as int),
        model::drop_axes(s, value::all_axes(s.len()), s.len() as int, s.len()) == Seq::<
            usize,
        >::empty(),
{
    let n = s.len();
    lemma_all_named(s, n, n);
    carry_moves::lemma_drop_all(s, value::all_axes(n));
}

/// All of the first `k` axes are named.
proof fn lemma_all_named(s: Seq<usize>, n: nat, k: nat)
    requires
        k <= n <= isize::MAX,
        n == s.len(),
    ensures
        model::unnamed_below(value::all_axes(n), n as int, k) == 0,
        carry_moves::kept_axes(s, value::all_axes(n), n as int, k) == Seq::<usize>::empty(),
    decreases k,
{
    if k > 0 {
        lemma_all_named(s, n, (k - 1) as nat);
        let axes = value::all_axes(n);
        assert(shape::norm_axis(axes[k - 1] as int, n as int) == k - 1);
        assert(model::names_axis(axes, n as int, k - 1));
    }
}

/// Axes that are left have no length zero.
proof fn lemma_kept_dense(s: Seq<usize>, axes: Seq<isize>, n: int, k: nat)
    requires
        support::dense(s),
        k <= s.len(),
    ensures
        support::dense(carry_moves::kept_axes(s, axes, n, k)),
    decreases k,
{
    if k > 0 {
        lemma_kept_dense(s, axes, n, (k - 1) as nat);
        assert(s[k - 1] > 0);
    }
}

/// The results of these operations have no axes of length zero where their operands have none.
pub proof fn lemma_un_dense<S: Scalar>(op: UnOpV<S>, s: Seq<usize>)
    requires
        support::dense(s),
        un_plain(op, s) is Some,
    ensures
        support::dense(un_plain(op, s)->0),
{
    match op {
        UnOpV::ReduceSum(axes) => {
            carry_moves::lemma_drop_all(s, axes);
            lemma_kept_dense(s, axes, s.len() as int, s.len());
        },
        UnOpV::ExpandDims(axes) => {
            let e = model::expanded(s, axes);
            let n = e.len() as int;
            assert forall|i: int| 0 <= i < e.len() implies #[trigger] e[i] > 0 by {
                carry_moves::lemma_take_out::<S>(s, axes);
                carry_moves::lemma_drop_all(e, axes);
                carry_moves::lemma_kept::<S>(e, axes, n, n as nat, i);
            }
        },
        _ => {},
    }
}

/// The results of these operations have no axes of length zero where their operands have none.
pub proof fn lemma_bin_dense(op: BinOpV, a: Seq<usize>, b: Seq<usize>)
    requires
        support::dense(a),
        support::dense(b),
        bin_plain(op, a, b) is Some,
    ensures
        support::dense(bin_plain(op, a, b)->0),
{
    match op {
        BinOpV::Add | BinOpV::Mul => {
            let s = shape::broadcast(a, b)->0;
            let n = s.len() as int;
            assert forall|i: int| 0 <= i < s.len() implies #[trigger] s[i] > 0 by {
                if i + a.len() >= n {
                    assert(a[i + a.len() - n] > 0);
                }
                if i + b.len() >= n {
                    assert(b[i + b.len() - n] > 0);
                }
            }
        },
        _ => {},
    }
}

/// An expanded shape holds as many elements as the shape.
proof fn lemma_expanded_product(s: Seq<usize>, axes: Seq<isize>, k: nat)
    requires
        k <= s.len() + axes.len(),
        model::unnamed_below(axes, (s.len() + axes.len()) as int, k) <= s.len(),
    ensures
        shape::product(model::expanded(s, axes).subrange(0, k as int)) == shape::product(
            s.subrange(
                0,
                model::unnamed_below(axes, (s.len() + axes.len()) as int, k) as int,
            ),
        ),
    decreases k,
{
    let e = model::expanded(s, axes);
    let n = (s.len() + axes.len()) as int;
    if k > 0 {
        let u = model::unnamed_below(axes, n, (k - 1) as nat) as int;
        lemma_expanded_product(s, axes, (k - 1) as nat);
        let p = e.subrange(0, k as int);
        assert(p.drop_last() =~= e.subrange(0, k - 1));
        if !model::names_axis(axes, n, k - 1) {
            let q = s.subrange(0, u + 1);
            assert(q.drop_last() =~= s.subrange(0, u));
        }
    } else {
        assert(e.subrange(0, 0) =~= s.subrange(0, 0));
    }
}

/// An expanded tensor is as full as the tensor.
pub proof fn lemma_expanded_full<S: Scalar>(x: TensorV<S>, axes: Seq<isize>)
    requires
        reals::full(x),
    ensures
        model::un_tensor(UnOpV::ExpandDims(axes), x) matches Ok(y) ==> reals::full(y),
{
    if model::un_tensor(UnOpV::ExpandDims(axes), x) is Ok {
        let e = model::expanded(x.shape, axes);
        lemma_expanded_product(x.shape, axes, e.len());
        assert(e.subrange(0, e.len() as int) =~= e);
        assert(x.shape.subrange(0, x.shape.len() as int) =~= x.shape);
    }
}

// ---- values of known shapes ----
/// Values whose shapes are known, with the context in which they stand.
pub trait Shaped<S: Scalar>: Value<S> {
    /// Whether a context is well formed.
    spec fn good(c: Self::C) -> bool;

    /// The inputs of a context.
    spec fn base(c: Self::C) -> Seq<AtomV<S>>;

    /// Whether a value stands in a context, with a shape without empty axes.
    spec fn ok(c: Self::C, m: Self::M) -> bool;

    /// The axes of a value are not empty.
    proof fn law_dense(c: Self::C, m: Self::M)
        requires
            Self::ok(c, m),
        ensures
            support::dense(Self::shape_of(m)),
    ;

    /// A constant.
    proof fn law_constant(c: Self::C, t: TensorV<S>)
        requires
            Self::good(c),
            reals::full(t),
            support::dense(t.shape),
        ensures
            Self::ok(c, Self::constant(t)),
            Self::shape_of(Self::constant(t)) == t.shape,
    ;

    /// An operation on one value.
    proof fn law_unary(c: Self::C, op: UnOpV<S>, x: Self::M)
        requires
            Self::good(c),
            Self::ok(c, x),
            un_plain(op, Self::shape_of(x)) is Some,
        ensures
            match Self::unary(c, op, x) {
                (d, Ok(z)) => {
                    &&& Self::good(d)
                    &&& Self::base(d) == Self::base(c)
                    &&& Self::ok(d, z)
                    &&& Self::shape_of(z) == un_plain(op, Self::shape_of(x))->0
                    &&& forall|m: Self::M| Self::ok(c, m) ==> #[trigger] Self::ok(d, m)
                },
                _ => true,
            },
    ;

    /// An operation on two values.
    proof fn law_binary(c: Self::C, op: BinOpV, x: Self::M, y: Self::M)
        requires
            Self::good(c),
            Self::ok(c, x),
            Self::ok(c, y),
            bin_plain(op, Self::shape_of(x), Self::shape_of(y)) is Some,
        ensures
            match Self::binary(c, op, x, y) {
                (d, Ok(z)) => {
                    &&& Self::good(d)
                    &&& Self::base(d) == Self::base(c)
                    &&& Self::ok(d, z)
                    &&& Self::shape_of(z) == bin_plain(
                        op,
                        Self::shape_of(x),
                        Self::shape_of(y),
                    )->0
                    &&& forall|m: Self::M| Self::ok(c, m) ==> #[trigger] Self::ok(d, m)
                },
                _ => true,
            },
    ;

    /// A selection.
    proof fn law_select(c: Self::C, p: Self::M, x: Self::M, y: Self::M)
        requires
            Self::good(c),
            Self::ok(c, p),
            Self::ok(c, x),
            Self::ok(c, y),
            select_plain(Self::shape_of(p), Self::shape_of(x), Self::shape_of(y)) is Some,
        ensures
            match Self::select(c, p, x, y) {
                (d, Ok(z)) => {
                    &&& Self::good(d)
                    &&& Self::base(d) == Self::base(c)
                    &&& Self::ok(d, z)
                    &&& Self::shape_of(z) == Self::shape_of(x)
                    &&& forall|m: Self::M| Self::ok(c, m) ==> #[trigger] Self::ok(d, m)
                },
                _ => true,
            },
    ;
}

/// Whether what stands in one context stands in another, with the same inputs.
pub open spec fn remain<S: Scalar, T: Shaped<S>>(c: T::C, d: T::C) -> bool {
    &&& T::base(d) == T::base(c)
    &&& forall|m: T::M| T::ok(c, m) ==> #[trigger] T::ok(d, m)
}

/// Whether a computation, if it succeeds, leads to a value of shape `s`, and leaves the others.
pub open spec fn leads<S: Scalar, T: Shaped<S>>(
    c: T::C,
    r: (T::C, Result<T::M, Fault>),
    s: Seq<usize>,
) -> bool {
    r.1 matches Ok(y) ==> {
        &&& T::good(r.0)
        &&& T::ok(r.0, y)
        &&& T::shape_of(y) == s
        &&& remain::<S, T>(c, r.0)
    }
}

impl<S: Scalar> Shaped<S> for Tensor<S> {
    open spec fn good(c: ()) -> bool {
        true
    }

    open spec fn base(c: ()) -> Seq<AtomV<S>> {
        Seq::empty()
    }

    open spec fn ok(c: (), m: TensorV<S>) -> bool {
        reals::full(m) && support::dense(m.shape)
    }

    proof fn law_dense(c: (), m: TensorV<S>) {
    }

    proof fn law_constant(c: (), t: TensorV<S>) {
    }

    proof fn law_unary(c: (), op: UnOpV<S>, x: TensorV<S>) {
        lemma_un_dense(op, x.shape);
        let n = x.shape.len();
        match op {
            UnOpV::ReduceSum(axes) => {
                reals::lemma_sum_axes_full(x, axes, n as int, n);
            },
            UnOpV::ExpandDims(axes) => {
                lemma_expanded_full(x, axes);
            },
            UnOpV::MoveAxis(a, b) => {
                lemma_turned(x.shape, a, b);
            },
            _ => {},
        }
    }

    proof fn law_binary(c: (), op: BinOpV, x: TensorV<S>, y: TensorV<S>) {
        lemma_bin_dense(op, x.shape, y.shape);
        if let Ok(s) = model::bin_shape(op, x.shape, y.shape) {
            reals::lemma_bilinear_len(op, x, y, s);
            if op is Dot && y.shape.len() == 2 {
                assert(x.shape.drop_last() + y.shape.subrange(0, 0) + seq![y.shape.last()]
                    =~= x.shape.drop_last().push(y.shape[1]));
            }
        }
    }

    proof fn law_select(c: (), p: TensorV<S>, x: TensorV<S>, y: TensorV<S>) {
        pairing::lemma_same_shape(x.shape);
    }
}

/// A matrix with its axes exchanged.
proof fn lemma_turned(s: Seq<usize>, a: isize, b: isize)
    requires
        s.len() == 2,
        (a == -1 && b == -2) || (a == -2 && b == -1),
    ensures
        model::moved(s, shape::norm_axis(a as int, 2), shape::norm_axis(b as int, 2)) == seq![
            s[1],
            s[0],
        ],
        shape::product(seq![s[1], s[0]]) == shape::product(s),
{
    assert(model::moved(s, shape::norm_axis(a as int, 2), shape::norm_axis(b as int, 2)) =~= seq![
        s[1],
        s[0],
    ]);
    reveal_with_fuel(shape::product, 3);
    let t = seq![s[1], s[0]];
    assert(t.drop_last() =~= seq![s[1]]);
    assert(s.drop_last() =~= seq![s[0]]);
    assert(seq![s[1]].drop_last() =~= Seq::<usize>::empty());
    assert(seq![s[0]].drop_last() =~= Seq::<usize>::empty());
    let (p, q) = (s[0] as nat, s[1] as nat);
    assert((1 * q) * p == (1 * p) * q) by (nonlinear_arith);
}

// ---- traced values ----
/// Whether an atom is a constant, an input, or the result of one of the first `n` equations of a
/// graph under construction.
pub open spec fn known<S>(b: BuilderV<S>, a: AtomV<S>, n: int) -> bool {
    match a.value {
        Some(k) => k.shape == a.shape && reals::full(k),
        None => (exists|i: int| 0 <= i < b.invars.len() && #[trigger] b.invars[i] == a) || (exists|
            j: int,
        | 0 <= j < n && (#[trigger] b.equations[j]).out == a),
    }
}

/// The shape of the result of an operation on atoms.
pub open spec fn prim_plain<S>(p: PrimV<S>) -> Option<Seq<usize>> {
    match p {
        PrimV::Un(op, a) => un_plain(op, a.shape),
        PrimV::Bin(op, a, b) => bin_plain(op, a.shape, b.shape),
        PrimV::Select(c, a, b) => select_plain(c.shape, a.shape, b.shape),
    }
}

/// Whether equation `j` of a graph under construction is recorded with its shape, on atoms before
/// it.
pub open spec fn eqn_plain<S>(b: BuilderV<S>, j: int) -> bool {
    let (p, out) = (b.equations[j].prim, b.equations[j].out);
    &&& out == nn::variable::<S>(tracer::generated(
        (tracer::first_number(tracer::atom_names(b.invars)) + j) as nat,
    ), out.shape)
    &&& support::dense(out.shape)
    &&& prim_plain(p) == Some(out.shape)
    &&& forall|i: int|
        0 <= i < nn::operands_of(p).len() ==> known(b, #[trigger] nn::operands_of(p)[i], j)
            && support::dense(nn::operands_of(p)[i].shape)
}

/// Whether all equations of a graph under construction are recorded with their shapes.
pub open spec fn all_plain<S>(b: BuilderV<S>) -> bool {
    &&& b.next == tracer::first_number(tracer::atom_names(b.invars)) + b.equations.len()
    &&& b.next <= usize::MAX
    &&& forall|i: int|
        0 <= i < b.invars.len() ==> (#[trigger] b.invars[i]).value is None && support::dense(
            b.invars[i].shape,
        )
    &&& forall|j: int| 0 <= j < b.equations.len() ==> #[trigger] eqn_plain(b, j)
}

/// Whether a traced value stands for an atom of a graph under construction.
pub open spec fn placed<S>(b: BuilderV<S>, m: TracerV<S>) -> bool {
    known(b, m.atom, b.equations.len() as int) && support::dense(m.atom.shape)
}

/// What is known stays known.
proof fn lemma_known_later<S>(b: BuilderV<S>, d: BuilderV<S>, a: AtomV<S>, j: int)
    requires
        0 <= j <= b.equations.len() <= d.equations.len(),
        d.invars == b.invars,
        forall|k: int| 0 <= k < b.equations.len() ==> d.equations[k] == #[trigger] b.equations[k],
        known(b, a, j),
    ensures
        known(d, a, j),
{
    if a.value is None {
        if exists|i: int| 0 <= i < b.invars.len() && #[trigger] b.invars[i] == a {
            let i = choose|i: int| 0 <= i < b.invars.len() && #[trigger] b.invars[i] == a;
            assert(d.invars[i] == a);
        } else {
            let k = choose|k: int| 0 <= k < j && (#[trigger] b.equations[k]).out == a;
            assert(d.equations[k].out == a);
        }
    }
}

/// A recorded equation.
proof fn lemma_recorded<S: Scalar>(b: BuilderV<S>, p: PrimV<S>, s: Seq<usize>)
    requires
        all_plain(b),
        prim_plain(p) == Some(s),
        support::dense(s),
        forall|i: int|
            0 <= i < nn::operands_of(p).len() ==> known(
                b,
                #[trigger] nn::operands_of(p)[i],
                b.equations.len() as int,
            ) && support::dense(nn::operands_of(p)[i].shape),
    ensures
        tracer::emitted(b, p, Ok(s)).1 matches Ok(y) ==> {
            let d = tracer::emitted(b, p, Ok(s)).0;
            &&& all_plain(d)
            &&& placed(d, y)
            &&& y.atom.shape == s
            &&& forall|m: TracerV<S>| placed(b, m) ==> #[trigger] placed(d, m)
        },
{
    let d = tracer::extended(b, p, s);
    let n = b.equations.len() as int;
    assert forall|a: AtomV<S>, j: int| 0 <= j <= n && known(b, a, j) implies #[trigger] known(
        d,
        a,
        j,
    ) by {
        lemma_known_later(b, d, a, j);
    }
    assert forall|j: int| 0 <= j < d.equations.len() implies #[trigger] eqn_plain(d, j) by {
        if j < n {
            assert(eqn_plain(b, j));
            assert(d.equations[j] == b.equations[j]);
        }
    }
    assert forall|m: TracerV<S>| placed(b, m) implies #[trigger] placed(d, m) by {
        lemma_known_later(b, d, m.atom, n);
        if m.atom.value is None && !exists|i: int|
            0 <= i < d.invars.len() && #[trigger] d.invars[i] == m.atom {
            let k = choose|k: int| 0 <= k < n && (#[trigger] d.equations[k]).out == m.atom;
            assert(d.equations[k].out == m.atom);
        }
    }
    let y = tracer::tracing(nn::variable::<S>(tracer::generated(b.next), s));
    assert(d.equations[n].out == y.atom);
    assert(placed(d, y));
}

impl<S: Scalar> Shaped<S> for Tracer<S> {
    open spec fn good(c: BuilderV<S>) -> bool {
        all_plain(c)
    }

    open spec fn base(c: BuilderV<S>) -> Seq<AtomV<S>> {
        c.invars
    }

    open spec fn ok(c: BuilderV<S>, m: TracerV<S>) -> bool {
        placed(c, m)
    }

    proof fn law_dense(c: BuilderV<S>, m: TracerV<S>) {
    }

    proof fn law_constant(c: BuilderV<S>, t: TensorV<S>) {
    }

    proof fn law_unary(c: BuilderV<S>, op: UnOpV<S>, x: TracerV<S>) {
        let s = un_plain(op, x.atom.shape)->0;
        lemma_un_dense(op, x.atom.shape);
        if !x.traced && x.atom.value is Some {
            Tensor::<S>::law_unary((), op, x.atom.value->0);
        } else {
            if op is MoveAxis {
                lemma_turned(x.atom.shape, op->MoveAxis_0, op->MoveAxis_1);
            }
            if tracer::traced_un_shape(op, x.atom.shape) is Ok {
                lemma_recorded(c, PrimV::Un(op, x.atom), s);
            }
        }
    }

    proof fn law_binary(c: BuilderV<S>, op: BinOpV, x: TracerV<S>, y: TracerV<S>) {
        let s = bin_plain(op, x.atom.shape, y.atom.shape)->0;
        lemma_bin_dense(op, x.atom.shape, y.atom.shape);
        if !x.traced && !y.traced && x.atom.value is Some && y.atom.value is Some {
            Tensor::<S>::law_binary((), op, x.atom.value->0, y.atom.value->0);
        } else {
            let (a, b) = (x.atom.shape, y.atom.shape);
            if op is Dot && b.len() == 2 {
                assert(a.drop_last() + b.subrange(0, 0) + seq![b.last()] =~= a.drop_last().push(
                    b[1],
                ));
            }
            lemma_recorded(c, PrimV::Bin(op, x.atom, y.atom), s);
        }
    }

    proof fn law_select(c: BuilderV<S>, p: TracerV<S>, x: TracerV<S>, y: TracerV<S>) {
        if !p.traced && !x.traced && !y.traced && p.atom.value is Some && x.atom.value is Some
            && y.atom.value is Some {
            Tensor::<S>::law_select((), p.atom.value->0, x.atom.value->0, y.atom.value->0);
        } else {
            lemma_recorded(c, PrimV::Select(p.atom, x.atom, y.atom), x.atom.shape);
        }
    }
}

// ---- programs ----
/// Whether values stand in a context with the given shapes.
pub open spec fn all_ok<S: Scalar, T: Shaped<S>>(
    c: T::C,
    xs: Seq<T::M>,
    ss: Seq<Seq<usize>>,
) -> bool {
    &&& xs.len() == ss.len()
    &&& forall|i: int| 0 <= i < xs.len() ==> T::ok(c, #[trigger] xs[i]) && T::shape_of(xs[i]) == ss[i]
}

/// One step of a program.
pub proof fn lemma_step_shape<S: Scalar, T: Shaped<S>>(
    c: T::C,
    s: StepV<S>,
    ins: Seq<T::M>,
    done: Seq<T::M>,
    si: Seq<Seq<usize>>,
    sd: Seq<Seq<usize>>,
)
    requires
        T::good(c),
        all_ok::<S, T>(c, ins, si),
        all_ok::<S, T>(c, done, sd),
        step_plain(s, si, sd) is Some,
    ensures
        leads::<S, T>(c, value::step::<S, T>(c, s, ins, done), step_plain(s, si, sd)->0),
{
    match s {
        StepV::Load(t) => {
            T::law_constant(c, t);
        },
        StepV::Un(op, r) => {
            T::law_unary(c, op, value::fetched(r, ins, done)->0);
        },
        StepV::Bin(op, r, q) => {
            T::law_binary(c, op, value::fetched(r, ins, done)->0, value::fetched(q, ins, done)->0);
        },
        StepV::Select(p, r, q) => {
            T::law_select(
                c,
                value::fetched(p, ins, done)->0,
                value::fetched(r, ins, done)->0,
                value::fetched(q, ins, done)->0,
            );
        },
        StepV::SumAll(r) => {
            let x = value::fetched(r, ins, done)->0;
            let z = T::shape_of(x);
            lemma_all_axes(z);
            T::law_unary(c, UnOpV::ReduceSum(value::all_axes(z.len())), x);
        },
    }
}

/// A step does not refer to results after it.
pub proof fn lemma_looks_back<S>(s: StepV<S>, ins: Seq<Seq<usize>>, ss: Seq<Seq<usize>>, i: int)
    requires
        0 <= i <= ss.len(),
        looks_back(s, i),
    ensures
        step_plain(s, ins, ss.subrange(0, i)) == step_plain(s, ins, ss),
{
}

/// More results after a step do not change its shape.
pub proof fn lemma_more_shapes<S>(
    s: StepV<S>,
    ins: Seq<Seq<usize>>,
    a: Seq<Seq<usize>>,
    b: Seq<Seq<usize>>,
    i: int,
)
    requires
        0 <= i <= a.len() <= b.len(),
        looks_back(s, i),
        forall|k: int| 0 <= k < a.len() ==> a[k] == #[trigger] b[k],
    ensures
        step_plain(s, ins, a) == step_plain(s, ins, b),
{
}

/// The rest of a program.
proof fn lemma_play_shapes<S: Scalar, T: Shaped<S>>(
    c: T::C,
    steps: Seq<StepV<S>>,
    ins: Seq<T::M>,
    done: Seq<T::M>,
    si: Seq<Seq<usize>>,
    ss: Seq<Seq<usize>>,
)
    requires
        T::good(c),
        shaped_by(steps, si, ss),
        all_ok::<S, T>(c, ins, si),
        done.len() <= steps.len(),
        all_ok::<S, T>(c, done, ss.subrange(0, done.len() as int)),
    ensures
        value::play::<S, T>(c, steps, ins, done).1 matches Ok(all) ==> {
            let d = value::play::<S, T>(c, steps, ins, done).0;
            T::good(d) && remain::<S, T>(c, d) && all_ok::<S, T>(d, all, ss)
        },
    decreases steps.len() - done.len(),
{
    let n = done.len() as int;
    if n < steps.len() {
        let s = steps[n];
        assert(step_shaped(steps, si, ss, n));
        lemma_looks_back(s, si, ss, n);
        lemma_step_shape::<S, T>(c, s, ins, done, si, ss.subrange(0, n));
        match value::step::<S, T>(c, s, ins, done) {
            (d, Ok(y)) => {
                assert(all_ok::<S, T>(d, done.push(y), ss.subrange(0, n + 1)));
                lemma_play_shapes::<S, T>(d, steps, ins, done.push(y), si, ss);
                let f = value::play::<S, T>(d, steps, ins, done.push(y)).0;
                assert(value::play::<S, T>(d, steps, ins, done.push(y)).1 is Ok ==> remain::<S, T>(
                    c,
                    f,
                )) by {
                    if value::play::<S, T>(d, steps, ins, done.push(y)).1 is Ok {
                        assert forall|m: T::M| T::ok(c, m) implies #[trigger] T::ok(f, m) by {
                            assert(T::ok(d, m));
                        }
                    }
                }
            },
            _ => {},
        }
    } else {
        assert(ss.subrange(0, n) =~= ss);
    }
}

/// The results of a program have the shapes that its steps give.
pub proof fn lemma_run_shapes<S: Scalar, T: Shaped<S>>(
    c: T::C,
    steps: Seq<StepV<S>>,
    ins: Seq<T::M>,
    si: Seq<Seq<usize>>,
    ss: Seq<Seq<usize>>,
)
    requires
        T::good(c),
        shaped_by(steps, si, ss),
        all_ok::<S, T>(c, ins, si),
    ensures
        value::run_steps::<S, T>(c, steps, ins).1 matches Ok(all) ==> {
            let d = value::run_steps::<S, T>(c, steps, ins).0;
            T::good(d) && remain::<S, T>(c, d) && all_ok::<S, T>(d, all, ss)
        },
{
    assert(ss.subrange(0, 0) =~= Seq::<Seq<usize>>::empty());
    lemma_play_shapes::<S, T>(c, steps, ins, Seq::empty(), si, ss);
}

/// The shapes of the values in the places `outs`.
pub open spec fn out_shapes(
    outs: Seq<Reg>,
    si: Seq<Seq<usize>>,
    ss: Seq<Seq<usize>>,
) -> Seq<Seq<usize>> {
    Seq::new(outs.len(), |i: int| value::fetched(outs[i], si, ss)->0)
}

/// Picked results.
proof fn lemma_picked_shapes<S: Scalar, T: Shaped<S>>(
    c: T::C,
    outs: Seq<Reg>,
    ins: Seq<T::M>,
    done: Seq<T::M>,
    si: Seq<Seq<usize>>,
    ss: Seq<Seq<usize>>,
    k: nat,
)
    requires
        all_ok::<S, T>(c, ins, si),
        all_ok::<S, T>(c, done, ss),
        k <= outs.len(),
    ensures
        vjp::picked_all(outs, ins, done, k) matches Ok(v) ==> all_ok::<S, T>(
            c,
            v,
            out_shapes(outs, si, ss).subrange(0, k as int),
        ),
    decreases k,
{
    if k > 0 {
        lemma_picked_shapes::<S, T>(c, outs, ins, done, si, ss, (k - 1) as nat);
    }
}

/// The results of a program with places have the shapes that its steps give.
pub proof fn lemma_applied_shapes<S: Scalar, T: Shaped<S>>(
    c: T::C,
    rule: RuleV<S>,
    ins: Seq<T::M>,
    si: Seq<Seq<usize>>,
    ss: Seq<Seq<usize>>,
)
    requires
        T::good(c),
        shaped_by(rule.steps, si, ss),
        all_ok::<S, T>(c, ins, si),
    ensures
        vjp::applied::<S, T>(c, rule, ins).1 matches Ok(v) ==> {
            let d = vjp::applied::<S, T>(c, rule, ins).0;
            T::good(d) && remain::<S, T>(c, d) && all_ok::<S, T>(
                d,
                v,
                out_shapes(rule.outs, si, ss),
            )
        },
{
    lemma_run_shapes::<S, T>(c, rule.steps, ins, si, ss);
    let n = rule.outs.len();
    match value::run_steps::<S, T>(c, rule.steps, ins) {
        (d, Ok(done)) => {
            lemma_picked_shapes::<S, T>(d, rule.outs, ins, done, si, ss, n);
            let os = out_shapes(rule.outs, si, ss);
            assert(os.subrange(0, n as int) =~= os);
        },
        _ => {},
    }
}

// ---- broadcasts taken back ----
/// Leaving out one axis.
#[verifier::spinoff_prover]
proof fn lemma_drop_single<S: Scalar>(s: Seq<usize>, axis: isize)
    requires
        s.len() <= isize::MAX,
        shape::axis_ok(axis as int, s.len() as int),
    ensures
        un_plain::<S>(UnOpV::ReduceSum(seq![axis]), s) == Some(
            s.remove(shape::norm_axis(axis as int, s.len() as int)),
        ),
{
    let n = s.len();
    let t = model::filled(s, scalar::zero::<S>());
    reals::lemma_sum_axes_full(t, seq![axis], n as int, n);
    unspread::lemma_single_axis(t, axis, n as int, n);
    unspread::lemma_unnamed_single(axis, n as int, n);
}

/// Putting in one axis.
#[verifier::spinoff_prover]
pub proof fn lemma_expand_plain<S: Scalar>(s: Seq<usize>, axis: isize)
    requires
        s.len() + 1 <= isize::MAX,
        shape::axis_ok(axis as int, (s.len() + 1) as int),
    ensures
        un_plain::<S>(UnOpV::ExpandDims(seq![axis]), s) == Some(
            s.insert(shape::norm_axis(axis as int, (s.len() + 1) as int), 1),
        ),
{
    let ax = shape::norm_axis(axis as int, (s.len() + 1) as int);
    let t = s.insert(ax, 1);
    assert(t.remove(ax) =~= s);
    unspread::lemma_expand_single(t, axis);
    assert(t.update(ax, 1) =~= t);
    unspread::lemma_unnamed_single(axis, t.len() as int, t.len());
}

/// The shape after the first `i` operations of a chain.
pub open spec fn shape_after<S>(ops: Seq<UnOpV<S>>, s: Seq<usize>, i: nat) -> Seq<usize>
    decreases i,
{
    if i == 0 {
        s
    } else {
        un_plain(ops[i - 1], shape_after(ops, s, (i - 1) as nat))->0
    }
}

/// Whether the first `m` operations of a chain have results of these shapes.
pub open spec fn chain_plain<S>(ops: Seq<UnOpV<S>>, s: Seq<usize>, m: nat) -> bool {
    forall|i: nat| i < m ==> un_plain(#[trigger] ops[i as int], shape_after(ops, s, i)) is Some
}

/// The leading axes.
#[verifier::spinoff_prover]
#[verifier::rlimit(40)]
proof fn lemma_lead_shapes<S: Scalar>(
    ops: Seq<UnOpV<S>>,
    from: Seq<usize>,
    to: Seq<usize>,
    i: nat,
)
    requires
        to.len() <= from.len() <= isize::MAX,
        vjp::unbroadcast_ops::<S>(from, to) == Ok::<Seq<UnOpV<S>>, Fault>(ops),
        i <= from.len() - to.len(),
    ensures
        chain_plain(ops, from, i),
        shape_after(ops, from, i) == from.subrange(i as int, from.len() as int),
    decreases i,
{
    if i > 0 {
        let j = (i - 1) as nat;
        lemma_lead_shapes(ops, from, to, j);
        let s = shape_after(ops, from, j);
        assert(ops[j as int] == UnOpV::<S>::ReduceSum(seq![0isize]));
        lemma_drop_single::<S>(s, 0);
        assert(s.remove(0) =~= from.subrange(i as int, from.len() as int));
    } else {
        assert(from.subrange(0, from.len() as int) =~= from);
    }
}

/// One axis is summed up and put back.
#[verifier::spinoff_prover]
#[verifier::rlimit(50)]
proof fn lemma_two_more<S: Scalar>(
    ops: Seq<UnOpV<S>>,
    s: Seq<usize>,
    m: nat,
    h: Seq<usize>,
    axis: isize,
)
    requires
        chain_plain(ops, s, m),
        shape_after(ops, s, m) == h,
        0 <= axis < h.len() <= isize::MAX,
        ops[m as int] == UnOpV::<S>::ReduceSum(seq![axis]),
        ops[m as int + 1] == UnOpV::<S>::ExpandDims(seq![axis]),
    ensures
        chain_plain(ops, s, m + 2),
        shape_after(ops, s, m + 2) == h.update(axis as int, 1),
{
    let r = h.remove(axis as int);
    lemma_drop_single::<S>(h, axis);
    assert(shape_after(ops, s, m + 1) == r);
    lemma_expand_plain::<S>(r, axis);
    assert(r.insert(axis as int, 1) =~= h.update(axis as int, 1));
    assert(shape_after(ops, s, m + 2) == r.insert(axis as int, 1));
}

/// The axes that were expanded from length one.
#[verifier::spinoff_prover]
#[verifier::rlimit(40)]
proof fn lemma_squeeze_shapes<S: Scalar>(
    ops: Seq<UnOpV<S>>,
    from: Seq<usize>,
    to: Seq<usize>,
    k: nat,
)
    requires
        from.len() <= isize::MAX,
        shape::expands_to(to, from),
        support::dense(from),
        vjp::unbroadcast_ops::<S>(from, to) == Ok::<Seq<UnOpV<S>>, Fault>(ops),
        k <= to.len(),
    ensures
        ({
            let d = from.len() - to.len();
            let m = (d + vjp::squeeze::<S>(from, to, d, k).len()) as nat;
            &&& m <= ops.len()
            &&& chain_plain(ops, from, m)
            &&& shape_after(ops, from, m) == unspread::half_done(from, to, k as int)
        }),
    decreases k,
{
    let d = from.len() - to.len();
    let m = (d + vjp::squeeze::<S>(from, to, d, k).len()) as nat;
    unspread::lemma_squeeze_prefix::<S>(from, to, d, k, to.len());
    if k > 0 {
        let j = (k - 1) as nat;
        lemma_squeeze_shapes(ops, from, to, j);
        let m0 = (d + vjp::squeeze::<S>(from, to, d, j).len()) as nat;
        let h = unspread::half_done(from, to, j as int);
        let axis = j as isize;
        assert(to[j as int] == 1 || to[j as int] == from[j + from.len() - to.len()]);
        assert(from[d + j] > 0);
        if to[j as int] == 1 && from[d + j] > 1 {
            let (sq, all) = (
                vjp::squeeze::<S>(from, to, d, k),
                vjp::squeeze::<S>(from, to, d, to.len()),
            );
            assert(sq[m0 - d] == all[m0 - d] && sq[m0 + 1 - d] == all[m0 + 1 - d]);
            assert(ops[m0 as int] == all[m0 - d] && ops[m0 as int + 1] == all[m0 + 1 - d]);
            lemma_two_more(ops, from, m0, h, axis);
            assert(h.update(j as int, 1) =~= unspread::half_done(from, to, k as int));
        } else {
            assert(h =~= unspread::half_done(from, to, k as int));
        }
    } else {
        lemma_lead_shapes(ops, from, to, d as nat);
        assert(from.subrange(d, from.len() as int) =~= unspread::half_done(from, to, 0));
    }
}

/// The shapes of the results of the operations that take a broadcast back.
pub proof fn lemma_chain_shapes<S: Scalar>(from: Seq<usize>, to: Seq<usize>) -> (ss: Seq<
    Seq<usize>,
>)
    requires
        from.len() <= isize::MAX,
        shape::expands_to(to, from),
        support::dense(from),
    ensures
        ({
            let ops = vjp::unbroadcast_ops::<S>(from, to)->Ok_0;
            &&& vjp::unbroadcast_ops::<S>(from, to) is Ok
            &&& ops.len() <= usize::MAX
            &&& shaped_by(vjp::chain(ops, Reg::In(0), 0), seq![from], ss)
            &&& (if ops.len() == 0 {
                from
            } else {
                ss[ops.len() - 1]
            }) == to
        }),
{
    let d = from.len() - to.len();
    let ops = vjp::unbroadcast_ops::<S>(from, to)->Ok_0;
    lemma_squeeze_shapes(ops, from, to, to.len());
    unspread::lemma_squeeze_len::<S>(from, to, d, to.len());
    assert(unspread::half_done(from, to, to.len() as int) =~= to);
    let n = ops.len();
    assert(shape_after(ops, from, n) == to);
    let steps = vjp::chain(ops, Reg::In(0), 0);
    let ss = Seq::new(n, |i: int| shape_after(ops, from, (i + 1) as nat));
    assert forall|i: int| 0 <= i < n implies #[trigger] step_shaped(
        steps,
        seq![from],
        ss,
        i,
    ) by {
        assert(un_plain(ops[i], shape_after(ops, from, i as nat)) is Some);
        if i > 0 {
            assert(ss[i - 1] == shape_after(ops, from, i as nat));
        }
    }
    assert(n > 0 ==> ss[n - 1] == to);
    ss
}

/// Taking a broadcast back leads to a value of the shape before it.
pub proof fn lemma_unbroadcast_shape<S: Scalar, T: Shaped<S>>(c: T::C, g: T::M, to: Seq<usize>)
    requires
        T::good(c),
        T::ok(c, g),
        T::shape_of(g).len() <= isize::MAX,
        shape::expands_to(to, T::shape_of(g)),
    ensures
        leads::<S, T>(c, vjp::unbroadcasted::<S, T>(c, g, to), to),
{
    let from = T::shape_of(g);
    T::law_dense(c, g);
    let ss = lemma_chain_shapes::<S>(from, to);
    let ops = vjp::unbroadcast_ops::<S>(from, to)->Ok_0;
    let steps = vjp::chain(ops, Reg::In(0), 0);
    assert(all_ok::<S, T>(c, seq![g], seq![from]));
    lemma_run_shapes::<S, T>(c, steps, seq![g], seq![from], ss);
}

} // verus!
