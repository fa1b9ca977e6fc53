//! Walks through networks of layers: the shapes of their weights.

use vstd::prelude::*;
use crate::affine;
use crate::affine::{AffineV, DotForm, DotV};
use crate::crown;
use crate::crown::{ParamsV, StartV, WalkV};
use crate::exact;
use crate::interval::IBPV;
use crate::layered;
use crate::matrices;
use crate::model;
use crate::model::{BinOpV, Fault, TensorV, UnOpV};
use crate::nn;
use crate::nn::{AtomV, EqnV, GraphV, PrimV};
use crate::pairing;
use crate::reals;
use crate::scalar;
use crate::scalar::Scalar;
use crate::shape;
use crate::shaping;
use crate::shaping::Shaped;
use crate::support;
use crate::tensor::Tensor;
use crate::value;
use crate::value::{Reg, StepV};
use crate::vjp;
use crate::vjp::RuleV;

verus! {

// ---- programs ----
/// The shape of a number.
pub open spec fn point() -> Seq<usize> {
    Seq::empty()
}

/// Facts about shapes that meet themselves and numbers.
pub proof fn lemma_meets(s: Seq<usize>)
    ensures
        shape::broadcast(s, s) == Some(s),
        shape::broadcast(s, point()) == Some(s),
        shape::broadcast(point(), s) == Some(s),
        shape::broadcast(point(), point()) == Some(point()),
        shape::product(point()) == 1,
        support::dense(point()),
{
    pairing::lemma_same_shape(s);
    pairing::lemma_same_shape(point());
    pairing::lemma_scalar_shape(s);
}

/// The shapes of the results of the program of a rectifier.
pub open spec fn relu_shapes(s: Seq<usize>) -> Seq<Seq<usize>> {
    let z = point();
    seq![z, s, z, s, s, s, s, s, s, s, s, s, s, s, s, s, z]
}

/// The program of a rectifier.
#[verifier::spinoff_prover]
#[verifier::rlimit(40)]
pub proof fn lemma_relu_program<S: Scalar>(slope: S, x: IBPV<S>, si: Seq<Seq<usize>>)
    requires
        si.len() >= 2,
        si[0] == x.lb.shape,
        si[1] == x.lb.shape,
        layered::spans(x, x.lb.shape),
        support::dense(x.lb.shape),
        x.lb.shape.len() <= isize::MAX,
    ensures
        shaping::shaped_by(affine::relu_rule(slope, x).steps, si, relu_shapes(x.lb.shape)),
{
    let s = x.lb.shape;
    reveal(affine::relu_rule);
    let steps = affine::relu_rule(slope, x).steps;
    let ss = relu_shapes(s);
    lemma_meets(s);
    assert(shaping::step_shaped(steps, si, ss, 0));
    assert(shaping::step_shaped(steps, si, ss, 1));
    assert(shaping::step_shaped(steps, si, ss, 2));
    assert(shaping::step_shaped(steps, si, ss, 3));
    assert(shaping::step_shaped(steps, si, ss, 4));
    assert(shaping::step_shaped(steps, si, ss, 5));
    assert(shaping::step_shaped(steps, si, ss, 6));
    assert(shaping::step_shaped(steps, si, ss, 7));
    assert(shaping::step_shaped(steps, si, ss, 8));
    assert(shaping::step_shaped(steps, si, ss, 9));
    assert(shaping::step_shaped(steps, si, ss, 10));
    assert(shaping::step_shaped(steps, si, ss, 11));
    assert(shaping::step_shaped(steps, si, ss, 12));
    assert(shaping::step_shaped(steps, si, ss, 13));
    assert(shaping::step_shaped(steps, si, ss, 14));
    assert(shaping::step_shaped(steps, si, ss, 15));
    assert(shaping::step_shaped(steps, si, ss, 16));
    assert forall|i: int| 0 <= i < 17 implies #[trigger] shaping::step_shaped(steps, si, ss, i) by {
        if i == 0 {
            assert(shaping::step_shaped(steps, si, ss, 0));
        } else if i == 1 {
            assert(shaping::step_shaped(steps, si, ss, 1));
        } else if i == 2 {
            assert(shaping::step_shaped(steps, si, ss, 2));
        } else if i == 3 {
            assert(shaping::step_shaped(steps, si, ss, 3));
        } else if i == 4 {
            assert(shaping::step_shaped(steps, si, ss, 4));
        } else if i == 5 {
            assert(shaping::step_shaped(steps, si, ss, 5));
        } else if i == 6 {
            assert(shaping::step_shaped(steps, si, ss, 6));
        } else if i == 7 {
            assert(shaping::step_shaped(steps, si, ss, 7));
        } else if i == 8 {
            assert(shaping::step_shaped(steps, si, ss, 8));
        } else if i == 9 {
            assert(shaping::step_shaped(steps, si, ss, 9));
        } else if i == 10 {
            assert(shaping::step_shaped(steps, si, ss, 10));
        } else if i == 11 {
            assert(shaping::step_shaped(steps, si, ss, 11));
        } else if i == 12 {
            assert(shaping::step_shaped(steps, si, ss, 12));
        } else if i == 13 {
            assert(shaping::step_shaped(steps, si, ss, 13));
        } else if i == 14 {
            assert(shaping::step_shaped(steps, si, ss, 14));
        } else if i == 15 {
            assert(shaping::step_shaped(steps, si, ss, 15));
        } else if i == 16 {
            assert(shaping::step_shaped(steps, si, ss, 16));
        }
    }
}

/// The program of a rectifier under constraints.
#[verifier::spinoff_prover]
#[verifier::rlimit(40)]
proof fn lemma_constrained_program<S: Scalar>(
    slope: S,
    x: IBPV<S>,
    t: TensorV<S>,
    si: Seq<Seq<usize>>,
)
    requires
        si.len() >= 3,
        si[0] == x.lb.shape,
        si[1] == x.lb.shape,
        si[2] == x.lb.shape,
        layered::spans(x, x.lb.shape),
        support::dense(x.lb.shape),
        x.lb.shape.len() <= isize::MAX,
        t.shape == x.lb.shape,
        reals::full(t),
    ensures
        ({
            let rule = crown::constrained(Ok(affine::relu_rule(slope, x)), t)->Ok_0;
            let s = x.lb.shape;
            shaping::shaped_by(rule.steps, si, relu_shapes(s) + seq![s, s, s, s])
        }),
{
    let s = x.lb.shape;
    reveal(affine::relu_rule);
    let first = affine::relu_rule(slope, x).steps;
    let steps = (crown::constrained(Ok(affine::relu_rule(slope, x)), t)->Ok_0).steps;
    let (s0, ss) = (relu_shapes(s), relu_shapes(s) + seq![s, s, s, s]);
    lemma_meets(s);
    lemma_relu_program(slope, x, si);
    assert forall|i: int| 0 <= i < steps.len() implies #[trigger] shaping::step_shaped(
        steps,
        si,
        ss,
        i,
    ) by {
        if i < 17 {
            assert(shaping::step_shaped(first, si, s0, i));
            shaping::lemma_more_shapes(steps[i], si, s0, ss, i);
        } else if i == 17 {
            assert(steps[17] == StepV::Load(t));
        } else if i == 18 {
            assert(steps[18] == StepV::<S>::Bin(BinOpV::Mul, Reg::In(2), Reg::Out(17)));
        } else if i == 19 {
            assert(steps[19] == StepV::<S>::Un(UnOpV::Neg, Reg::Out(18)));
        } else {
            assert(steps[20] == StepV::<S>::Bin(BinOpV::Add, Reg::Out(14), Reg::Out(19)));
        }
    }
}

/// The program that takes the weight of a constant to the bias.
pub proof fn lemma_absorb_program<S: Scalar>(s: Seq<usize>)
    requires
        support::dense(s),
        s.len() <= isize::MAX,
    ensures
        shaping::shaped_by(
            crown::absorb_steps::<S>(),
            seq![s, s, point()],
            seq![s, point(), point()],
        ),
{
    let (steps, si, ss) = (
        crown::absorb_steps::<S>(),
        seq![s, s, point()],
        seq![s, point(), point()],
    );
    lemma_meets(s);
    assert(shaping::step_shaped(steps, si, ss, 0));
    assert(shaping::step_shaped(steps, si, ss, 1));
    assert(shaping::step_shaped(steps, si, ss, 2));
    assert forall|i: int| 0 <= i < 3 implies #[trigger] shaping::step_shaped(steps, si, ss, i) by {
        if i == 0 {
            assert(shaping::step_shaped(steps, si, ss, 0));
        } else if i == 1 {
            assert(shaping::step_shaped(steps, si, ss, 1));
        } else if i == 2 {
            assert(shaping::step_shaped(steps, si, ss, 2));
        }
    }
}

/// The program of the least value on a box.
proof fn lemma_concretize_program<S: Scalar>(s: Seq<usize>)
    requires
        support::dense(s),
        s.len() <= isize::MAX,
    ensures
        shaping::shaped_by(
            affine::concretize_steps::<S>(),
            seq![s, point(), s, s],
            seq![s, s, s, s, point(), point(), s, point(), point()],
        ),
{
    let (steps, si, ss) = (
        affine::concretize_steps::<S>(),
        seq![s, point(), s, s],
        seq![s, s, s, s, point(), point(), s, point(), point()],
    );
    lemma_meets(s);
    assert(shaping::step_shaped(steps, si, ss, 0));
    assert(shaping::step_shaped(steps, si, ss, 1));
    assert(shaping::step_shaped(steps, si, ss, 2));
    assert(shaping::step_shaped(steps, si, ss, 3));
    assert(shaping::step_shaped(steps, si, ss, 4));
    assert(shaping::step_shaped(steps, si, ss, 5));
    assert(shaping::step_shaped(steps, si, ss, 6));
    assert(shaping::step_shaped(steps, si, ss, 7));
    assert(shaping::step_shaped(steps, si, ss, 8));
    assert forall|i: int| 0 <= i < 9 implies #[trigger] shaping::step_shaped(steps, si, ss, i) by {
        if i == 0 {
            assert(shaping::step_shaped(steps, si, ss, 0));
        } else if i == 1 {
            assert(shaping::step_shaped(steps, si, ss, 1));
        } else if i == 2 {
            assert(shaping::step_shaped(steps, si, ss, 2));
        } else if i == 3 {
            assert(shaping::step_shaped(steps, si, ss, 3));
        } else if i == 4 {
            assert(shaping::step_shaped(steps, si, ss, 4));
        } else if i == 5 {
            assert(shaping::step_shaped(steps, si, ss, 5));
        } else if i == 6 {
            assert(shaping::step_shaped(steps, si, ss, 6));
        } else if i == 7 {
            assert(shaping::step_shaped(steps, si, ss, 7));
        } else if i == 8 {
            assert(shaping::step_shaped(steps, si, ss, 8));
        }
    }
}

/// A row and a column meet.
proof fn lemma_outer_shape(n: usize, m: usize)
    ensures
        shape::broadcast(seq![n, 1], seq![1, m]) == Some(seq![n, m]),
{
    let (a, b) = (seq![n, 1], seq![1, m]);
    assert forall|i: int| 0 <= i < 2 implies shape::dims_agree(
        #[trigger] shape::aligned(a, 2, i),
        shape::aligned(b, 2, i),
    ) by {
        if i == 0 {
            assert(shape::aligned(b, 2, 0) == 1);
        } else {
            assert(shape::aligned(a, 2, 1) == 1);
        }
    }
    assert(shape::broadcast(a, b)->0 =~= seq![n, m]);
}

/// Whether a tensor fills a shape without empty axes.
pub open spec fn fills<S>(t: TensorV<S>, s: Seq<usize>) -> bool {
    t.shape == s && reals::full(t) && support::dense(s)
}

/// A contraction.
pub proof fn lemma_dot_fills<S: Scalar>(a: TensorV<S>, b: TensorV<S>, t: TensorV<S>, s: Seq<usize>)
    requires
        fills(a, a.shape),
        fills(b, b.shape),
        shaping::bin_plain(BinOpV::Dot, a.shape, b.shape) == Some(s),
        model::bin_tensor(BinOpV::Dot, a, b) == Ok::<TensorV<S>, Fault>(t),
    ensures
        fills(t, s),
{
    Tensor::<S>::law_binary((), BinOpV::Dot, a, b);
}

/// An exchange of the axes of a matrix.
pub proof fn lemma_turn_fills<S: Scalar>(a: TensorV<S>, t: TensorV<S>)
    requires
        fills(a, a.shape),
        a.shape.len() == 2,
        model::un_tensor(UnOpV::MoveAxis(0, 1), a) == Ok::<TensorV<S>, Fault>(t),
    ensures
        fills(t, seq![a.shape[1], a.shape[0]]),
{
    matrices::lemma_transpose(a, t);
    assert(a.shape[0] > 0 && a.shape[1] > 0);
}

/// A vector with one more axis.
pub proof fn lemma_expand_fills<S: Scalar>(a: TensorV<S>, axis: isize, t: TensorV<S>)
    requires
        fills(a, a.shape),
        a.shape.len() == 1,
        axis == 0 || axis == 1,
        model::un_tensor(UnOpV::ExpandDims(seq![axis]), a) == Ok::<TensorV<S>, Fault>(t),
    ensures
        fills(
            t,
            if axis == 0 {
                seq![1, a.shape[0]]
            } else {
                seq![a.shape[0], 1]
            },
        ),
{
    shaping::lemma_expand_plain::<S>(a.shape, axis);
    Tensor::<S>::law_unary((), UnOpV::ExpandDims(seq![axis]), a);
    shaping::lemma_un_dense(UnOpV::<S>::ExpandDims(seq![axis]), a.shape);
    let e = a.shape.insert(axis as int, 1);
    assert(e =~= (if axis == 0 {
        seq![1, a.shape[0]]
    } else {
        seq![a.shape[0], 1]
    }));
}

/// The shapes of its results.
pub open spec fn vector_shapes(n: usize, m: usize) -> Seq<Seq<usize>> {
    let (z, u, w, f) = (point(), seq![m], seq![n], seq![n, m]);
    seq![u, u, u, f, w, f, w, seq![n, 1], seq![1, m], w, f, u, u, u, u, z, u, u, z, z, z]
}

/// The program of the contraction of a vector with a matrix.
#[verifier::spinoff_prover]
#[verifier::rlimit(60)]
proof fn lemma_vector_program<S: Scalar>(k: DotV<S>, n: usize, m: usize)
    requires
        n > 0,
        m > 0,
        fills(k.low, seq![n, m]),
        fills(k.high, seq![n, m]),
        fills(k.left, seq![n, 1]),
        fills(k.low_c, seq![m]),
        fills(k.high_c, seq![m]),
    ensures
        shaping::shaped_by(
            affine::dot_program(DotForm::VectorMatrix, k).steps,
            seq![seq![m]],
            vector_shapes(n, m),
        ),
{
    reveal(affine::dot_program);
    let steps = affine::dot_program(DotForm::VectorMatrix, k).steps;
    let si = seq![seq![m]];
    let ss = vector_shapes(n, m);
    lemma_meets(seq![m]);
    lemma_meets(seq![n]);
    lemma_outer_shape(n, m);
    shaping::lemma_expand_plain::<S>(seq![m], 0);
    assert(seq![m].insert(0, 1) =~= seq![1, m]);
    assert(seq![n, m].drop_last() =~= seq![n]);
    assert(shaping::step_shaped(steps, si, ss, 0));
    assert(shaping::step_shaped(steps, si, ss, 1));
    assert(shaping::step_shaped(steps, si, ss, 2));
    assert(steps[3] == StepV::Load(k.low));
    assert(shaping::step_shaped(steps, si, ss, 3));
    assert(steps[4] == StepV::<S>::Bin(BinOpV::Dot, Reg::Out(3), Reg::Out(0)));
    assert(shaping::step_shaped(steps, si, ss, 4));
    assert(steps[5] == StepV::Load(k.high));
    assert(shaping::step_shaped(steps, si, ss, 5));
    assert(steps[6] == StepV::<S>::Bin(BinOpV::Dot, Reg::Out(5), Reg::Out(2)));
    assert(shaping::step_shaped(steps, si, ss, 6));
    assert(steps[7] == StepV::Load(k.left));
    assert(shaping::step_shaped(steps, si, ss, 7));
    assert(steps[8] == StepV::<S>::Un(UnOpV::ExpandDims(seq![0isize]), Reg::In(0)));
    assert(shaping::step_shaped(steps, si, ss, 8));
    assert(steps[9] == StepV::<S>::Bin(BinOpV::Add, Reg::Out(4), Reg::Out(6)));
    assert(shaping::step_shaped(steps, si, ss, 9));
    assert(steps[10] == StepV::<S>::Bin(BinOpV::Mul, Reg::Out(7), Reg::Out(8)));
    assert(shaping::step_shaped(steps, si, ss, 10));
    assert(steps[11] == StepV::Load(k.low_c));
    assert(shaping::step_shaped(steps, si, ss, 11));
    assert(steps[12] == StepV::Load(k.high_c));
    assert(shaping::step_shaped(steps, si, ss, 12));
    assert(steps[13] == StepV::<S>::Un(UnOpV::Neg, Reg::Out(11)));
    assert(shaping::step_shaped(steps, si, ss, 13));
    assert(steps[14] == StepV::<S>::Bin(BinOpV::Mul, Reg::Out(0), Reg::Out(13)));
    assert(shaping::step_shaped(steps, si, ss, 14));
    assert(steps[15] == StepV::<S>::SumAll(Reg::Out(14)));
    assert(shaping::step_shaped(steps, si, ss, 15));
    assert(steps[16] == StepV::<S>::Un(UnOpV::Neg, Reg::Out(12)));
    assert(shaping::step_shaped(steps, si, ss, 16));
    assert(steps[17] == StepV::<S>::Bin(BinOpV::Mul, Reg::Out(2), Reg::Out(16)));
    assert(shaping::step_shaped(steps, si, ss, 17));
    assert(steps[18] == StepV::<S>::SumAll(Reg::Out(17)));
    assert(shaping::step_shaped(steps, si, ss, 18));
    assert(steps[19] == StepV::<S>::Bin(BinOpV::Add, Reg::Out(15), Reg::Out(18)));
    assert(shaping::step_shaped(steps, si, ss, 19));
    assert(steps[20] == vjp::load_number(scalar::zero::<S>()));
    assert(shaping::step_shaped(steps, si, ss, 20));
    assert forall|i: int| 0 <= i < 21 implies #[trigger] shaping::step_shaped(steps, si, ss, i) by {
        if i == 0 {
            assert(shaping::step_shaped(steps, si, ss, 0));
        } else if i == 1 {
            assert(shaping::step_shaped(steps, si, ss, 1));
        } else if i == 2 {
            assert(shaping::step_shaped(steps, si, ss, 2));
        } else if i == 3 {
            assert(shaping::step_shaped(steps, si, ss, 3));
        } else if i == 4 {
            assert(shaping::step_shaped(steps, si, ss, 4));
        } else if i == 5 {
            assert(shaping::step_shaped(steps, si, ss, 5));
        } else if i == 6 {
            assert(shaping::step_shaped(steps, si, ss, 6));
        } else if i == 7 {
            assert(shaping::step_shaped(steps, si, ss, 7));
        } else if i == 8 {
            assert(shaping::step_shaped(steps, si, ss, 8));
        } else if i == 9 {
            assert(shaping::step_shaped(steps, si, ss, 9));
        } else if i == 10 {
            assert(shaping::step_shaped(steps, si, ss, 10));
        } else if i == 11 {
            assert(shaping::step_shaped(steps, si, ss, 11));
        } else if i == 12 {
            assert(shaping::step_shaped(steps, si, ss, 12));
        } else if i == 13 {
            assert(shaping::step_shaped(steps, si, ss, 13));
        } else if i == 14 {
            assert(shaping::step_shaped(steps, si, ss, 14));
        } else if i == 15 {
            assert(shaping::step_shaped(steps, si, ss, 15));
        } else if i == 16 {
            assert(shaping::step_shaped(steps, si, ss, 16));
        } else if i == 17 {
            assert(shaping::step_shaped(steps, si, ss, 17));
        } else if i == 18 {
            assert(shaping::step_shaped(steps, si, ss, 18));
        } else if i == 19 {
            assert(shaping::step_shaped(steps, si, ss, 19));
        } else if i == 20 {
            assert(shaping::step_shaped(steps, si, ss, 20));
        }
    }
}

/// The shapes of its results.
pub open spec fn column_shapes(r: usize, n: usize) -> Seq<Seq<usize>> {
    let (z, u, f, c, l) = (point(), seq![r], seq![r, n], seq![r, 1], seq![1, n]);
    seq![u, u, u, c, l, f, c, l, f, seq![n, r], f, seq![n], u, u, u, u, z, u, u, z, z, z]
}

/// The program of the contraction of a matrix with a vector.
#[verifier::spinoff_prover]
#[verifier::rlimit(60)]
proof fn lemma_column_program<S: Scalar>(k: DotV<S>, r: usize, n: usize)
    requires
        r > 0,
        n > 0,
        fills(k.low, seq![1, n]),
        fills(k.high, seq![1, n]),
        fills(k.left, seq![n, r]),
        fills(k.low_c, seq![r]),
        fills(k.high_c, seq![r]),
    ensures
        shaping::shaped_by(
            affine::dot_program(DotForm::MatrixVector, k).steps,
            seq![seq![r]],
            column_shapes(r, n),
        ),
{
    reveal(affine::dot_program);
    let steps = affine::dot_program(DotForm::MatrixVector, k).steps;
    let si = seq![seq![r]];
    let ss = column_shapes(r, n);
    lemma_meets(seq![r]);
    lemma_meets(seq![r, n]);
    lemma_outer_shape(r, n);
    shaping::lemma_expand_plain::<S>(seq![r], (-1) as isize);
    assert(seq![r].insert(1, 1) =~= seq![r, 1]);
    assert(seq![n, r].drop_last() =~= seq![n]);
    assert(shaping::step_shaped(steps, si, ss, 0));
    assert(shaping::step_shaped(steps, si, ss, 1));
    assert(shaping::step_shaped(steps, si, ss, 2));
    assert(steps[3] == StepV::<S>::Un(UnOpV::ExpandDims(seq![(-1) as isize]), Reg::Out(0)));
    assert(shaping::step_shaped(steps, si, ss, 3));
    assert(steps[4] == StepV::Load(k.low));
    assert(shaping::step_shaped(steps, si, ss, 4));
    assert(steps[5] == StepV::<S>::Bin(BinOpV::Mul, Reg::Out(3), Reg::Out(4)));
    assert(shaping::step_shaped(steps, si, ss, 5));
    assert(steps[6] == StepV::<S>::Un(UnOpV::ExpandDims(seq![(-1) as isize]), Reg::Out(2)));
    assert(shaping::step_shaped(steps, si, ss, 6));
    assert(steps[7] == StepV::Load(k.high));
    assert(shaping::step_shaped(steps, si, ss, 7));
    assert(steps[8] == StepV::<S>::Bin(BinOpV::Mul, Reg::Out(6), Reg::Out(7)));
    assert(shaping::step_shaped(steps, si, ss, 8));
    assert(steps[9] == StepV::Load(k.left));
    assert(shaping::step_shaped(steps, si, ss, 9));
    assert(steps[10] == StepV::<S>::Bin(BinOpV::Add, Reg::Out(5), Reg::Out(8)));
    assert(shaping::step_shaped(steps, si, ss, 10));
    assert(steps[11] == StepV::<S>::Bin(BinOpV::Dot, Reg::Out(9), Reg::In(0)));
    assert(shaping::step_shaped(steps, si, ss, 11));
    assert(steps[12] == StepV::Load(k.low_c));
    assert(shaping::step_shaped(steps, si, ss, 12));
    assert(steps[13] == StepV::Load(k.high_c));
    assert(shaping::step_shaped(steps, si, ss, 13));
    assert(steps[14] == StepV::<S>::Un(UnOpV::Neg, Reg::Out(12)));
    assert(shaping::step_shaped(steps, si, ss, 14));
    assert(steps[15] == StepV::<S>::Bin(BinOpV::Mul, Reg::Out(0), Reg::Out(14)));
    assert(shaping::step_shaped(steps, si, ss, 15));
    assert(steps[16] == StepV::<S>::SumAll(Reg::Out(15)));
    assert(shaping::step_shaped(steps, si, ss, 16));
    assert(steps[17] == StepV::<S>::Un(UnOpV::Neg, Reg::Out(13)));
    assert(shaping::step_shaped(steps, si, ss, 17));
    assert(steps[18] == StepV::<S>::Bin(BinOpV::Mul, Reg::Out(2), Reg::Out(17)));
    assert(shaping::step_shaped(steps, si, ss, 18));
    assert(steps[19] == StepV::<S>::SumAll(Reg::Out(18)));
    assert(shaping::step_shaped(steps, si, ss, 19));
    assert(steps[20] == StepV::<S>::Bin(BinOpV::Add, Reg::Out(16), Reg::Out(19)));
    assert(shaping::step_shaped(steps, si, ss, 20));
    assert(steps[21] == vjp::load_number(scalar::zero::<S>()));
    assert(shaping::step_shaped(steps, si, ss, 21));
    assert forall|i: int| 0 <= i < 22 implies #[trigger] shaping::step_shaped(steps, si, ss, i) by {
        if i == 0 {
            assert(shaping::step_shaped(steps, si, ss, 0));
        } else if i == 1 {
            assert(shaping::step_shaped(steps, si, ss, 1));
        } else if i == 2 {
            assert(shaping::step_shaped(steps, si, ss, 2));
        } else if i == 3 {
            assert(shaping::step_shaped(steps, si, ss, 3));
        } else if i == 4 {
            assert(shaping::step_shaped(steps, si, ss, 4));
        } else if i == 5 {
            assert(shaping::step_shaped(steps, si, ss, 5));
        } else if i == 6 {
            assert(shaping::step_shaped(steps, si, ss, 6));
        } else if i == 7 {
            assert(shaping::step_shaped(steps, si, ss, 7));
        } else if i == 8 {
            assert(shaping::step_shaped(steps, si, ss, 8));
        } else if i == 9 {
            assert(shaping::step_shaped(steps, si, ss, 9));
        } else if i == 10 {
            assert(shaping::step_shaped(steps, si, ss, 10));
        } else if i == 11 {
            assert(shaping::step_shaped(steps, si, ss, 11));
        } else if i == 12 {
            assert(shaping::step_shaped(steps, si, ss, 12));
        } else if i == 13 {
            assert(shaping::step_shaped(steps, si, ss, 13));
        } else if i == 14 {
            assert(shaping::step_shaped(steps, si, ss, 14));
        } else if i == 15 {
            assert(shaping::step_shaped(steps, si, ss, 15));
        } else if i == 16 {
            assert(shaping::step_shaped(steps, si, ss, 16));
        } else if i == 17 {
            assert(shaping::step_shaped(steps, si, ss, 17));
        } else if i == 18 {
            assert(shaping::step_shaped(steps, si, ss, 18));
        } else if i == 19 {
            assert(shaping::step_shaped(steps, si, ss, 19));
        } else if i == 20 {
            assert(shaping::step_shaped(steps, si, ss, 20));
        } else if i == 21 {
            assert(shaping::step_shaped(steps, si, ss, 21));
        }
    }
}

/// The shapes of its results.
pub open spec fn matrices_shapes(r: usize, n: usize, m: usize) -> Seq<Seq<usize>> {
    let (z, u, f, l) = (point(), seq![r, m], seq![r, n], seq![m, n]);
    seq![u, u, u, l, f, l, f, seq![n, r], f, seq![n, m], u, u, u, u, z, u, u, z, z, z]
}

/// The program of the contraction of two matrices.
#[verifier::spinoff_prover]
#[verifier::rlimit(60)]
proof fn lemma_matrices_program<S: Scalar>(k: DotV<S>, r: usize, n: usize, m: usize)
    requires
        r > 0,
        n > 0,
        m > 0,
        fills(k.low, seq![m, n]),
        fills(k.high, seq![m, n]),
        fills(k.left, seq![n, r]),
        fills(k.low_c, seq![r, m]),
        fills(k.high_c, seq![r, m]),
    ensures
        shaping::shaped_by(
            affine::dot_program(DotForm::Matrices, k).steps,
            seq![seq![r, m]],
            matrices_shapes(r, n, m),
        ),
{
    reveal(affine::dot_program);
    let steps = affine::dot_program(DotForm::Matrices, k).steps;
    let si = seq![seq![r, m]];
    let ss = matrices_shapes(r, n, m);
    lemma_meets(seq![r, m]);
    lemma_meets(seq![r, n]);
    assert(seq![r, m].drop_last().push(n) =~= seq![r, n]);
    assert(seq![n, r].drop_last().push(m) =~= seq![n, m]);
    assert(shaping::step_shaped(steps, si, ss, 0));
    assert(shaping::step_shaped(steps, si, ss, 1));
    assert(shaping::step_shaped(steps, si, ss, 2));
    assert(steps[3] == StepV::Load(k.low));
    assert(shaping::step_shaped(steps, si, ss, 3));
    assert(steps[4] == StepV::<S>::Bin(BinOpV::Dot, Reg::Out(0), Reg::Out(3)));
    assert(shaping::step_shaped(steps, si, ss, 4));
    assert(steps[5] == StepV::Load(k.high));
    assert(shaping::step_shaped(steps, si, ss, 5));
    assert(steps[6] == StepV::<S>::Bin(BinOpV::Dot, Reg::Out(2), Reg::Out(5)));
    assert(shaping::step_shaped(steps, si, ss, 6));
    assert(steps[7] == StepV::Load(k.left));
    assert(shaping::step_shaped(steps, si, ss, 7));
    assert(steps[8] == StepV::<S>::Bin(BinOpV::Add, Reg::Out(4), Reg::Out(6)));
    assert(shaping::step_shaped(steps, si, ss, 8));
    assert(steps[9] == StepV::<S>::Bin(BinOpV::Dot, Reg::Out(7), Reg::In(0)));
    assert(shaping::step_shaped(steps, si, ss, 9));
    assert(steps[10] == StepV::Load(k.low_c));
    assert(shaping::step_shaped(steps, si, ss, 10));
    assert(steps[11] == StepV::Load(k.high_c));
    assert(shaping::step_shaped(steps, si, ss, 11));
    assert(steps[12] == StepV::<S>::Un(UnOpV::Neg, Reg::Out(10)));
    assert(shaping::step_shaped(steps, si, ss, 12));
    assert(steps[13] == StepV::<S>::Bin(BinOpV::Mul, Reg::Out(0), Reg::Out(12)));
    assert(shaping::step_shaped(steps, si, ss, 13));
    assert(steps[14] == StepV::<S>::SumAll(Reg::Out(13)));
    assert(shaping::step_shaped(steps, si, ss, 14));
    assert(steps[15] == StepV::<S>::Un(UnOpV::Neg, Reg::Out(11)));
    assert(shaping::step_shaped(steps, si, ss, 15));
    assert(steps[16] == StepV::<S>::Bin(BinOpV::Mul, Reg::Out(2), Reg::Out(15)));
    assert(shaping::step_shaped(steps, si, ss, 16));
    assert(steps[17] == StepV::<S>::SumAll(Reg::Out(16)));
    assert(shaping::step_shaped(steps, si, ss, 17));
    assert(steps[18] == StepV::<S>::Bin(BinOpV::Add, Reg::Out(14), Reg::Out(17)));
    assert(shaping::step_shaped(steps, si, ss, 18));
    assert(steps[19] == vjp::load_number(scalar::zero::<S>()));
    assert(shaping::step_shaped(steps, si, ss, 19));
    assert forall|i: int| 0 <= i < 20 implies #[trigger] shaping::step_shaped(steps, si, ss, i) by {
        if i == 0 {
            assert(shaping::step_shaped(steps, si, ss, 0));
        } else if i == 1 {
            assert(shaping::step_shaped(steps, si, ss, 1));
        } else if i == 2 {
            assert(shaping::step_shaped(steps, si, ss, 2));
        } else if i == 3 {
            assert(shaping::step_shaped(steps, si, ss, 3));
        } else if i == 4 {
            assert(shaping::step_shaped(steps, si, ss, 4));
        } else if i == 5 {
            assert(shaping::step_shaped(steps, si, ss, 5));
        } else if i == 6 {
            assert(shaping::step_shaped(steps, si, ss, 6));
        } else if i == 7 {
            assert(shaping::step_shaped(steps, si, ss, 7));
        } else if i == 8 {
            assert(shaping::step_shaped(steps, si, ss, 8));
        } else if i == 9 {
            assert(shaping::step_shaped(steps, si, ss, 9));
        } else if i == 10 {
            assert(shaping::step_shaped(steps, si, ss, 10));
        } else if i == 11 {
            assert(shaping::step_shaped(steps, si, ss, 11));
        } else if i == 12 {
            assert(shaping::step_shaped(steps, si, ss, 12));
        } else if i == 13 {
            assert(shaping::step_shaped(steps, si, ss, 13));
        } else if i == 14 {
            assert(shaping::step_shaped(steps, si, ss, 14));
        } else if i == 15 {
            assert(shaping::step_shaped(steps, si, ss, 15));
        } else if i == 16 {
            assert(shaping::step_shaped(steps, si, ss, 16));
        } else if i == 17 {
            assert(shaping::step_shaped(steps, si, ss, 17));
        } else if i == 18 {
            assert(shaping::step_shaped(steps, si, ss, 18));
        } else if i == 19 {
            assert(shaping::step_shaped(steps, si, ss, 19));
        }
    }
}

/// The shapes of the results of the program of an inner product.
pub open spec fn product_shapes(s: Seq<usize>) -> Seq<Seq<usize>> {
    let z = point();
    seq![z, z, z, s, s, s, s, s, s, s, s, s, z, s, s, z, z, z]
}

/// The program of an inner product.
#[verifier::spinoff_prover]
#[verifier::rlimit(60)]
proof fn lemma_product_program<S: Scalar>(x: IBPV<S>, y: IBPV<S>, rule: RuleV<S>, s: Seq<usize>)
    requires
        layered::spans(x, s),
        layered::spans(y, s),
        support::dense(s),
        s.len() <= isize::MAX,
        affine::mul_rule(x, y) == Ok::<RuleV<S>, Fault>(rule),
    ensures
        shaping::shaped_by(rule.steps, seq![point()], product_shapes(s)),
        rule.outs == seq![Reg::Out(7), Reg::Out(16), Reg::Out(9), Reg::Out(17)],
{
    reveal(affine::mul_rule);
    let (steps, si, ss) = (rule.steps, seq![point()], product_shapes(s));
    lemma_meets(s);
    Tensor::<S>::law_binary((), BinOpV::Mul, x.lb, y.lb);
    Tensor::<S>::law_binary((), BinOpV::Mul, x.lb, y.ub);
    let (low, high) = (
        affine::minus_product(x.lb, y.lb)->Ok_0,
        affine::minus_product(x.lb, y.ub)->Ok_0,
    );
    assert(fills(low, s) && fills(high, s));
    assert(shaping::step_shaped(steps, si, ss, 0));
    assert(shaping::step_shaped(steps, si, ss, 1));
    assert(shaping::step_shaped(steps, si, ss, 2));
    assert(steps[3] == StepV::Load(y.lb));
    assert(shaping::step_shaped(steps, si, ss, 3));
    assert(shaping::step_shaped(steps, si, ss, 4));
    assert(shaping::step_shaped(steps, si, ss, 5));
    assert(shaping::step_shaped(steps, si, ss, 6));
    assert(shaping::step_shaped(steps, si, ss, 7));
    assert(steps[8] == StepV::Load(x.lb));
    assert(shaping::step_shaped(steps, si, ss, 8));
    assert(shaping::step_shaped(steps, si, ss, 9));
    assert(steps[10] == StepV::Load(low));
    assert(shaping::step_shaped(steps, si, ss, 10));
    assert(shaping::step_shaped(steps, si, ss, 11));
    assert(shaping::step_shaped(steps, si, ss, 12));
    assert(steps[13] == StepV::Load(high));
    assert(shaping::step_shaped(steps, si, ss, 13));
    assert(shaping::step_shaped(steps, si, ss, 14));
    assert(shaping::step_shaped(steps, si, ss, 15));
    assert(shaping::step_shaped(steps, si, ss, 16));
    assert(steps[17] == vjp::load_number(scalar::zero::<S>()));
    assert(shaping::step_shaped(steps, si, ss, 17));
    assert forall|i: int| 0 <= i < 18 implies #[trigger] shaping::step_shaped(steps, si, ss, i) by {
        if i == 0 {
            assert(shaping::step_shaped(steps, si, ss, 0));
        } else if i == 1 {
            assert(shaping::step_shaped(steps, si, ss, 1));
        } else if i == 2 {
            assert(shaping::step_shaped(steps, si, ss, 2));
        } else if i == 3 {
            assert(shaping::step_shaped(steps, si, ss, 3));
        } else if i == 4 {
            assert(shaping::step_shaped(steps, si, ss, 4));
        } else if i == 5 {
            assert(shaping::step_shaped(steps, si, ss, 5));
        } else if i == 6 {
            assert(shaping::step_shaped(steps, si, ss, 6));
        } else if i == 7 {
            assert(shaping::step_shaped(steps, si, ss, 7));
        } else if i == 8 {
            assert(shaping::step_shaped(steps, si, ss, 8));
        } else if i == 9 {
            assert(shaping::step_shaped(steps, si, ss, 9));
        } else if i == 10 {
            assert(shaping::step_shaped(steps, si, ss, 10));
        } else if i == 11 {
            assert(shaping::step_shaped(steps, si, ss, 11));
        } else if i == 12 {
            assert(shaping::step_shaped(steps, si, ss, 12));
        } else if i == 13 {
            assert(shaping::step_shaped(steps, si, ss, 13));
        } else if i == 14 {
            assert(shaping::step_shaped(steps, si, ss, 14));
        } else if i == 15 {
            assert(shaping::step_shaped(steps, si, ss, 15));
        } else if i == 16 {
            assert(shaping::step_shaped(steps, si, ss, 16));
        } else if i == 17 {
            assert(shaping::step_shaped(steps, si, ss, 17));
        }
    }
}

// ---- sizes ----
/// Whether shapes fit the machine.
pub open spec fn all_fits(ss: Seq<Seq<usize>>) -> bool {
    forall|i: int| 0 <= i < ss.len() ==> shape::fits(#[trigger] ss[i])
}

/// The shape of a number fits the machine.
pub proof fn lemma_point_fits()
    ensures
        shape::fits(point()),
{
}

/// The size of a vector and of a matrix.
proof fn lemma_volumes(n: usize, m: usize)
    requires
        n > 0,
        m > 0,
    ensures
        shape::volume(seq![n]) == n,
        shape::volume(seq![n, m]) == n * m,
{
    reveal_with_fuel(shape::volume, 3);
    assert(seq![n].drop_last() =~= Seq::<usize>::empty());
    assert(seq![n, m].drop_last() =~= seq![n]);
    assert(seq![n, m].last() == m);
    assert(seq![n].last() == n);
    assert((1 * n) * m == n * m) by (nonlinear_arith);
}

/// Shapes made of the lengths of a matrix.
pub proof fn lemma_pair_fits(n: usize, m: usize)
    requires
        n > 0,
        m > 0,
        shape::fits(seq![n, m]),
    ensures
        shape::fits(seq![m, n]),
        shape::fits(seq![n]),
        shape::fits(seq![m]),
        shape::fits(seq![n, 1]),
        shape::fits(seq![1, n]),
        shape::fits(seq![m, 1]),
        shape::fits(seq![1, m]),
{
    lemma_volumes(n, m);
    lemma_volumes(m, n);
    lemma_volumes(n, 1);
    lemma_volumes(1, n);
    lemma_volumes(m, 1);
    lemma_volumes(1, m);
    let (a, b) = (n as int, m as int);
    assert(a <= a * b && b <= a * b && b * a == a * b) by (nonlinear_arith)
        requires
            a > 0,
            b > 0,
    ;
}

/// Shapes of results fit the machine.
#[verifier::spinoff_prover]
proof fn lemma_vector_fit(n: usize, m: usize)
    requires
        n > 0,
        m > 0,
        shape::fits(seq![n, m]),
    ensures
        all_fits(vector_shapes(n, m)),
{
    let ss = vector_shapes(n, m);
    lemma_point_fits();
    lemma_pair_fits(n, m);
    assert forall|i: int| 0 <= i < 21 implies shape::fits(#[trigger] ss[i]) by {
        if i == 0 {
            assert(shape::fits(ss[0]));
        } else if i == 1 {
            assert(shape::fits(ss[1]));
        } else if i == 2 {
            assert(shape::fits(ss[2]));
        } else if i == 3 {
            assert(shape::fits(ss[3]));
        } else if i == 4 {
            assert(shape::fits(ss[4]));
        } else if i == 5 {
            assert(shape::fits(ss[5]));
        } else if i == 6 {
            assert(shape::fits(ss[6]));
        } else if i == 7 {
            assert(shape::fits(ss[7]));
        } else if i == 8 {
            assert(shape::fits(ss[8]));
        } else if i == 9 {
            assert(shape::fits(ss[9]));
        } else if i == 10 {
            assert(shape::fits(ss[10]));
        } else if i == 11 {
            assert(shape::fits(ss[11]));
        } else if i == 12 {
            assert(shape::fits(ss[12]));
        } else if i == 13 {
            assert(shape::fits(ss[13]));
        } else if i == 14 {
            assert(shape::fits(ss[14]));
        } else if i == 15 {
            assert(shape::fits(ss[15]));
        } else if i == 16 {
            assert(shape::fits(ss[16]));
        } else if i == 17 {
            assert(shape::fits(ss[17]));
        } else if i == 18 {
            assert(shape::fits(ss[18]));
        } else if i == 19 {
            assert(shape::fits(ss[19]));
        } else if i == 20 {
            assert(shape::fits(ss[20]));
        }
    }
}

/// Shapes of results fit the machine.
#[verifier::spinoff_prover]
proof fn lemma_column_fit(r: usize, n: usize)
    requires
        r > 0,
        n > 0,
        shape::fits(seq![r, n]),
    ensures
        all_fits(column_shapes(r, n)),
{
    let ss = column_shapes(r, n);
    lemma_point_fits();
    lemma_pair_fits(r, n);
    assert forall|i: int| 0 <= i < 22 implies shape::fits(#[trigger] ss[i]) by {
        if i == 0 {
            assert(shape::fits(ss[0]));
        } else if i == 1 {
            assert(shape::fits(ss[1]));
        } else if i == 2 {
            assert(shape::fits(ss[2]));
        } else if i == 3 {
            assert(shape::fits(ss[3]));
        } else if i == 4 {
            assert(shape::fits(ss[4]));
        } else if i == 5 {
            assert(shape::fits(ss[5]));
        } else if i == 6 {
            assert(shape::fits(ss[6]));
        } else if i == 7 {
            assert(shape::fits(ss[7]));
        } else if i == 8 {
            assert(shape::fits(ss[8]));
        } else if i == 9 {
            assert(shape::fits(ss[9]));
        } else if i == 10 {
            assert(shape::fits(ss[10]));
        } else if i == 11 {
            assert(shape::fits(ss[11]));
        } else if i == 12 {
            assert(shape::fits(ss[12]));
        } else if i == 13 {
            assert(shape::fits(ss[13]));
        } else if i == 14 {
            assert(shape::fits(ss[14]));
        } else if i == 15 {
            assert(shape::fits(ss[15]));
        } else if i == 16 {
            assert(shape::fits(ss[16]));
        } else if i == 17 {
            assert(shape::fits(ss[17]));
        } else if i == 18 {
            assert(shape::fits(ss[18]));
        } else if i == 19 {
            assert(shape::fits(ss[19]));
        } else if i == 20 {
            assert(shape::fits(ss[20]));
        } else if i == 21 {
            assert(shape::fits(ss[21]));
        }
    }
}

/// Shapes of results fit the machine.
#[verifier::spinoff_prover]
proof fn lemma_matrices_fit(r: usize, n: usize, m: usize)
    requires
        r > 0,
        n > 0,
        m > 0,
        shape::fits(seq![r, n]),
        shape::fits(seq![n, m]),
        shape::fits(seq![r, m]),
    ensures
        all_fits(matrices_shapes(r, n, m)),
{
    let ss = matrices_shapes(r, n, m);
    lemma_point_fits();
    lemma_pair_fits(r, n);
    lemma_pair_fits(n, m);
    lemma_pair_fits(r, m);
    assert forall|i: int| 0 <= i < 20 implies shape::fits(#[trigger] ss[i]) by {
        if i == 0 {
            assert(shape::fits(ss[0]));
        } else if i == 1 {
            assert(shape::fits(ss[1]));
        } else if i == 2 {
            assert(shape::fits(ss[2]));
        } else if i == 3 {
            assert(shape::fits(ss[3]));
        } else if i == 4 {
            assert(shape::fits(ss[4]));
        } else if i == 5 {
            assert(shape::fits(ss[5]));
        } else if i == 6 {
            assert(shape::fits(ss[6]));
        } else if i == 7 {
            assert(shape::fits(ss[7]));
        } else if i == 8 {
            assert(shape::fits(ss[8]));
        } else if i == 9 {
            assert(shape::fits(ss[9]));
        } else if i == 10 {
            assert(shape::fits(ss[10]));
        } else if i == 11 {
            assert(shape::fits(ss[11]));
        } else if i == 12 {
            assert(shape::fits(ss[12]));
        } else if i == 13 {
            assert(shape::fits(ss[13]));
        } else if i == 14 {
            assert(shape::fits(ss[14]));
        } else if i == 15 {
            assert(shape::fits(ss[15]));
        } else if i == 16 {
            assert(shape::fits(ss[16]));
        } else if i == 17 {
            assert(shape::fits(ss[17]));
        } else if i == 18 {
            assert(shape::fits(ss[18]));
        } else if i == 19 {
            assert(shape::fits(ss[19]));
        }
    }
}

/// Shapes of results fit the machine.
#[verifier::spinoff_prover]
proof fn lemma_product_fit(s: Seq<usize>)
    requires
        shape::fits(s),
    ensures
        all_fits(product_shapes(s)),
{
    let ss = product_shapes(s);
    lemma_point_fits();

    assert forall|i: int| 0 <= i < 18 implies shape::fits(#[trigger] ss[i]) by {
        if i == 0 {
            assert(shape::fits(ss[0]));
        } else if i == 1 {
            assert(shape::fits(ss[1]));
        } else if i == 2 {
            assert(shape::fits(ss[2]));
        } else if i == 3 {
            assert(shape::fits(ss[3]));
        } else if i == 4 {
            assert(shape::fits(ss[4]));
        } else if i == 5 {
            assert(shape::fits(ss[5]));
        } else if i == 6 {
            assert(shape::fits(ss[6]));
        } else if i == 7 {
            assert(shape::fits(ss[7]));
        } else if i == 8 {
            assert(shape::fits(ss[8]));
        } else if i == 9 {
            assert(shape::fits(ss[9]));
        } else if i == 10 {
            assert(shape::fits(ss[10]));
        } else if i == 11 {
            assert(shape::fits(ss[11]));
        } else if i == 12 {
            assert(shape::fits(ss[12]));
        } else if i == 13 {
            assert(shape::fits(ss[13]));
        } else if i == 14 {
            assert(shape::fits(ss[14]));
        } else if i == 15 {
            assert(shape::fits(ss[15]));
        } else if i == 16 {
            assert(shape::fits(ss[16]));
        } else if i == 17 {
            assert(shape::fits(ss[17]));
        }
    }
}

/// Shapes of results fit the machine.
#[verifier::spinoff_prover]
pub proof fn lemma_relu_fit(s: Seq<usize>)
    requires
        shape::fits(s),
    ensures
        all_fits(relu_shapes(s)),
{
    let ss = relu_shapes(s);
    lemma_point_fits();

    assert forall|i: int| 0 <= i < 17 implies shape::fits(#[trigger] ss[i]) by {
        if i == 0 {
            assert(shape::fits(ss[0]));
        } else if i == 1 {
            assert(shape::fits(ss[1]));
        } else if i == 2 {
            assert(shape::fits(ss[2]));
        } else if i == 3 {
            assert(shape::fits(ss[3]));
        } else if i == 4 {
            assert(shape::fits(ss[4]));
        } else if i == 5 {
            assert(shape::fits(ss[5]));
        } else if i == 6 {
            assert(shape::fits(ss[6]));
        } else if i == 7 {
            assert(shape::fits(ss[7]));
        } else if i == 8 {
            assert(shape::fits(ss[8]));
        } else if i == 9 {
            assert(shape::fits(ss[9]));
        } else if i == 10 {
            assert(shape::fits(ss[10]));
        } else if i == 11 {
            assert(shape::fits(ss[11]));
        } else if i == 12 {
            assert(shape::fits(ss[12]));
        } else if i == 13 {
            assert(shape::fits(ss[13]));
        } else if i == 14 {
            assert(shape::fits(ss[14]));
        } else if i == 15 {
            assert(shape::fits(ss[15]));
        } else if i == 16 {
            assert(shape::fits(ss[16]));
        }
    }
}

// ---- walks ----
/// Whether the parameters of a rectifier have its shape.
pub open spec fn param_ok<S: Scalar, T: Shaped<S>>(
    c: T::C,
    eqn: EqnV<S>,
    p: ParamsV<S, T::M>,
) -> bool {
    let (name, s) = (eqn.out.name, eqn.out.shape);
    &&& p.alphas.dom().contains(name) ==> T::ok(c, p.alphas[name]) && T::shape_of(p.alphas[name])
        == s
    &&& p.splitting matches Some(q) ==> {
        &&& q.betas.dom().contains(name) ==> T::ok(c, q.betas[name]) && T::shape_of(q.betas[name])
            == s
        &&& q.splits.dom().contains(name) ==> fills(q.splits[name], s)
    }
}

/// Whether the parameters of all rectifiers have their shapes.
pub open spec fn params_ok<S: Scalar, T: Shaped<S>>(
    c: T::C,
    eqns: Seq<EqnV<S>>,
    p: ParamsV<S, T::M>,
) -> bool {
    forall|j: int|
        0 <= j < eqns.len() && is_rectifier(eqns[j].prim) ==> #[trigger] param_ok::<S, T>(
            c,
            eqns[j],
            p,
        )
}

/// Whether an operation is a rectifier.
pub open spec fn is_rectifier<S>(p: PrimV<S>) -> bool {
    p matches PrimV::Un(UnOpV::Relu, _)
}

/// Whether the bias of a walk is a number and the weights have the shapes of their variables.
pub open spec fn walk_ok<S: Scalar, T: Shaped<S>>(
    c: T::C,
    at: WalkV<S, T::M>,
    input: AtomV<S>,
    eqns: Seq<EqnV<S>>,
) -> bool {
    &&& T::ok(c, at.bias)
    &&& T::shape_of(at.bias) == point()
    &&& forall|i: int|
        #![trigger support::variable(input.name, eqns, i)]
        0 <= i <= eqns.len() && at.weights.dom().contains(support::variable(input.name, eqns, i))
            ==> {
            let w = at.weights[support::variable(input.name, eqns, i)];
            T::ok(c, w) && T::shape_of(w) == layered::shape_at(input, eqns, i)
        }
}

/// Parameters stay right.
proof fn lemma_params_remain<S: Scalar, T: Shaped<S>>(
    c: T::C,
    d: T::C,
    eqns: Seq<EqnV<S>>,
    p: ParamsV<S, T::M>,
)
    requires
        params_ok::<S, T>(c, eqns, p),
        shaping::remain::<S, T>(c, d),
    ensures
        params_ok::<S, T>(d, eqns, p),
{
    assert forall|j: int| 0 <= j < eqns.len() && is_rectifier(eqns[j].prim) implies #[trigger]
        param_ok::<S, T>(d, eqns[j], p) by {
        assert(param_ok::<S, T>(c, eqns[j], p));
    }
}

/// A walk stays right.
pub proof fn lemma_walk_remains<S: Scalar, T: Shaped<S>>(
    c: T::C,
    d: T::C,
    at: WalkV<S, T::M>,
    input: AtomV<S>,
    eqns: Seq<EqnV<S>>,
)
    requires
        walk_ok::<S, T>(c, at, input, eqns),
        shaping::remain::<S, T>(c, d),
    ensures
        walk_ok::<S, T>(d, at, input, eqns),
{
}

/// What stands in a context stands in those that follow.
proof fn lemma_remain_on<S: Scalar, T: Shaped<S>>(c: T::C, d: T::C, e: T::C)
    requires
        shaping::remain::<S, T>(c, d),
        shaping::remain::<S, T>(d, e),
    ensures
        shaping::remain::<S, T>(c, e),
{
    assert forall|m: T::M| T::ok(c, m) implies #[trigger] T::ok(e, m) by {
        assert(T::ok(d, m));
    }
}

/// A walk with one more weight.
proof fn lemma_more_weight<S: Scalar, T: Shaped<S>>(
    c: T::C,
    at: WalkV<S, T::M>,
    bias: T::M,
    a: AtomV<S>,
    w: T::M,
    input: AtomV<S>,
    eqns: Seq<EqnV<S>>,
    j: int,
)
    requires
        walk_ok::<S, T>(c, at, input, eqns),
        support::distinct(input.name, eqns),
        0 <= j <= eqns.len(),
        a.value is None,
        layered::declared(input, eqns, a, j),
        T::ok(c, bias),
        T::shape_of(bias) == point(),
        T::ok(c, w),
        T::shape_of(w) == a.shape,
    ensures
        walk_ok::<S, T>(
            c,
            WalkV { bias, weights: at.weights.insert(a.name, w), ..at },
            input,
            eqns,
        ),
{
    let k = choose|k: int|
        0 <= k <= j && #[trigger] support::variable(input.name, eqns, k) == a.name
            && layered::shape_at(input, eqns, k) == a.shape;
    let next = WalkV { bias, weights: at.weights.insert(a.name, w), ..at };
    assert forall|i: int|
        #![trigger support::variable(input.name, eqns, i)]
        0 <= i <= eqns.len() && next.weights.dom().contains(
            support::variable(input.name, eqns, i),
        ) implies {
        let u = next.weights[support::variable(input.name, eqns, i)];
        T::ok(c, u) && T::shape_of(u) == layered::shape_at(input, eqns, i)
    } by {
        if support::variable(input.name, eqns, i) == a.name {
            if i < k {
                assert(support::variable(input.name, eqns, i) != support::variable(
                    input.name,
                    eqns,
                    k,
                ));
            } else if k < i {
                assert(support::variable(input.name, eqns, k) != support::variable(
                    input.name,
                    eqns,
                    i,
                ));
            }
        }
    }
}

/// An operand takes over a weight.
pub proof fn lemma_absorbed_ok<S: Scalar, T: Shaped<S>>(
    c: T::C,
    at: WalkV<S, T::M>,
    a: AtomV<S>,
    w: T::M,
    b: T::M,
    input: AtomV<S>,
    eqns: Seq<EqnV<S>>,
    j: int,
)
    requires
        T::good(c),
        walk_ok::<S, T>(c, at, input, eqns),
        support::distinct(input.name, eqns),
        0 <= j <= eqns.len(),
        layered::well_shaped(a),
        layered::declared(input, eqns, a, j),
        T::ok(c, w),
        T::shape_of(w).len() <= isize::MAX,
        shape::expands_to(a.shape, T::shape_of(w)),
        T::ok(c, b),
        T::shape_of(b) == point(),
    ensures
        crown::absorbed::<S, T>(c, at, a, w, b).1 matches Ok(next) ==> {
            let d = crown::absorbed::<S, T>(c, at, a, w, b).0;
            T::good(d) && shaping::remain::<S, T>(c, d) && walk_ok::<S, T>(d, next, input, eqns)
        },
{
    shaping::lemma_unbroadcast_shape::<S, T>(c, w, a.shape);
    lemma_meets(a.shape);
    match vjp::unbroadcasted::<S, T>(c, w, a.shape) {
        (c1, Ok(in_w)) => {
            T::law_binary(c1, BinOpV::Add, at.bias, b);
            match T::binary(c1, BinOpV::Add, at.bias, b) {
                (c2, Ok(bias)) => {
                    assert(shaping::remain::<S, T>(c1, c2));
                    lemma_remain_on::<S, T>(c, c1, c2);
                    lemma_walk_remains::<S, T>(c, c2, at, input, eqns);
                    match a.value {
                        Some(k) => {
                            T::law_constant(c2, k);
                            let ins = seq![T::constant(k), in_w, bias];
                            let si = seq![a.shape, a.shape, point()];
                            lemma_absorb_program::<S>(a.shape);
                            assert(shaping::all_ok::<S, T>(c2, ins, si));
                            shaping::lemma_run_shapes::<S, T>(
                                c2,
                                crown::absorb_steps(),
                                ins,
                                si,
                                seq![a.shape, point(), point()],
                            );
                            match value::run_steps::<S, T>(c2, crown::absorb_steps(), ins) {
                                (c3, Ok(all)) => {
                                    lemma_remain_on::<S, T>(c, c2, c3);
                                    lemma_walk_remains::<S, T>(c2, c3, at, input, eqns);
                                    assert(T::ok(c3, all[2]));
                                },
                                _ => {},
                            }
                        },
                        None => {
                            if at.weights.dom().contains(a.name) {
                                let k = choose|k: int|
                                    0 <= k <= j && #[trigger] support::variable(
                                        input.name,
                                        eqns,
                                        k,
                                    ) == a.name && layered::shape_at(input, eqns, k) == a.shape;
                                let old_w = at.weights[a.name];
                                assert(T::ok(c2, old_w) && T::shape_of(old_w) == a.shape);
                                T::law_binary(c2, BinOpV::Add, old_w, in_w);
                                match T::binary(c2, BinOpV::Add, old_w, in_w) {
                                    (c3, Ok(sum)) => {
                                        assert(shaping::remain::<S, T>(c2, c3));
                                        lemma_remain_on::<S, T>(c, c2, c3);
                                        lemma_walk_remains::<S, T>(c2, c3, at, input, eqns);
                                        lemma_more_weight::<S, T>(
                                            c3,
                                            at,
                                            bias,
                                            a,
                                            sum,
                                            input,
                                            eqns,
                                            j,
                                        );
                                    },
                                    _ => {},
                                }
                            } else {
                                lemma_more_weight::<S, T>(c2, at, bias, a, in_w, input, eqns, j);
                            }
                        },
                    }
                },
                _ => {},
            }
        },
        _ => {},
    }
}

/// The shapes of the results of the program of a contraction: a weight for each operand and a
/// number.
#[verifier::rlimit(40)]
pub proof fn lemma_dot_parts<S: Scalar>(x: IBPV<S>, y: IBPV<S>, rule: RuleV<S>, out: Seq<usize>) -> (ss:
    Seq<Seq<usize>>)
    requires
        layered::spans(x, x.lb.shape),
        layered::spans(y, y.lb.shape),
        support::dense(x.lb.shape),
        support::dense(y.lb.shape),
        1 <= x.lb.shape.len() <= 2,
        1 <= y.lb.shape.len() <= 2,
        model::dot_shape(x.lb.shape, y.lb.shape) == Ok::<Seq<usize>, Fault>(out),
        affine::dot_rule(x, y) == Ok::<RuleV<S>, Fault>(rule),
    ensures
        shaping::shaped_by(rule.steps, seq![out], ss),
        shaping::out_shapes(rule.outs, seq![out], ss) == seq![
            x.lb.shape,
            point(),
            y.lb.shape,
            point(),
        ],
        shape::fits(x.lb.shape) && shape::fits(y.lb.shape) && shape::fits(out) ==> all_fits(ss),
        rule.outs.len() == 4,
{
    reveal(affine::dot_rule);
    let (a, b) = (x.lb.shape, y.lb.shape);
    if a.len() == 1 && b.len() == 1 {
        let ss = product_shapes(a);
        assert(a =~= b);
        assert(out =~= point());
        lemma_product_program(x, y, rule, a);
        if shape::fits(a) {
            lemma_product_fit(a);
        }
        assert(shaping::out_shapes(rule.outs, seq![out], ss) =~= seq![a, point(), b, point()]);
        ss
    } else {
        reveal(affine::dot_program);
        let form = affine::dot_form(a.len(), b.len());
        let k = affine::dot_constants(form, x, y)->Ok_0;
        if a.len() == 1 {
            let (n, m) = (a[0], b[1]);
            assert(a =~= seq![n]);
            assert(b =~= seq![n, m]);
            assert(out =~= seq![m]);
            lemma_expand_fills(x.lb, 1, k.left);
            let (t, u) = (
                model::un_tensor(UnOpV::MoveAxis(0, 1), y.lb)->Ok_0,
                model::un_tensor(UnOpV::MoveAxis(0, 1), y.ub)->Ok_0,
            );
            lemma_turn_fills(y.lb, t);
            lemma_turn_fills(y.ub, u);
            assert(seq![m, n].drop_last() =~= seq![m]);
            lemma_dot_fills(t, x.lb, k.low_c, seq![m]);
            lemma_dot_fills(u, x.lb, k.high_c, seq![m]);
            let ss = vector_shapes(n, m);
            lemma_vector_program(k, n, m);
            if shape::fits(b) {
                lemma_vector_fit(n, m);
            }
            assert(shaping::out_shapes(rule.outs, seq![out], ss) =~= seq![a, point(), b, point()]);
            ss
        } else if b.len() == 1 {
            let (r, n) = (a[0], a[1]);
            assert(a =~= seq![r, n]);
            assert(b =~= seq![n]);
            assert(out =~= seq![r]);
            lemma_expand_fills(y.lb, 0, k.low);
            lemma_expand_fills(y.ub, 0, k.high);
            lemma_turn_fills(x.lb, k.left);
            assert(a.drop_last() =~= seq![r]);
            lemma_dot_fills(x.lb, y.lb, k.low_c, seq![r]);
            lemma_dot_fills(x.lb, y.ub, k.high_c, seq![r]);
            let ss = column_shapes(r, n);
            lemma_column_program(k, r, n);
            if shape::fits(a) {
                lemma_column_fit(r, n);
            }
            assert(shaping::out_shapes(rule.outs, seq![out], ss) =~= seq![a, point(), b, point()]);
            ss
        } else {
            let (r, n, m) = (a[0], a[1], b[1]);
            assert(a =~= seq![r, n]);
            assert(b =~= seq![n, m]);
            assert(out =~= seq![r, m]);
            lemma_turn_fills(y.lb, k.low);
            lemma_turn_fills(y.ub, k.high);
            lemma_turn_fills(x.lb, k.left);
            assert(a.drop_last().push(m) =~= seq![r, m]);
            lemma_dot_fills(x.lb, y.lb, k.low_c, seq![r, m]);
            lemma_dot_fills(x.lb, y.ub, k.high_c, seq![r, m]);
            let ss = matrices_shapes(r, n, m);
            lemma_matrices_program(k, r, n, m);
            if shape::fits(a) && shape::fits(b) && shape::fits(out) {
                lemma_matrices_fit(r, n, m);
            }
            assert(shaping::out_shapes(rule.outs, seq![out], ss) =~= seq![a, point(), b, point()]);
            ss
        }
    }
}

/// Whether all of a network of layers is known: its variables have names of their own, its
/// equations are those of layers, and its variables but the last have bounds of their shapes.
pub open spec fn network<S>(
    input: AtomV<S>,
    eqns: Seq<EqnV<S>>,
    e: Map<Seq<char>, IBPV<S>>,
) -> bool {
    &&& support::distinct(input.name, eqns)
    &&& forall|j: int| 0 <= j < eqns.len() ==> #[trigger] layered::layer_eqn(input, eqns, j)
    &&& layered::spans_hold(e, input, eqns, eqns.len() - 1)
}

/// The results of the program of a layer: a weight that its operand can take over and a number,
/// for each operand.
pub open spec fn parts_ok<S: Scalar, T: Shaped<S>>(
    c: T::C,
    parts: Seq<T::M>,
    atoms: Seq<AtomV<S>>,
) -> bool {
    &&& parts.len() == 2 * atoms.len()
    &&& forall|i: int| 0 <= i < atoms.len() ==> #[trigger] part_ok::<S, T>(c, parts, atoms, i)
}

/// Whether operand `i` can take over its part.
pub open spec fn part_ok<S: Scalar, T: Shaped<S>>(
    c: T::C,
    parts: Seq<T::M>,
    atoms: Seq<AtomV<S>>,
    i: int,
) -> bool {
    let (w, b) = (parts[2 * i], parts[2 * i + 1]);
    &&& T::ok(c, w)
    &&& T::shape_of(w).len() <= isize::MAX
    &&& shape::expands_to(atoms[i].shape, T::shape_of(w))
    &&& T::ok(c, b)
    &&& T::shape_of(b) == point()
}

/// The parts of a rectifier.
pub proof fn lemma_relu_parts<S: Scalar, T: Shaped<S>>(
    c: T::C,
    eqn: EqnV<S>,
    a: AtomV<S>,
    w: T::M,
    e: Map<Seq<char>, IBPV<S>>,
    p: ParamsV<S, T::M>,
    rule: RuleV<S>,
    ins: Seq<T::M>,
)
    requires
        T::good(c),
        eqn.prim == PrimV::Un(UnOpV::<S>::Relu, a),
        eqn.out.value is None,
        eqn.out.shape == a.shape,
        layered::well_shaped(a),
        T::ok(c, w),
        T::shape_of(w) == a.shape,
        param_ok::<S, T>(c, eqn, p),
        crown::bounds_of(e, a) matches Ok(x) && layered::spans(x, a.shape),
        crown::crown_rule(eqn.prim, eqn.out, T::shape_of(w), e, p) == Ok::<RuleV<S>, Fault>(rule),
        crown::crown_inputs::<S, T>(eqn.prim, eqn.out, w, p) == Ok::<Seq<T::M>, Fault>(ins),
    ensures
        vjp::applied::<S, T>(c, rule, ins).1 matches Ok(parts) ==> {
            let d = vjp::applied::<S, T>(c, rule, ins).0;
            T::good(d) && shaping::remain::<S, T>(c, d) && parts_ok::<S, T>(d, parts, seq![a])
        },
{
    let x = crown::bounds_of(e, a)->Ok_0;
    let s = a.shape;
    pairing::lemma_same_shape(s);
    let relu = affine::relu_rule(scalar::zero::<S>(), x);
    assert(relu.outs == seq![Reg::Out(14), Reg::Out(16)]) by {
        reveal(affine::relu_rule);
    }
    assert(relu.steps.len() == 17) by {
        reveal(affine::relu_rule);
    }
    match p.splitting {
        Some(q) if q.splits.dom().contains(eqn.out.name) => {
            let t = q.splits[eqn.out.name];
            assert(fills(t, s));
            let si = seq![s, s, s];
            let ss = relu_shapes(s) + seq![s, s, s, s];
            lemma_constrained_program(scalar::zero::<S>(), x, t, si);
            assert(shaping::all_ok::<S, T>(c, ins, si));
            shaping::lemma_applied_shapes::<S, T>(c, rule, ins, si, ss);
            assert(shaping::out_shapes(rule.outs, si, ss) =~= seq![s, point()]);
        },
        _ => {
            let si = if p.splitting is Some {
                seq![s, s, s]
            } else {
                seq![s, s]
            };
            let ss = relu_shapes(s);
            lemma_relu_program(scalar::zero::<S>(), x, si);
            assert(shaping::all_ok::<S, T>(c, ins, si));
            shaping::lemma_applied_shapes::<S, T>(c, rule, ins, si, ss);
            assert(shaping::out_shapes(rule.outs, si, ss) =~= seq![s, point()]);
        },
    }
    if let Ok(parts) = vjp::applied::<S, T>(c, rule, ins).1 {
        let d = vjp::applied::<S, T>(c, rule, ins).0;
        assert(T::ok(d, parts[0]) && T::ok(d, parts[1]));
        assert(part_ok::<S, T>(d, parts, seq![a], 0));
    }
}

/// The parts of a negation.
pub proof fn lemma_neg_parts<S: Scalar, T: Shaped<S>>(
    c: T::C,
    rule: RuleV<S>,
    w: T::M,
    a: AtomV<S>,
)
    requires
        T::good(c),
        T::ok(c, w),
        T::shape_of(w) == a.shape,
        a.shape.len() <= isize::MAX,
        crown::without_bias(
            Ok(
                RuleV {
                    steps: seq![StepV::<S>::Un(UnOpV::Neg, Reg::In(0))],
                    outs: seq![Reg::Out(0)],
                },
            ),
        ) == Ok::<RuleV<S>, Fault>(rule),
    ensures
        vjp::applied::<S, T>(c, rule, seq![w]).1 matches Ok(parts) ==> {
            let d = vjp::applied::<S, T>(c, rule, seq![w]).0;
            T::good(d) && shaping::remain::<S, T>(c, d) && parts_ok::<S, T>(d, parts, seq![a])
        },
{
    let s = a.shape;
    let (si, ss) = (seq![s], seq![s, point()]);
    lemma_meets(s);
    pairing::lemma_same_shape(s);
    assert(rule.steps[1] == vjp::load_number(scalar::zero::<S>()));
    assert(shaping::step_shaped(rule.steps, si, ss, 0));
    assert(shaping::step_shaped(rule.steps, si, ss, 1));
    assert(shaping::all_ok::<S, T>(c, seq![w], si));
    shaping::lemma_applied_shapes::<S, T>(c, rule, seq![w], si, ss);
    assert(shaping::out_shapes(rule.outs, si, ss) =~= seq![s, point()]);
    match vjp::applied::<S, T>(c, rule, seq![w]) {
        (d, Ok(parts)) => {
            assert(T::ok(d, parts[0]) && T::ok(d, parts[1]));
            assert(part_ok::<S, T>(d, parts, seq![a], 0));
        },
        _ => {},
    }
}

/// Parts for two operands.
pub proof fn lemma_two_parts<S: Scalar, T: Shaped<S>>(
    d: T::C,
    parts: Seq<T::M>,
    a: AtomV<S>,
    b: AtomV<S>,
    s: Seq<usize>,
    t: Seq<usize>,
)
    requires
        shaping::all_ok::<S, T>(d, parts, seq![s, point(), t, point()]),
        s.len() <= isize::MAX,
        t.len() <= isize::MAX,
        shape::expands_to(a.shape, s),
        shape::expands_to(b.shape, t),
    ensures
        parts_ok::<S, T>(d, parts, seq![a, b]),
{
    let ss = seq![s, point(), t, point()];
    let atoms = seq![a, b];
    assert(T::ok(d, parts[0]) && T::shape_of(parts[0]) == ss[0]);
    assert(T::ok(d, parts[1]) && T::shape_of(parts[1]) == ss[1]);
    assert(T::ok(d, parts[2]) && T::shape_of(parts[2]) == ss[2]);
    assert(T::ok(d, parts[3]) && T::shape_of(parts[3]) == ss[3]);
    assert(part_ok::<S, T>(d, parts, atoms, 0));
    assert(part_ok::<S, T>(d, parts, atoms, 1));
    assert forall|i: int| 0 <= i < atoms.len() implies #[trigger] part_ok::<S, T>(
        d,
        parts,
        atoms,
        i,
    ) by {
        if i == 0 {
            assert(part_ok::<S, T>(d, parts, atoms, 0));
        } else {
            assert(part_ok::<S, T>(d, parts, atoms, 1));
        }
    }
}

/// The parts of a sum.
pub proof fn lemma_sum_parts<S: Scalar, T: Shaped<S>>(
    c: T::C,
    rule: RuleV<S>,
    ins: Seq<T::M>,
    s: Seq<usize>,
    a: AtomV<S>,
    b: AtomV<S>,
)
    requires
        T::good(c),
        shaping::all_ok::<S, T>(c, ins, seq![s]),
        s.len() <= isize::MAX,
        shape::broadcast(a.shape, b.shape) == Some(s),
        crown::binary_rule(BinOpV::Add, a, b, Map::empty()) == Ok::<RuleV<S>, Fault>(rule),
    ensures
        vjp::applied::<S, T>(c, rule, ins).1 matches Ok(parts) ==> {
            let d = vjp::applied::<S, T>(c, rule, ins).0;
            T::good(d) && shaping::remain::<S, T>(c, d) && parts_ok::<S, T>(d, parts, seq![a, b])
        },
{
    let (si, ss) = (seq![s], seq![point()]);
    lemma_meets(s);
    assert(rule.steps[0] == vjp::load_number(scalar::zero::<S>()));
    assert(shaping::step_shaped(rule.steps, si, ss, 0));
    shaping::lemma_applied_shapes::<S, T>(c, rule, ins, si, ss);
    shape::lemma_broadcast_expands(a.shape, b.shape);
    assert(shaping::out_shapes(rule.outs, si, ss) =~= seq![s, point(), s, point()]);
    match vjp::applied::<S, T>(c, rule, ins) {
        (d, Ok(parts)) => {
            lemma_two_parts::<S, T>(d, parts, a, b, s, s);
        },
        _ => {},
    }
}

/// The parts of a sum or a contraction.
#[verifier::spinoff_prover]
#[verifier::rlimit(40)]
pub proof fn lemma_pair_parts<S: Scalar, T: Shaped<S>>(
    c: T::C,
    eqn: EqnV<S>,
    op: BinOpV,
    a: AtomV<S>,
    b: AtomV<S>,
    w: T::M,
    e: Map<Seq<char>, IBPV<S>>,
    p: ParamsV<S, T::M>,
    rule: RuleV<S>,
    ins: Seq<T::M>,
)
    requires
        T::good(c),
        eqn.prim == PrimV::Bin(op, a, b),
        layered::layer_step(eqn.prim, eqn.out.shape),
        layered::well_shaped(a),
        layered::well_shaped(b),
        layered::well_shaped(eqn.out),
        T::ok(c, w),
        T::shape_of(w) == eqn.out.shape,
        crown::bounds_of(e, a) matches Ok(x) && layered::spans(x, a.shape),
        crown::bounds_of(e, b) matches Ok(y) && layered::spans(y, b.shape),
        crown::crown_rule(eqn.prim, eqn.out, T::shape_of(w), e, p) == Ok::<RuleV<S>, Fault>(rule),
        crown::crown_inputs::<S, T>(eqn.prim, eqn.out, w, p) == Ok::<Seq<T::M>, Fault>(ins),
    ensures
        vjp::applied::<S, T>(c, rule, ins).1 matches Ok(parts) ==> {
            let d = vjp::applied::<S, T>(c, rule, ins).0;
            T::good(d) && shaping::remain::<S, T>(c, d) && parts_ok::<S, T>(d, parts, seq![a, b])
        },
{
    let s = eqn.out.shape;
    let si = seq![s];
    assert(ins =~= seq![w]);
    assert(shaping::all_ok::<S, T>(c, ins, si));
    if op is Add {
        lemma_sum_parts::<S, T>(c, rule, ins, s, a, b);
    } else {
        let (x, y) = (crown::bounds_of(e, a)->Ok_0, crown::bounds_of(e, b)->Ok_0);
        let ss = lemma_dot_parts(x, y, rule, s);
        shaping::lemma_applied_shapes::<S, T>(c, rule, ins, si, ss);
        pairing::lemma_same_shape(a.shape);
        pairing::lemma_same_shape(b.shape);
        match vjp::applied::<S, T>(c, rule, ins) {
            (d, Ok(parts)) => {
                lemma_two_parts::<S, T>(d, parts, a, b, a.shape, b.shape);
            },
            _ => {},
        }
    }
}

/// The first `k` operands take over their parts.
pub proof fn lemma_absorbed_all_ok<S: Scalar, T: Shaped<S>>(
    c: T::C,
    at: WalkV<S, T::M>,
    atoms: Seq<AtomV<S>>,
    parts: Seq<T::M>,
    k: nat,
    input: AtomV<S>,
    eqns: Seq<EqnV<S>>,
    j: int,
)
    requires
        T::good(c),
        walk_ok::<S, T>(c, at, input, eqns),
        support::distinct(input.name, eqns),
        0 <= j <= eqns.len(),
        k <= atoms.len(),
        forall|i: int|
            0 <= i < atoms.len() ==> layered::well_shaped(#[trigger] atoms[i])
                && layered::declared(input, eqns, atoms[i], j),
        parts_ok::<S, T>(c, parts, atoms),
    ensures
        crown::absorbed_all::<S, T>(c, at, atoms, parts, k).1 matches Ok(next) ==> {
            let d = crown::absorbed_all::<S, T>(c, at, atoms, parts, k).0;
            T::good(d) && shaping::remain::<S, T>(c, d) && walk_ok::<S, T>(d, next, input, eqns)
        },
    decreases k,
{
    if k > 0 {
        let i = k - 1;
        lemma_absorbed_all_ok::<S, T>(c, at, atoms, parts, i as nat, input, eqns, j);
        match crown::absorbed_all::<S, T>(c, at, atoms, parts, i as nat) {
            (d, Ok(next)) => {
                assert(part_ok::<S, T>(c, parts, atoms, i));
                assert(layered::well_shaped(atoms[i]));
                lemma_absorbed_ok::<S, T>(
                    d,
                    next,
                    atoms[i],
                    parts[2 * i],
                    parts[2 * i + 1],
                    input,
                    eqns,
                    j,
                );
                match crown::absorbed::<S, T>(d, next, atoms[i], parts[2 * i], parts[2 * i + 1]) {
                    (f, Ok(_)) => {
                        lemma_remain_on::<S, T>(c, d, f);
                    },
                    _ => {},
                }
            },
            _ => {},
        }
    }
}

/// The results of the program of one equation.
pub proof fn lemma_step_parts<S: Scalar, T: Shaped<S>>(
    v: spec_fn(S) -> real,
    c: T::C,
    at: WalkV<S, T::M>,
    input: AtomV<S>,
    eqns: Seq<EqnV<S>>,
    e: Map<Seq<char>, IBPV<S>>,
    p: ParamsV<S, T::M>,
    j: int,
)
    requires
        exact::exact(v),
        0 <= j < eqns.len(),
        T::good(c),
        network(input, eqns, e),
        walk_ok::<S, T>(c, at, input, eqns),
        params_ok::<S, T>(c, eqns, p),
        at.weights.dom().contains(eqns[j].out.name),
        crown::stepped::<S, T>(c, at, eqns[j], e, p).1 is Ok,
    ensures
        ({
            let (prim, out) = (eqns[j].prim, eqns[j].out);
            let w = at.weights[out.name];
            let rule = crown::crown_rule(prim, out, T::shape_of(w), e, p)->Ok_0;
            let ins = crown::crown_inputs::<S, T>(prim, out, w, p)->Ok_0;
            let (d, r) = vjp::applied::<S, T>(c, rule, ins);
            &&& T::ok(c, w)
            &&& T::shape_of(w) == out.shape
            &&& T::good(d)
            &&& shaping::remain::<S, T>(c, d)
            &&& parts_ok::<S, T>(d, r->Ok_0, nn::operands_of(prim))
        }),
{
    let eqn = eqns[j];
    let (prim, out) = (eqn.prim, eqn.out);
    assert(layered::layer_eqn(input, eqns, j));
    assert(support::variable(input.name, eqns, j + 1) == out.name);
    let w = at.weights[out.name];
    assert(T::ok(c, w) && T::shape_of(w) == out.shape);
    let rule = crown::crown_rule(prim, out, T::shape_of(w), e, p)->Ok_0;
    let ins = crown::crown_inputs::<S, T>(prim, out, w, p)->Ok_0;
    let atoms = nn::operands_of(prim);
    assert(layered::spans_hold(e, input, eqns, j));
    layered::lemma_operand_span(e, input, eqns, atoms[0], j);
    match prim {
        PrimV::Un(op, a) => {
            if op is Relu {
                assert(param_ok::<S, T>(c, eqn, p));
                lemma_relu_parts::<S, T>(c, eqn, a, w, e, p, rule, ins);
            } else {
                assert(ins =~= seq![w]);
                lemma_neg_parts::<S, T>(c, rule, w, a);
            }
            assert(atoms =~= seq![a]);
        },
        PrimV::Bin(op, a, b) => {
            layered::lemma_operand_span(e, input, eqns, atoms[1], j);
            lemma_pair_parts::<S, T>(c, eqn, op, a, b, w, e, p, rule, ins);
            assert(atoms =~= seq![a, b]);
        },
        _ => {},
    }
}

/// A walk through one equation.
pub proof fn lemma_stepped_ok<S: Scalar, T: Shaped<S>>(
    v: spec_fn(S) -> real,
    c: T::C,
    at: WalkV<S, T::M>,
    input: AtomV<S>,
    eqns: Seq<EqnV<S>>,
    e: Map<Seq<char>, IBPV<S>>,
    p: ParamsV<S, T::M>,
    j: int,
)
    requires
        exact::exact(v),
        0 <= j < eqns.len(),
        T::good(c),
        network(input, eqns, e),
        walk_ok::<S, T>(c, at, input, eqns),
        params_ok::<S, T>(c, eqns, p),
    ensures
        crown::stepped::<S, T>(c, at, eqns[j], e, p).1 matches Ok(next) ==> {
            let d = crown::stepped::<S, T>(c, at, eqns[j], e, p).0;
            T::good(d) && shaping::remain::<S, T>(c, d) && walk_ok::<S, T>(d, next, input, eqns)
        },
{
    let eqn = eqns[j];
    let (prim, out) = (eqn.prim, eqn.out);
    assert(layered::layer_eqn(input, eqns, j));
    if at.weights.dom().contains(out.name) && crown::stepped::<S, T>(c, at, eqn, e, p).1 is Ok {
        assert(support::variable(input.name, eqns, j + 1) == out.name);
        let w = at.weights[out.name];
        assert(T::ok(c, w) && T::shape_of(w) == out.shape);
        let rule = crown::crown_rule(prim, out, T::shape_of(w), e, p)->Ok_0;
        let ins = crown::crown_inputs::<S, T>(prim, out, w, p)->Ok_0;
        let atoms = nn::operands_of(prim);
        lemma_step_parts::<S, T>(v, c, at, input, eqns, e, p, j);
        let (d, r) = vjp::applied::<S, T>(c, rule, ins);
        let parts = r->Ok_0;
        let scores = crown::scored::<S, T>(prim, out, w, e, p, at.scores)->Ok_0;
        let now = WalkV { scores, ..at };
        lemma_walk_remains::<S, T>(c, d, at, input, eqns);
        assert(walk_ok::<S, T>(d, now, input, eqns));
        lemma_absorbed_all_ok::<S, T>(d, now, atoms, parts, atoms.len(), input, eqns, j);
        let f = crown::absorbed_all::<S, T>(d, now, atoms, parts, atoms.len()).0;
        lemma_remain_on::<S, T>(c, d, f);
    }
}

/// A walk through the first `k` equations, from the last of them on.
proof fn lemma_walked_ok<S: Scalar, T: Shaped<S>>(
    v: spec_fn(S) -> real,
    c: T::C,
    at: WalkV<S, T::M>,
    input: AtomV<S>,
    eqns: Seq<EqnV<S>>,
    e: Map<Seq<char>, IBPV<S>>,
    p: ParamsV<S, T::M>,
    k: nat,
)
    requires
        exact::exact(v),
        k <= eqns.len(),
        T::good(c),
        network(input, eqns, e),
        walk_ok::<S, T>(c, at, input, eqns),
        params_ok::<S, T>(c, eqns, p),
    ensures
        crown::walked::<S, T>(c, at, eqns, k, e, p).1 matches Ok(end) ==> {
            let d = crown::walked::<S, T>(c, at, eqns, k, e, p).0;
            T::good(d) && shaping::remain::<S, T>(c, d) && walk_ok::<S, T>(d, end, input, eqns)
        },
    decreases k,
{
    if k > 0 {
        lemma_stepped_ok::<S, T>(v, c, at, input, eqns, e, p, k - 1);
        match crown::stepped::<S, T>(c, at, eqns[k - 1], e, p) {
            (d, Ok(next)) => {
                lemma_params_remain::<S, T>(c, d, eqns, p);
                lemma_walked_ok::<S, T>(v, d, next, input, eqns, e, p, (k - 1) as nat);
                match crown::walked::<S, T>(d, next, eqns, (k - 1) as nat, e, p) {
                    (f, Ok(_)) => {
                        lemma_remain_on::<S, T>(c, d, f);
                    },
                    _ => {},
                }
            },
            _ => {},
        }
    }
}

/// A walk starts with a number, and a weight of the shape of the last variable.
pub proof fn lemma_departed_ok<S: Scalar, T: Shaped<S>>(c: T::C, g: GraphV<S>)
    requires
        T::good(c),
        layered::layered(g),
    ensures
        walk_ok::<S, T>(
            c,
            crown::departed::<S, T>(g.equations[g.equations.len() - 1].out),
            g.invars[0],
            g.equations,
        ),
{
    let (input, eqns) = (g.invars[0], g.equations);
    let n = eqns.len() as int;
    let out = eqns[n - 1].out;
    assert(layered::layer_eqn(input, eqns, n - 1));
    let at = crown::departed::<S, T>(out);
    lemma_meets(out.shape);
    T::law_constant(c, model::scalar_tensor(scalar::zero()));
    T::law_constant(c, model::filled(out.shape, scalar::one()));
    assert(walk_ok::<S, T>(c, at, input, eqns)) by {
        assert(support::variable(input.name, eqns, n) == out.name);
        assert forall|i: int|
            #![trigger support::variable(input.name, eqns, i)]
            0 <= i <= n && at.weights.dom().contains(support::variable(input.name, eqns, i)) implies {
            let w = at.weights[support::variable(input.name, eqns, i)];
            T::ok(c, w) && T::shape_of(w) == layered::shape_at(input, eqns, i)
        } by {
            if i < n {
                assert(support::variable(input.name, eqns, i) != support::variable(
                    input.name,
                    eqns,
                    n,
                ));
            }
        }
    }
}

/// The affine function below the last variable of a network of layers has weights of the shape of
/// the input, and a number as its bias.
pub proof fn lemma_lower_bound_ok<S: Scalar, T: Shaped<S>>(
    v: spec_fn(S) -> real,
    c: T::C,
    g: GraphV<S>,
    e: Map<Seq<char>, IBPV<S>>,
    p: ParamsV<S, T::M>,
    start: StartV,
)
    requires
        exact::exact(v),
        T::good(c),
        layered::layered(g),
        layered::spans_hold(e, g.invars[0], g.equations, g.equations.len() - 1),
        params_ok::<S, T>(c, g.equations, p),
        start is Last || start is Output,
    ensures
        crown::lower_bound::<S, T>(c, g, e, p, start).1 matches Ok((bound, _)) ==> {
            let d = crown::lower_bound::<S, T>(c, g, e, p, start).0;
            &&& T::good(d)
            &&& shaping::remain::<S, T>(c, d)
            &&& T::ok(d, bound.weights)
            &&& T::shape_of(bound.weights) == g.invars[0].shape
            &&& T::ok(d, bound.biases)
            &&& T::shape_of(bound.biases) == point()
        },
{
    let (input, eqns) = (g.invars[0], g.equations);
    let n = eqns.len() as int;
    let out = eqns[n - 1].out;
    let at = crown::departed::<S, T>(out);
    lemma_departed_ok::<S, T>(c, g);
    lemma_walked_ok::<S, T>(v, c, at, input, eqns, e, p, eqns.len());
    match crown::walked::<S, T>(c, at, eqns, eqns.len(), e, p) {
        (d, Ok(end)) => {
            assert(support::variable(input.name, eqns, 0) == input.name);
            T::law_constant(d, model::filled(input.shape, scalar::zero()));
        },
        _ => {},
    }
}

/// The least value of such a function on a box is a number.
pub proof fn lemma_concretized_ok<S: Scalar, T: Shaped<S>>(
    c: T::C,
    a: AffineV<T::M>,
    lb: T::M,
    ub: T::M,
    s: Seq<usize>,
)
    requires
        T::good(c),
        T::ok(c, a.weights),
        T::shape_of(a.weights) == s,
        T::ok(c, a.biases),
        T::shape_of(a.biases) == point(),
        T::ok(c, lb),
        T::shape_of(lb) == s,
        T::ok(c, ub),
        T::shape_of(ub) == s,
        s.len() <= isize::MAX,
    ensures
        shaping::leads::<S, T>(c, affine::concretized::<S, T>(c, a, lb, ub), point()),
{
    let ins = seq![a.weights, a.biases, lb, ub];
    let si = seq![s, point(), s, s];
    let ss = seq![s, s, s, s, point(), point(), s, point(), point()];
    T::law_dense(c, lb);
    lemma_concretize_program::<S>(s);
    assert(shaping::all_ok::<S, T>(c, ins, si));
    shaping::lemma_run_shapes::<S, T>(c, affine::concretize_steps(), ins, si, ss);
    match value::run_steps::<S, T>(c, affine::concretize_steps(), ins) {
        (d, Ok(all)) => {
            assert(T::ok(d, all[8]));
        },
        _ => {},
    }
}

} // verus!
