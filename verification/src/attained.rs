//! Bounds that cannot be improved: the lines of a relaxation meet the function, and the ends of
//! intervals are values that operations take, in exact arithmetic.

use vstd::prelude::*;
use crate::affine;
use crate::crown;
use crate::exact;
use crate::interval;
use crate::interval::IBPV;
use crate::lines;
use crate::lines::{Curve, Lines};
use crate::matrices;
use crate::model;
use crate::model::{BinOpV, Fault, TensorV, UnOpV};
use crate::node_splitting;
use crate::pairing;
use crate::reals;
use crate::sandwich;
use crate::scalar;
use crate::scalar::Scalar;
use crate::shape;
use crate::slopes;
use crate::sums;

verus! {

// ---- rectifiers ----
/// The line above a rectifier on an interval that holds numbers of both signs is zero at its lower
/// end and meets the rectifier at its upper end; elsewhere it is the rectifier itself.
pub proof fn lemma_relu_line_meets<S: Scalar>(v: spec_fn(S) -> real, slope: S, l: S, u: S)
    requires
        exact::exact(v),
        v(l) <= v(u),
    ensures
        ({
            let (us, uo) = (
                v(affine::relu_upper_slope(slope, l, u)),
                v(affine::relu_upper_offset(l, u)),
            );
            &&& v(l) < 0real < v(u) ==> us * v(l) + uo == 0real && us * v(u) + uo == v(u)
            &&& 0real <= v(l) ==> us == 1real && uo == 0real
            &&& v(l) < 0real && v(u) <= 0real ==> us == v(slope) && uo == 0real
        }),
{
    exact::lemma_numbers(v);
    if v(l) < 0real < v(u) {
        let (us, uo) = (
            v(affine::relu_upper_slope(slope, l, u)),
            v(affine::relu_upper_offset(l, u)),
        );
        let (a, b) = (v(l), v(u));
        let w = b - a;
        assert(us * w == b);
        assert(uo * w == (-b) * a);
        assert(us * a + uo == 0real) by (nonlinear_arith)
            requires
                us * w == b,
                uo * w == (-b) * a,
                w > 0real,
        ;
        assert(us * b + uo == b) by (nonlinear_arith)
            requires
                us * w == b,
                us * a + uo == 0real,
                w == b - a,
        ;
    }
}

// ---- curves ----
/// Whether a line meets a function at a number.
pub open spec fn meets<S: Scalar>(
    v: spec_fn(S) -> real,
    f: Curve<S>,
    slope: S,
    offset: S,
    x: S,
) -> bool {
    v(slope) * v(x) + v(offset) == v(model::at_point(sandwich::drawn(f), x))
}

/// Whether a function lies above its tangents on an interval, of those whose lines are a chord and a
/// tangent.
pub open spec fn bends_up<S: Scalar>(v: spec_fn(S) -> real, f: Curve<S>, l: S) -> bool {
    match f {
        Curve::Reciprocal => 0real < v(l),
        Curve::Sqrt => false,
        _ => true,
    }
}

/// Whether one of two lines meets a function at both ends of an interval, and the other at a number
/// of the interval.
pub open spec fn both_meet<S: Scalar>(
    v: spec_fn(S) -> real,
    f: Curve<S>,
    l: S,
    u: S,
    n: Lines<S>,
) -> bool {
    if bends_up(v, f, l) {
        &&& meets(v, f, n.us, n.uo, l)
        &&& meets(v, f, n.us, n.uo, u)
        &&& exists|d: S| v(l) <= v(d) <= v(u) && #[trigger] meets(v, f, n.ls, n.lo, d)
    } else {
        &&& meets(v, f, n.ls, n.lo, l)
        &&& meets(v, f, n.ls, n.lo, u)
        &&& exists|d: S| v(l) <= v(d) <= v(u) && #[trigger] meets(v, f, n.us, n.uo, d)
    }
}

/// A chord meets both ends.
proof fn lemma_chord_meets<S: Scalar>(v: spec_fn(S) -> real, l: S, u: S, fl: S, fu: S)
    requires
        exact::exact(v),
        v(l) < v(u),
    ensures
        ({
            let c = lines::chord(l, u, fl, fu);
            &&& v(c.slope) * v(l) + v(c.offset) == v(fl)
            &&& v(c.slope) * v(u) + v(c.offset) == v(fu)
        }),
{
    let c = lines::chord(l, u, fl, fu);
    let (s, a, b) = (v(c.slope), v(l), v(u));
    assert(s * (b - a) == v(fu) - v(fl));
    exact::lemma_distribute(s, b, a);
}

/// A curve that bends one way, on an interval wide enough to divide by its width: the chord meets it
/// at both ends, and the other line touches it within the interval.
pub proof fn lemma_lines_meet<S: Scalar>(v: spec_fn(S) -> real, f: Curve<S>, l: S, u: S)
    requires
        exact::exact(v),
        sandwich::bends_one_way(v, f, l, u),
        !lines::narrow(l, u),
    ensures
        both_meet(v, f, l, u, lines::curve_lines(f, l, u)),
{
    exact::lemma_numbers(v);
    let t = S::ratio(1, 1000000000);
    assert(v(t) * (1000000000int as real) == 1int as real);
    assert(v(l) < v(u));
    let n = lines::curve_lines(f, l, u);
    let op = sandwich::drawn(f);
    lemma_chord_meets(v, l, u, model::at_point(op, l), model::at_point(op, u));
    let m = lines::halfway(l, u);
    assert(v(m) * 2real == v(l) + v(u));
    match f {
        Curve::Reciprocal => {
            if 0real < v(l) {
                assert(meets(v, f, n.ls, n.lo, m));
            } else {
                assert(meets(v, f, n.us, n.uo, m));
            }
        },
        Curve::Square => {
            let d = lines::square_touch(l, u);
            let x = v(d);
            assert(2real * x * x + (-x) * x == x * x) by (nonlinear_arith);
            assert(meets(v, f, n.ls, n.lo, d));
        },
        Curve::Sqrt => {
            assert(meets(v, f, n.us, n.uo, m));
        },
        Curve::Exp => {
            let c = S::ratio(99, 100);
            assert(v(c) * (100int as real) == 99int as real);
            let d = m.smaller(l.plus(c));
            assert(meets(v, f, n.ls, n.lo, d));
        },
        Curve::Elu(_) => {
            assert(meets(v, f, n.ls, n.lo, m));
        },
        _ => {},
    }
}

// ---- values ----
/// Whether `y` is the value of an elementwise operation at `x`.
pub open spec fn is_value<S: Scalar>(v: spec_fn(S) -> real, op: UnOpV<S>, x: S, y: real) -> bool {
    let a = v(x);
    match op {
        UnOpV::Neg => y + a == 0real,
        UnOpV::Reciprocal => y * a == 1real,
        UnOpV::Square => y == a * a,
        UnOpV::Sqrt => y >= 0real && y * y == a,
        UnOpV::Exp => y == v(x.exponential()),
        UnOpV::Log => y == v(x.logarithm()),
        UnOpV::Relu => y == slopes::positive(a),
        UnOpV::LeakyRelu(slope) => y == (if a >= 0real {
            a
        } else {
            v(slope) * a
        }),
        UnOpV::Elu(slope) => y == (if a >= 0real {
            a
        } else {
            v(slope) * (v(x.exponential()) - 1real)
        }),
        UnOpV::Gelu => y == a * v(scalar::cdf(x)),
        UnOpV::NormalCdf => 2real * y == 1real + v(
            x.over(scalar::num::<S>(2).root()).error_function(),
        ),
        _ => false,
    }
}

/// The elements of the result of an elementwise operation are its values at the elements of the
/// operand, where the operation is defined there.
pub proof fn lemma_values<S: Scalar>(
    v: spec_fn(S) -> real,
    op: UnOpV<S>,
    t: TensorV<S>,
    k: int,
)
    requires
        exact::exact(v),
        model::is_pointwise(op),
        0 <= k < t.data.len(),
        op is Reciprocal ==> v(t.data[k]) != 0real,
        op is Sqrt ==> v(t.data[k]) >= 0real,
    ensures
        ({
            let r = model::un_tensor(op, t);
            &&& r is Ok
            &&& r->Ok_0.shape == t.shape
            &&& r->Ok_0.data.len() == t.data.len()
            &&& is_value(v, op, t.data[k], v(r->Ok_0.data[k]))
        }),
{
    exact::lemma_numbers(v);
    let x = t.data[k];
    match op {
        UnOpV::Elu(slope) => {
            let z = scalar::zero::<S>();
            if v(x) >= 0real {
                exact::lemma_exponential(v, z, x);
            } else {
                exact::lemma_exponential(v, x, z);
            }
            exact::lemma_units(v(slope), 0real);
        },
        UnOpV::NormalCdf => {
            let e = v(x.over(scalar::num::<S>(2).root()).error_function());
            let h = v(scalar::half::<S>());
            assert(h * 2real == 1real);
            exact::lemma_regroup(h, 1real + e, 2real);
            exact::lemma_units(h * (1real + e), 2real);
            exact::lemma_units(1real + e, 2real);
        },
        _ => {},
    }
}

// ---- intervals ----
/// Whether a number is the value of an elementwise operation at a number of an interval.
pub open spec fn taken_on<S: Scalar>(
    v: spec_fn(S) -> real,
    op: UnOpV<S>,
    l: S,
    u: S,
    y: S,
) -> bool {
    exists|x: S| v(l) <= v(x) <= v(u) && v(y) == v(#[trigger] model::at_point(op, x))
}

/// Whether interval bounds of an elementwise operation are exact: the reciprocal is away from zero,
/// and the Gaussian error linear unit, whose least value is a rounded constant, is away from there.
pub open spec fn ends_exact<S: Scalar>(v: spec_fn(S) -> real, op: UnOpV<S>, l: S, u: S) -> bool {
    match op {
        UnOpV::Reciprocal => 0real < v(l) || v(u) < 0real,
        UnOpV::Gelu => v(interval::gelu_arg_min::<S>()) <= v(l) || v(u) < v(
            interval::gelu_arg_min::<S>(),
        ),
        _ => true,
    }
}

/// Both ends of the bounds of an elementwise operation are values that it takes on the interval.
pub proof fn lemma_ends_taken<S: Scalar>(v: spec_fn(S) -> real, op: UnOpV<S>, x: IBPV<S>, y: IBPV<S>, k: int)
    requires
        exact::exact(v),
        model::is_pointwise(op),
        x.lb.data.len() == x.ub.data.len(),
        0 <= k < x.lb.data.len(),
        v(x.lb.data[k]) <= v(x.ub.data[k]),
        ends_exact(v, op, x.lb.data[k], x.ub.data[k]),
        interval::un_interval(op, x) == Ok::<IBPV<S>, Fault>(y),
    ensures
        y.lb.data.len() == x.lb.data.len(),
        y.ub.data.len() == x.ub.data.len(),
        taken_on(v, op, x.lb.data[k], x.ub.data[k], y.lb.data[k]),
        taken_on(v, op, x.lb.data[k], x.ub.data[k], y.ub.data[k]),
{
    exact::lemma_numbers(v);
    let (l, u) = (x.lb.data[k], x.ub.data[k]);
    let (fl, fu) = (model::at_point(op, l), model::at_point(op, u));
    assert(v(fl) == v(model::at_point(op, l)));
    assert(v(fu) == v(model::at_point(op, u)));
    match op {
        UnOpV::Square => {
            let z = scalar::zero::<S>();
            exact::lemma_units(0real, 0real);
            assert(v(model::at_point(op, z)) == 0real);
        },
        UnOpV::Reciprocal => {
            let (p, q) = (v(l), v(u));
            let (a, b) = (v(scalar::one::<S>().over(l)), v(l.inverse()));
            let (c, d) = (v(scalar::one::<S>().over(u)), v(u.inverse()));
            assert(a * p == 1real && b * p == 1real && c * q == 1real && d * q == 1real);
            assert(a == b) by (nonlinear_arith)
                requires
                    a * p == 1real,
                    b * p == 1real,
                    p != 0real,
            ;
            assert(c == d) by (nonlinear_arith)
                requires
                    c * q == 1real,
                    d * q == 1real,
                    q != 0real,
            ;
        },
        _ => {},
    }
}

/// The ends of a sum of two intervals are the sums of their ends.
pub proof fn lemma_sum_ends<S: Scalar>(a: IBPV<S>, b: IBPV<S>, y: IBPV<S>)
    requires
        interval::bin_interval(BinOpV::Add, a, b) == Ok::<IBPV<S>, Fault>(y),
    ensures
        model::bin_tensor(BinOpV::Add, a.lb, b.lb) == Ok::<TensorV<S>, Fault>(y.lb),
        model::bin_tensor(BinOpV::Add, a.ub, b.ub) == Ok::<TensorV<S>, Fault>(y.ub),
{
}

/// Whether a number is a product of ends of two intervals.
pub open spec fn corner_of<S>(
    v: spec_fn(S) -> real,
    a: IBPV<S>,
    i: int,
    b: IBPV<S>,
    j: int,
    y: S,
) -> bool {
    let (al, au, bl, bu) = (
        v(a.lb.data[i]),
        v(a.ub.data[i]),
        v(b.lb.data[j]),
        v(b.ub.data[j]),
    );
    v(y) == al * bl || v(y) == al * bu || v(y) == au * bl || v(y) == au * bu
}

/// Both ends of the bounds of a product are products of ends of its operands.
pub proof fn lemma_product_ends<S: Scalar>(
    v: spec_fn(S) -> real,
    a: IBPV<S>,
    b: IBPV<S>,
    y: IBPV<S>,
    r: int,
)
    requires
        exact::exact(v),
        reals::full(a.lb) && reals::full(a.ub) && a.ub.shape == a.lb.shape,
        reals::full(b.lb) && reals::full(b.ub) && b.ub.shape == b.lb.shape,
        interval::bin_interval(BinOpV::Mul, a, b) == Ok::<IBPV<S>, Fault>(y),
        0 <= r < y.lb.data.len(),
    ensures
        ({
            let (i, j) = (
                shape::source_index(r, y.lb.shape, a.lb.shape),
                shape::source_index(r, y.lb.shape, b.lb.shape),
            );
            &&& y.ub.shape == y.lb.shape
            &&& corner_of(v, a, i, b, j, y.lb.data[r])
            &&& corner_of(v, a, i, b, j, y.ub.data[r])
        }),
{
    let ll = model::bin_tensor(BinOpV::Mul, a.lb, b.lb)->Ok_0;
    let lu = model::bin_tensor(BinOpV::Mul, a.lb, b.ub)->Ok_0;
    let ul = model::bin_tensor(BinOpV::Mul, a.ub, b.lb)->Ok_0;
    let uu = model::bin_tensor(BinOpV::Mul, a.ub, b.ub)->Ok_0;
    pairing::lemma_mul(v, a.lb, b.lb, ll);
    pairing::lemma_mul(v, a.lb, b.ub, lu);
    pairing::lemma_mul(v, a.ub, b.lb, ul);
    pairing::lemma_mul(v, a.ub, b.ub, uu);
    assert(v(ll.data[r]) == v(ll.data[r]));
    assert(v(lu.data[r]) == v(lu.data[r]));
    assert(v(ul.data[r]) == v(ul.data[r]));
    assert(v(uu.data[r]) == v(uu.data[r]));
}

/// The end of an interval that makes its product with `w` small, or with `-w`.
pub open spec fn met_end(w: real, l: real, u: real) -> real {
    if w >= 0real {
        l
    } else {
        u
    }
}

/// The centre plus or minus the radius, scaled: the ends, scaled.
proof fn lemma_ends_met(half: real, l: real, u: real, z: real, c: real, r: real, g: real)
    requires
        half * 2real == 1real,
        c == (l + u) * half,
        r == (u - l) * half,
        g == (if z < 0real {
            -z
        } else {
            z
        }),
    ensures
        c * z + -1real * (r * g) == met_end(z, l, u) * z,
        c * z + r * g == met_end(-z, l, u) * z,
{
    assert(c + r == u && c - r == l) by (nonlinear_arith)
        requires
            half * 2real == 1real,
            c == (l + u) * half,
            r == (u - l) * half,
    ;
    assert(c * z - r * z == (c - r) * z && c * z + r * z == (c + r) * z) by (nonlinear_arith);
    assert(r * -z == -(r * z)) by (nonlinear_arith);
    exact::lemma_units(u, l);
    if z == 0real {
        assert(u * z == 0real && l * z == 0real) by (nonlinear_arith)
            requires
                z == 0real,
        ;
    }
}

/// Both ends of the bounds of a contraction of an interval of matrices with a matrix: every product
/// meets the end that counts.
pub proof fn lemma_contraction_ends<S: Scalar>(
    v: spec_fn(S) -> real,
    a: IBPV<S>,
    b: IBPV<S>,
    y: IBPV<S>,
    i: int,
    j: int,
)
    requires
        exact::exact(v),
        !a.is_point,
        b.is_point,
        reals::full(a.lb) && reals::full(a.ub) && a.ub.shape == a.lb.shape,
        reals::full(b.lb),
        a.lb.shape.len() == 2,
        b.lb.shape.len() == 2,
        interval::bin_interval(BinOpV::Dot, a, b) == Ok::<IBPV<S>, Fault>(y),
        0 <= i < a.lb.shape[0],
        0 <= j < b.lb.shape[1],
    ensures
        ({
            let (n, m) = (a.lb.shape[1], b.lb.shape[1]);
            let r = i * m + j;
            &&& y.lb.shape == seq![a.lb.shape[0], m]
            &&& y.ub.shape == y.lb.shape
            &&& v(y.lb.data[r]) == sums::sum(
                |k: int|
                    met_end(v(b.lb.data[k * m + j]), v(a.lb.data[i * n + k]), v(
                        a.ub.data[i * n + k],
                    )) * v(b.lb.data[k * m + j]),
                n as nat,
            )
            &&& v(y.ub.data[r]) == sums::sum(
                |k: int|
                    met_end(-v(b.lb.data[k * m + j]), v(a.lb.data[i * n + k]), v(
                        a.ub.data[i * n + k],
                    )) * v(b.lb.data[k * m + j]),
                n as nat,
            )
        }),
{
    exact::lemma_numbers(v);
    let (n, m) = (a.lb.shape[1] as int, b.lb.shape[1] as int);
    let r = i * m + j;
    let w = b.lb;
    let mid = interval::middle(a.lb, a.ub);
    let rad = interval::radius(a.ub, a.lb);
    let mag = interval::magnitudes(w);
    let c = model::bin_tensor(BinOpV::Dot, mid, w)->Ok_0;
    let d = model::bin_tensor(BinOpV::Dot, rad, mag)->Ok_0;
    matrices::lemma_matmul(v, mid, w, c, i, j);
    matrices::lemma_matmul(v, rad, mag, d, i, j);
    let f = |k: int| v(mid.data[i * mid.shape[1] + k]) * v(w.data[k * w.shape[1] + j]);
    let h = |k: int| v(rad.data[i * rad.shape[1] + k]) * v(mag.data[k * mag.shape[1] + j]);
    let low = |k: int|
        met_end(v(b.lb.data[k * m + j]), v(a.lb.data[i * n + k]), v(a.ub.data[i * n + k])) * v(
            b.lb.data[k * m + j],
        );
    let high = |k: int|
        met_end(-v(b.lb.data[k * m + j]), v(a.lb.data[i * n + k]), v(a.ub.data[i * n + k])) * v(
            b.lb.data[k * m + j],
        );
    assert(v(c.data[r]) == sums::sum(f, n as nat));
    assert(v(d.data[r]) == sums::sum(h, n as nat));
    assert(v(y.lb.data[r]) == v(c.data[r]) - v(d.data[r]));
    assert(v(y.ub.data[r]) == v(c.data[r]) + v(d.data[r]));
    let minus = |k: int| -1real * h(k);
    matrices::lemma_product2(a.lb.shape);
    matrices::lemma_product2(w.shape);
    assert forall|k: int| 0 <= k < n implies f(k) + -1real * h(k) == #[trigger] low(k) && f(k) + h(
        k,
    ) == high(k) by {
        crate::manipulate::lemma_cell(i, k, a.lb.shape[0] as int, n);
        crate::manipulate::lemma_cell(k, j, w.shape[0] as int, m);
        let (p, q) = (i * n + k, k * m + j);
        let (l, u, z) = (v(a.lb.data[p]), v(a.ub.data[p]), v(w.data[q]));
        assert(f(k) == v(mid.data[p]) * z);
        assert(h(k) == v(rad.data[p]) * v(mag.data[q]));
        lemma_ends_met(
            v(scalar::half::<S>()),
            l,
            u,
            z,
            v(mid.data[p]),
            v(rad.data[p]),
            v(mag.data[q]),
        );
    }
    sums::lemma_sum_scale(-1real, h, minus, n as nat);
    let less = |k: int| f(k) + minus(k);
    let more = |k: int| f(k) + h(k);
    sums::lemma_sum_plus(f, minus, less, n as nat);
    sums::lemma_sum_plus(f, h, more, n as nat);
    assert forall|k: int| 0 <= k < n implies #[trigger] less(k) == low(k) by {
        assert(f(k) + -1real * h(k) == low(k));
    }
    assert forall|k: int| 0 <= k < n implies #[trigger] more(k) == high(k) by {
        assert(f(k) + -1real * h(k) == low(k));
    }
    sums::lemma_sum_same(less, low, n as nat);
    sums::lemma_sum_same(more, high, n as nat);
}

// ---- phases ----
/// Of the undecided neurons the one with the greatest score is forked.
pub proof fn lemma_greatest_score<S: Scalar>(
    v: spec_fn(S) -> real,
    splits: Seq<S>,
    scores: Seq<S>,
    k: nat,
)
    requires
        exact::exact(v),
    ensures
        match node_splitting::best_open(splits, scores, k) {
            Some(i) => 0 <= i < k && v(splits[i]) == 0real && forall|j: int|
                0 <= j < k && v(#[trigger] splits[j]) == 0real ==> v(scores[j]) <= v(scores[i]),
            None => forall|j: int| 0 <= j < k ==> v(#[trigger] splits[j]) != 0real,
        },
    decreases k,
{
    exact::lemma_numbers(v);
    if k > 0 {
        lemma_greatest_score(v, splits, scores, (k - 1) as nat);
    }
}

/// Whether a rectifier whose input lies between `l` and `u` can have the phase that `s` asks for.
pub open spec fn phase_possible(s: real, l: real, u: real) -> bool {
    (s > 0real ==> u >= 0real) && (s < 0real ==> l <= 0real)
}

/// A rectifier under a split: there are no bounds exactly where some neuron cannot have its phase.
/// An active one keeps the part of its bounds that is not negative, an inactive one is zero.
pub proof fn lemma_phase_bounds<S: Scalar>(v: spec_fn(S) -> real, x: IBPV<S>, s: TensorV<S>)
    requires
        exact::exact(v),
        s.shape == x.lb.shape,
        x.lb.data.len() == s.data.len(),
        x.ub.data.len() == s.data.len(),
    ensures
        match node_splitting::split_relu(x, s) {
            None => exists|k: int|
                0 <= k < s.data.len() && !phase_possible(
                    v(#[trigger] s.data[k]),
                    v(x.lb.data[k]),
                    v(x.ub.data[k]),
                ),
            Some(y) => forall|k: int|
                0 <= k < s.data.len() ==> {
                    let (l, u) = (v(x.lb.data[k]), v(x.ub.data[k]));
                    let (a, b) = (v(y.lb.data[k]), v(y.ub.data[k]));
                    &&& phase_possible(v(#[trigger] s.data[k]), l, u)
                    &&& v(s.data[k]) < 0real ==> a == 0real && b == 0real
                    &&& v(s.data[k]) >= 0real ==> a == slopes::positive(l)
                    &&& v(s.data[k]) > 0real ==> b == u
                    &&& v(s.data[k]) == 0real ==> b == slopes::positive(u)
                },
        },
{
    exact::lemma_numbers(v);
    match node_splitting::split_relu(x, s) {
        None => {
            let k = choose|k: int|
                0 <= k < s.data.len() && !node_splitting::can_have_sign(
                    x.lb.data[k],
                    x.ub.data[k],
                    #[trigger] s.data[k],
                );
            assert(!phase_possible(v(s.data[k]), v(x.lb.data[k]), v(x.ub.data[k])));
        },
        Some(y) => {
            assert forall|k: int| 0 <= k < s.data.len() implies {
                let (l, u) = (v(x.lb.data[k]), v(x.ub.data[k]));
                let (a, b) = (v(y.lb.data[k]), v(y.ub.data[k]));
                &&& phase_possible(v(#[trigger] s.data[k]), l, u)
                &&& v(s.data[k]) < 0real ==> a == 0real && b == 0real
                &&& v(s.data[k]) >= 0real ==> a == slopes::positive(l)
                &&& v(s.data[k]) > 0real ==> b == u
                &&& v(s.data[k]) == 0real ==> b == slopes::positive(u)
            } by {
                assert(node_splitting::can_have_sign(x.lb.data[k], x.ub.data[k], s.data[k]));
            }
        },
    }
}

/// The smaller of two numbers.
pub open spec fn lesser(a: real, b: real) -> real {
    if a <= b {
        a
    } else {
        b
    }
}

/// A number without its sign.
pub open spec fn unsigned(a: real) -> real {
    if a < 0real {
        -a
    } else {
        a
    }
}

/// What fixing the phase of a neuron is estimated to gain: nothing where it has one phase, and
/// elsewhere, times the width of its bounds, how far the lesser of its bias at the two ends, weighted,
/// lies from what the line above the rectifier gives away.
pub proof fn lemma_gain<S: Scalar>(v: spec_fn(S) -> real, pre: S, l: S, u: S, b: S)
    requires
        exact::exact(v),
    ensures
        !(v(l) < 0real < v(u)) ==> v(crown::gain(pre, l, u, b)) == 0real,
        v(l) < 0real < v(u) ==> v(crown::gain(pre, l, u, b)) * (v(u) - v(l)) == unsigned(
            lesser(v(u) * v(pre) * v(b), v(l) * v(pre) * v(b)) - v(u) * v(l) * slopes::positive(
                v(pre),
            ),
        ),
{
    exact::lemma_numbers(v);
    if v(l) < 0real < v(u) {
        let span = u.minus(l);
        let slope = u.over(span);
        let (s, w, c, d) = (v(slope), v(span), v(pre), v(b));
        assert(s * w == v(u));
        exact::lemma_distribute(w, s, 1real);
        exact::lemma_units(w, w);
        let t = s - 1real;
        assert(t * w == v(l));
        let (m, n) = (s * c * d, t * c * d);
        exact::lemma_regroup(s, c, w);
        exact::lemma_regroup(s * c, d, w);
        exact::lemma_regroup(t, c, w);
        exact::lemma_regroup(t * c, d, w);
        assert(m * w == v(u) * c * d);
        assert(n * w == v(l) * c * d);
        let q = v(u.times(l).over(span));
        let e = slopes::positive(c);
        assert(q * w == v(u) * v(l));
        exact::lemma_regroup(q, e, w);
        assert(q * e * w == v(u) * v(l) * e);
        let k = lesser(m, n);
        if m <= n {
            exact::lemma_scale_le(w, m, n);
        } else {
            exact::lemma_scale_le(w, n, m);
        }
        assert(k * w == lesser(m * w, n * w));
        let x = k - q * e;
        exact::lemma_distribute(w, k, q * e);
        exact::lemma_units(x, w);
        if x < 0real {
            exact::lemma_scale_le(w, x, 0real);
        } else {
            exact::lemma_scale_le(w, 0real, x);
        }
        exact::lemma_units(w, 0real);
        assert(unsigned(x) * w == unsigned(x * w));
        assert(v(crown::gain(pre, l, u, b)) == unsigned(x));
    }
}

} // verus!
