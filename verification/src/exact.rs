//! Exact arithmetic: numbers that stand for real numbers, with operations that do not round.

use vstd::prelude::*;
use crate::scalar;
use crate::scalar::Scalar;

verus! {

/// Whether the operations of `S` are exact when a number `x` is read as the real number `v(x)`.
/// Of the exponential function, the logarithm and the error function only what orders their
/// values is asked.
pub open spec fn exact<S: Scalar>(v: spec_fn(S) -> real) -> bool {
    &&& arithmetic(v)
    &&& ordering(v)
    &&& elementary(v)
}

/// Whether sums, products, quotients and fractions are exact.
pub open spec fn arithmetic<S: Scalar>(v: spec_fn(S) -> real) -> bool {
    &&& forall|a: S, b: S| v(#[trigger] a.plus(b)) == v(a) + v(b)
    &&& forall|a: S, b: S| v(#[trigger] a.minus(b)) == v(a) - v(b)
    &&& forall|a: S, b: S| v(#[trigger] a.times(b)) == v(a) * v(b)
    &&& forall|a: S, b: S| v(b) != 0real ==> v(#[trigger] a.over(b)) * v(b) == v(a)
    &&& forall|a: S| v(#[trigger] a.opposite()) == -v(a)
    &&& forall|a: S| v(a) != 0real ==> v(#[trigger] a.inverse()) * v(a) == 1real
    &&& forall|n: int, d: int| d > 0 ==> v(#[trigger] S::ratio(n, d)) * (d as real) == n as real
}

/// Whether comparisons, maxima, minima and magnitudes are exact. What stands for infinity is not
/// negative.
pub open spec fn ordering<S: Scalar>(v: spec_fn(S) -> real) -> bool {
    &&& 0real <= v(S::top())
    &&& forall|a: S, b: S| #[trigger] a.at_most(b) == (v(a) <= v(b))
    &&& forall|a: S, b: S| #[trigger] a.less(b) == (v(a) < v(b))
    &&& forall|a: S, b: S| #[trigger] a.same(b) == (v(a) == v(b))
    &&& forall|a: S, b: S| #[trigger] a.before(b) == (v(a) < v(b))
    &&& forall|a: S, b: S|
        v(#[trigger] a.larger(b)) == (if v(a) <= v(b) {
            v(b)
        } else {
            v(a)
        })
    &&& forall|a: S, b: S|
        v(#[trigger] a.smaller(b)) == (if v(a) <= v(b) {
            v(a)
        } else {
            v(b)
        })
    &&& forall|a: S|
        v(#[trigger] a.magnitude()) == (if v(a) < 0real {
            -v(a)
        } else {
            v(a)
        })
}

/// What orders the values of the elementary functions: roots are roots; the exponential function
/// is positive, lies above its tangents and is one at zero; logarithms rise; so does the error
/// function.
pub open spec fn elementary<S: Scalar>(v: spec_fn(S) -> real) -> bool {
    &&& forall|a: S|
        v(a) >= 0real ==> v(#[trigger] a.root()) >= 0real && v(a.root()) * v(a.root()) == v(a)
    &&& forall|a: S| v(#[trigger] a.exponential()) > 0real
    &&& forall|a: S| v(a) == 0real ==> v(#[trigger] a.exponential()) == 1real
    &&& forall|a: S, b: S|
        v(#[trigger] a.exponential()) >= v(#[trigger] b.exponential()) + v(b.exponential()) * (v(a)
            - v(b))
    &&& forall|a: S, b: S|
        0real < v(a) <= v(b) ==> v(#[trigger] a.logarithm()) <= v(#[trigger] b.logarithm())
    &&& forall|a: S, b: S|
        v(a) <= v(b) ==> v(#[trigger] a.error_function()) <= v(#[trigger] b.error_function())
}

/// The numbers that the library writes down, read exactly.
pub proof fn lemma_numbers<S: Scalar>(v: spec_fn(S) -> real)
    requires
        arithmetic(v),
    ensures
        v(scalar::zero::<S>()) == 0real,
        v(scalar::one::<S>()) == 1real,
        v(scalar::half::<S>()) * 2real == 1real,
        v(scalar::num::<S>(2)) == 2real,
{
    assert(v(S::ratio(0, 1)) * (1int as real) == 0int as real);
    assert(v(S::ratio(1, 1)) * (1int as real) == 1int as real);
    assert(v(S::ratio(1, 2)) * (2int as real) == 1int as real);
    assert(v(S::ratio(2, 1)) * (1int as real) == 2int as real);
}

// ---- products and quotients of real numbers ----
/// A product with a factor that is not negative keeps the order.
pub proof fn lemma_scale_le(c: real, a: real, b: real)
    by (nonlinear_arith)
    requires
        0real <= c,
        a <= b,
    ensures
        c * a <= c * b,
        a * c <= b * c,
{
}

/// A product with a factor that is not positive turns the order round.
pub proof fn lemma_scale_ge(c: real, a: real, b: real)
    by (nonlinear_arith)
    requires
        c <= 0real,
        a <= b,
    ensures
        c * b <= c * a,
        b * c <= a * c,
{
}

/// Products with a sum.
pub proof fn lemma_distribute(c: real, a: real, b: real)
    by (nonlinear_arith)
    ensures
        c * (a + b) == c * a + c * b,
        (a + b) * c == a * c + b * c,
        c * (a - b) == c * a - c * b,
        (a - b) * c == a * c - b * c,
        c * a == a * c,
{
}

/// Products of three numbers.
pub proof fn lemma_regroup(a: real, b: real, c: real)
    by (nonlinear_arith)
    ensures
        a * b * c == a * (b * c),
        a * b * c == b * (a * c),
        a * b * c == c * (a * b),
        a * b * c == (a * c) * b,
{
}

/// Products with zero, one and negatives.
pub proof fn lemma_units(a: real, b: real)
    by (nonlinear_arith)
    ensures
        a * 0real == 0real,
        0real * a == 0real,
        a * 1real == a,
        1real * a == a,
        (-a) * b == -(a * b),
        a * (-b) == -(a * b),
        a * b == b * a,
{
}

/// A positive factor cancels.
pub proof fn lemma_cancel(d: real, a: real, b: real)
    requires
        0real < d,
        a * d <= b * d,
    ensures
        a <= b,
{
    let e = a - b;
    lemma_distribute(d, a, b);
    if e > 0real {
        assert(e * d > 0real) by (nonlinear_arith)
            requires
                e > 0real,
                d > 0real,
        ;
    }
}

/// A square is not negative.
pub proof fn lemma_square(a: real)
    by (nonlinear_arith)
    ensures
        0real <= a * a,
{
}

/// A product lies between the products of the ends.
pub proof fn lemma_corners(xl: real, x: real, xu: real, yl: real, y: real, yu: real)
    requires
        xl <= x <= xu,
        yl <= y <= yu,
    ensures
        xl * yl <= x * y || xl * yu <= x * y || xu * yl <= x * y || xu * yu <= x * y,
        x * y <= xl * yl || x * y <= xl * yu || x * y <= xu * yl || x * y <= xu * yu,
{
    // the product is linear in `y`, then in `x`
    if x >= 0real {
        lemma_scale_le(x, yl, y);
        lemma_scale_le(x, y, yu);
    } else {
        lemma_scale_ge(x, yl, y);
        lemma_scale_ge(x, y, yu);
    }
    if yl >= 0real {
        lemma_scale_le(yl, xl, x);
        lemma_scale_le(yl, x, xu);
    } else {
        lemma_scale_ge(yl, xl, x);
        lemma_scale_ge(yl, x, xu);
    }
    if yu >= 0real {
        lemma_scale_le(yu, xl, x);
        lemma_scale_le(yu, x, xu);
    } else {
        lemma_scale_ge(yu, xl, x);
        lemma_scale_ge(yu, x, xu);
    }
}

// ---- monotone functions ----
/// The exponential function rises.
pub proof fn lemma_exponential<S: Scalar>(v: spec_fn(S) -> real, a: S, b: S)
    requires
        exact(v),
        v(a) <= v(b),
    ensures
        v(a.exponential()) <= v(b.exponential()),
{
    let (ea, eb) = (v(a.exponential()), v(b.exponential()));
    assert(eb >= ea + ea * (v(b) - v(a)));
    lemma_scale_le(ea, 0real, v(b) - v(a));
    assert(ea * 0real == 0real) by (nonlinear_arith);
}

/// Roots rise.
pub proof fn lemma_root<S: Scalar>(v: spec_fn(S) -> real, a: S, b: S)
    requires
        exact(v),
        0real <= v(a) <= v(b),
    ensures
        v(a.root()) <= v(b.root()),
{
    let (p, q) = (v(a.root()), v(b.root()));
    assert(p <= q) by (nonlinear_arith)
        requires
            0real <= p,
            0real <= q,
            p * p <= q * q,
    ;
}

/// The root of two is positive.
pub proof fn lemma_root_two<S: Scalar>(v: spec_fn(S) -> real)
    requires
        exact(v),
    ensures
        v(scalar::num::<S>(2).root()) > 0real,
{
    lemma_numbers(v);
    let r = v(scalar::num::<S>(2).root());
    assert(r != 0real) by (nonlinear_arith)
        requires
            r * r == 2real,
    ;
}

/// Quotients by a positive number rise.
pub proof fn lemma_over<S: Scalar>(v: spec_fn(S) -> real, a: S, b: S, d: S)
    requires
        exact(v),
        v(a) <= v(b),
        v(d) > 0real,
    ensures
        v(a.over(d)) <= v(b.over(d)),
{
    let (p, q, c) = (v(a.over(d)), v(b.over(d)), v(d));
    assert(p <= q) by (nonlinear_arith)
        requires
            p * c <= q * c,
            c > 0real,
    ;
}

/// The normal distribution function rises.
pub proof fn lemma_cdf<S: Scalar>(v: spec_fn(S) -> real, a: S, b: S)
    requires
        exact(v),
        v(a) <= v(b),
    ensures
        v(scalar::cdf(a)) <= v(scalar::cdf(b)),
{
    lemma_numbers(v);
    lemma_root_two(v);
    let r = scalar::num::<S>(2).root();
    lemma_over(v, a, b, r);
    let (p, q) = (a.over(r).error_function(), b.over(r).error_function());
    let h = v(scalar::half::<S>());
    lemma_scale_le(h, v(scalar::one::<S>().plus(p)), v(scalar::one::<S>().plus(q)));
}

/// The leaky rectifier rises where its slope is not negative.
pub proof fn lemma_leaky<S: Scalar>(v: spec_fn(S) -> real, slope: S, a: S, b: S)
    requires
        exact(v),
        v(a) <= v(b),
        v(slope) >= 0real,
    ensures
        v(scalar::leaky(slope, a)) <= v(scalar::leaky(slope, b)),
{
    lemma_numbers(v);
    lemma_scale_le(v(slope), v(a), v(b));
    if v(a) < 0real {
        lemma_scale_le(v(slope), v(a), 0real);
    }
    assert(v(slope) * 0real == 0real) by (nonlinear_arith);
}

/// The exponential linear unit rises where its slope is not negative.
pub proof fn lemma_elu<S: Scalar>(v: spec_fn(S) -> real, slope: S, a: S, b: S)
    requires
        exact(v),
        v(a) <= v(b),
        v(slope) >= 0real,
    ensures
        v(scalar::elu_of(slope, a)) <= v(scalar::elu_of(slope, b)),
{
    lemma_numbers(v);
    lemma_exponential(v, a, b);
    let (p, q) = (
        a.exponential().minus(scalar::one()).smaller(scalar::zero()),
        b.exponential().minus(scalar::one()).smaller(scalar::zero()),
    );
    lemma_scale_le(v(slope), v(p), v(q));
}

/// Whether the standard normal distribution function bends as it does: up to zero it lies above
/// its tangents there, from zero on below them.
pub open spec fn bell_shaped<S: Scalar>(v: spec_fn(S) -> real) -> bool {
    &&& forall|a: S, b: S|
        v(a) <= 0real && v(b) <= 0real ==> v(#[trigger] scalar::cdf(a)) >= v(scalar::cdf(b)) + v(
            #[trigger] scalar::pdf(b),
        ) * (v(a) - v(b))
    &&& forall|a: S, b: S|
        0real <= v(a) && 0real <= v(b) ==> v(#[trigger] scalar::cdf(a)) <= v(scalar::cdf(b)) + v(
            #[trigger] scalar::pdf(b),
        ) * (v(a) - v(b))
}

} // verus!
