//! The lines of the relaxations lie below and above their functions.

use vstd::prelude::*;
use crate::carry;
use crate::exact;
use crate::lines;
use crate::lines::{Curve, Line};
use crate::model;
use crate::model::UnOpV;
use crate::scalar;
use crate::scalar::Scalar;
use crate::slopes;

verus! {

/// The operation that a curve draws.
pub open spec fn drawn<S>(f: Curve<S>) -> UnOpV<S> {
    match f {
        Curve::Reciprocal => UnOpV::Reciprocal,
        Curve::Square => UnOpV::Square,
        Curve::Sqrt => UnOpV::Sqrt,
        Curve::Exp => UnOpV::Exp,
        Curve::NormalCdf => UnOpV::NormalCdf,
        Curve::Elu(slope) => UnOpV::Elu(slope),
        Curve::Gelu => UnOpV::Gelu,
    }
}

/// Whether an interval is a point or wide enough to divide by its width. A flat line stands for
/// the lines on an interval that is neither.
pub open spec fn point_or_wide<S: Scalar>(v: spec_fn(S) -> real, l: S, u: S) -> bool {
    v(l) == v(u) || !lines::narrow(l, u)
}

/// Whether a function is defined on an interval, and convex or concave there. The functions that
/// the error function makes turn from one to the other; their lines are a matter of their own.
pub open spec fn bends_one_way<S: Scalar>(v: spec_fn(S) -> real, f: Curve<S>, l: S, u: S) -> bool {
    match f {
        Curve::Reciprocal => 0real < v(l) || v(u) < 0real,
        Curve::Sqrt => 0real <= v(l),
        Curve::Elu(slope) => 0real <= v(slope) <= 1real,
        Curve::NormalCdf | Curve::Gelu => false,
        _ => true,
    }
}

/// The middle of an interval.
proof fn lemma_halfway<S: Scalar>(v: spec_fn(S) -> real, l: S, u: S)
    requires
        exact::exact(v),
    ensures
        v(lines::halfway(l, u)) * 2real == v(l) + v(u),
{
    exact::lemma_numbers(v);
}

/// A width.
proof fn lemma_wide<S: Scalar>(v: spec_fn(S) -> real, l: S, u: S)
    requires
        exact::exact(v),
    ensures
        !lines::narrow(l, u) ==> v(l) < v(u),
        v(l) == v(u) ==> lines::narrow(l, u),
{
    let t = S::ratio(1, 1000000000);
    assert(v(t) * (1000000000int as real) == 1int as real);
}

/// The slope of a chord.
proof fn lemma_chord_slope<S: Scalar>(v: spec_fn(S) -> real, l: S, u: S, fl: S, fu: S)
    requires
        exact::exact(v),
        v(l) < v(u),
    ensures
        ({
            let c = lines::chord(l, u, fl, fu);
            &&& v(c.slope) * (v(u) - v(l)) == v(fu) - v(fl)
            &&& v(c.offset) == v(fl) - v(c.slope) * v(l)
        }),
{
}

/// A flat line.
proof fn lemma_flat<S: Scalar>(v: spec_fn(S) -> real, y: S, x: S)
    requires
        exact::exact(v),
    ensures
        v(lines::flat(y).slope) * v(x) + v(lines::flat(y).offset) == v(y),
{
    exact::lemma_numbers(v);
    exact::lemma_units(v(x), v(x));
}

/// The line below a convex function is a tangent; the line above is its chord.
proof fn lemma_upper_chord<S: Scalar>(
    v: spec_fn(S) -> real,
    l: S,
    x: S,
    u: S,
    fl: S,
    y: S,
    fu: S,
    t: real,
    upper: Line<S>,
)
    requires
        exact::exact(v),
        v(l) <= v(x) <= v(u),
        point_or_wide(v, l, u),
        upper == (if lines::narrow(l, u) {
            lines::flat(fl)
        } else {
            lines::chord(l, u, fl, fu)
        }),
        v(fl) >= v(y) + t * (v(l) - v(x)),
        v(fu) >= v(y) + t * (v(u) - v(x)),
    ensures
        v(y) <= v(upper.slope) * v(x) + v(upper.offset),
{
    lemma_wide(v, l, u);
    if lines::narrow(l, u) {
        lemma_flat(v, fl, x);
        exact::lemma_units(t, t);
    } else {
        lemma_chord_slope(v, l, u, fl, fu);
        slopes::lemma_below_chord(v(l), v(x), v(u), v(fl), v(y), v(fu), v(upper.slope), t);
    }
}

/// The lines of the square.
proof fn lemma_square_lines<S: Scalar>(v: spec_fn(S) -> real, l: S, u: S, x: S)
    requires
        exact::exact(v),
        v(l) <= v(x) <= v(u),
        point_or_wide(v, l, u),
    ensures
        carry::between_lines(v, lines::square_sandwich(l, u), x, x.times(x)),
{
    exact::lemma_numbers(v);
    let d = lines::square_touch(l, u);
    slopes::lemma_square_tangent(v(x), v(d));
    slopes::lemma_square_tangent(v(l), v(x));
    slopes::lemma_square_tangent(v(u), v(x));
    let upper = if lines::narrow(l, u) {
        lines::flat(l.times(l))
    } else {
        lines::chord(l, u, l.times(l), u.times(u))
    };
    lemma_upper_chord(
        v,
        l,
        x,
        u,
        l.times(l),
        x.times(x),
        u.times(u),
        2real * v(x),
        upper,
    );
}

/// The lines of the exponential function.
proof fn lemma_exp_lines<S: Scalar>(v: spec_fn(S) -> real, l: S, u: S, x: S)
    requires
        exact::exact(v),
        v(l) <= v(x) <= v(u),
        point_or_wide(v, l, u),
    ensures
        carry::between_lines(v, lines::exp_sandwich(l, u), x, x.exponential()),
{
    let d = lines::halfway(l, u).smaller(l.plus(S::ratio(99, 100)));
    let s = v(d.exponential());
    assert(v(x.exponential()) >= s + s * (v(x) - v(d)));
    exact::lemma_distribute(s, v(x), v(d));
    let y = x.exponential();
    assert(v(l.exponential()) >= v(y) + v(y) * (v(l) - v(x)));
    assert(v(u.exponential()) >= v(y) + v(y) * (v(u) - v(x)));
    let upper = if lines::narrow(l, u) {
        lines::flat(l.exponential())
    } else {
        lines::chord(l, u, l.exponential(), u.exponential())
    };
    lemma_upper_chord(v, l, x, u, l.exponential(), y, u.exponential(), v(y), upper);
}

/// What an exponential linear unit is.
proof fn lemma_elu_value<S: Scalar>(v: spec_fn(S) -> real, slope: S, x: S)
    requires
        exact::exact(v),
    ensures
        v(x) >= 0real ==> v(scalar::elu_of(slope, x)) == v(x),
        v(x) < 0real ==> v(scalar::elu_of(slope, x)) == v(slope) * (v(x.exponential()) - 1real),
        v(x) >= 0real ==> v(x.exponential()) >= 1real + v(x),
        v(x) < 0real ==> 1real + v(x) <= v(x.exponential()) <= 1real,
{
    exact::lemma_numbers(v);
    let z = scalar::zero::<S>();
    let (e, o) = (v(x.exponential()), v(z.exponential()));
    assert(o == 1real);
    assert(e >= o + o * (v(x) - v(z)));
    assert(o >= e + e * (v(z) - v(x)));
    exact::lemma_units(v(x), v(x));
    exact::lemma_units(v(slope), v(slope));
    if v(x) < 0real {
        exact::lemma_scale_le(e, 0real, -v(x));
        exact::lemma_units(e, v(x));
    }
}

/// The exponential linear unit lies above its tangents where its slope is between zero and one.
proof fn lemma_elu_tangent<S: Scalar>(v: spec_fn(S) -> real, slope: S, x: S, d: S)
    requires
        exact::exact(v),
        0real <= v(slope) <= 1real,
    ensures
        v(scalar::elu_of(slope, x)) >= v(scalar::elu_of(slope, d)) + v(lines::elu_slope(slope, d))
            * (v(x) - v(d)),
{
    exact::lemma_numbers(v);
    lemma_elu_value(v, slope, x);
    lemma_elu_value(v, slope, d);
    let (s, a, b) = (v(slope), v(x), v(d));
    let (ex, ed) = (v(x.exponential()), v(d.exponential()));
    assert(ex >= ed + ed * (a - b));
    exact::lemma_units(a - b, a - b);
    if b >= 0real {
        // the tangent is the identity
        if a < 0real {
            // s (exp a - 1) >= exp a - 1 >= a
            exact::lemma_scale_ge(ex - 1real, s, 1real);
            exact::lemma_units(ex - 1real, s);
        }
    } else {
        exact::lemma_regroup(s, ed, a - b);
        exact::lemma_scale_le(s, ed - 1real + ed * (a - b), ex - 1real);
        exact::lemma_distribute(s, ed - 1real, ed * (a - b));
        if a >= 0real {
            // below, exp d - 1 + exp d (a - d) <= a
            let z = scalar::zero::<S>();
            let o = v(z.exponential());
            assert(o >= ed + ed * (v(z) - b));
            exact::lemma_distribute(ed, a, b);
            exact::lemma_units(ed, b);
            exact::lemma_scale_le(a, ed, 1real);
            exact::lemma_units(a, ed);
            let t = ed - 1real + ed * (a - b);
            assert(ed * (v(z) - b) == -(ed * b)) by {
                assert(v(z) - b == -b);
            }
            assert(t <= a);
            exact::lemma_scale_le(s, t, a);
            exact::lemma_scale_le(a, s, 1real);
            exact::lemma_units(a, s);
        }
    }
}

/// The lines of the exponential linear unit.
proof fn lemma_elu_lines<S: Scalar>(v: spec_fn(S) -> real, slope: S, l: S, u: S, x: S)
    requires
        exact::exact(v),
        v(l) <= v(x) <= v(u),
        point_or_wide(v, l, u),
        0real <= v(slope) <= 1real,
    ensures
        carry::between_lines(
            v,
            lines::elu_sandwich(slope, l, u),
            x,
            scalar::elu_of(slope, x),
        ),
{
    let d = lines::halfway(l, u);
    lemma_elu_tangent(v, slope, x, d);
    lemma_elu_tangent(v, slope, l, x);
    lemma_elu_tangent(v, slope, u, x);
    let t = v(lines::elu_slope(slope, d));
    exact::lemma_distribute(t, v(x), v(d));
    let (fl, y, fu) = (
        scalar::elu_of(slope, l),
        scalar::elu_of(slope, x),
        scalar::elu_of(slope, u),
    );
    let upper = if lines::narrow(l, u) {
        lines::flat(fl)
    } else {
        lines::chord(l, u, fl, fu)
    };
    lemma_upper_chord(v, l, x, u, fl, y, fu, v(lines::elu_slope(slope, x)), upper);
}

/// The slope of a tangent to the reciprocal.
proof fn lemma_reciprocal_slope<S: Scalar>(v: spec_fn(S) -> real, d: S)
    requires
        exact::exact(v),
        v(d) != 0real,
    ensures
        v(d.inverse()) * v(d) == 1real,
        v(scalar::num::<S>(-1).over(d.times(d))) == -(v(d.inverse()) * v(d.inverse())),
{
    let (a, q) = (v(d), v(d.inverse()));
    let s = v(scalar::num::<S>(-1).over(d.times(d)));
    assert(v(S::ratio(-1, 1)) * (1int as real) == (-1int) as real);
    let k = a * a;
    assert(k != 0real) by {
        if k == 0real {
            exact::lemma_regroup(a, a, q);
            exact::lemma_units(q, a);
            exact::lemma_units(a, q);
        }
    }
    assert(s * k == -1real);
    // s == s (a q)(a q) == -(q q)
    exact::lemma_regroup(q, q, k);
    exact::lemma_regroup(a, a, q);
    exact::lemma_units(a, q);
    assert(k * q == a) by {
        assert(a * a * q == a * (a * q));
        exact::lemma_units(a, a);
    }
    assert((q * q) * k == 1real) by {
        assert(q * q * k == q * (q * k));
        exact::lemma_units(q, k);
    }
    let r = q * q;
    exact::lemma_units(r, k);
    // (s + r) * k == 0
    exact::lemma_distribute(k, s, r);
    let z = s + r;
    assert(z * k == 0real);
    exact::lemma_square(a);
    exact::lemma_units(k, k);
    exact::lemma_cancel(k, z, 0real);
    exact::lemma_cancel(k, 0real, z);
}

/// The lines of the reciprocal.
proof fn lemma_reciprocal_lines<S: Scalar>(v: spec_fn(S) -> real, l: S, u: S, x: S)
    requires
        exact::exact(v),
        v(l) <= v(x) <= v(u),
        point_or_wide(v, l, u),
        0real < v(l) || v(u) < 0real,
    ensures
        carry::between_lines(v, lines::reciprocal_sandwich(l, u), x, x.inverse()),
{
    exact::lemma_numbers(v);
    lemma_wide(v, l, u);
    lemma_reciprocal_slope(v, x);
    lemma_reciprocal_slope(v, l);
    lemma_reciprocal_slope(v, u);
    let (fl, y, fu) = (v(l.inverse()), v(x.inverse()), v(u.inverse()));
    if lines::narrow(l, u) {
        lemma_flat(v, l.inverse(), x);
        crate::containment::lemma_reciprocal_order(v(l), v(x), fl, y);
        crate::containment::lemma_reciprocal_order(v(x), v(l), y, fl);
    } else {
        let d = lines::halfway(l, u);
        lemma_halfway(v, l, u);
        lemma_reciprocal_slope(v, d);
        let q = v(d.inverse());
        let t = -(q * q);
        let s = -(y * y);
        exact::lemma_distribute(t, v(x), v(d));
        lemma_chord_slope(v, l, u, l.inverse(), u.inverse());
        let c = lines::chord(l, u, l.inverse(), u.inverse());
        if 0real < v(l) {
            slopes::lemma_reciprocal_tangent(v(x), v(d), y, q);
            slopes::lemma_reciprocal_tangent(v(l), v(x), fl, y);
            slopes::lemma_reciprocal_tangent(v(u), v(x), fu, y);
            slopes::lemma_below_chord(v(l), v(x), v(u), fl, y, fu, v(c.slope), s);
        } else {
            slopes::lemma_reciprocal_tangent_below(v(x), v(d), y, q);
            slopes::lemma_reciprocal_tangent_below(v(l), v(x), fl, y);
            slopes::lemma_reciprocal_tangent_below(v(u), v(x), fu, y);
            slopes::lemma_above_chord(v(l), v(x), v(u), fl, y, fu, v(c.slope), s);
        }
    }
}

/// The lines of the square root.
proof fn lemma_sqrt_lines<S: Scalar>(v: spec_fn(S) -> real, l: S, u: S, x: S)
    requires
        exact::exact(v),
        v(l) <= v(x) <= v(u),
        point_or_wide(v, l, u),
        0real <= v(l),
    ensures
        carry::between_lines(v, lines::sqrt_sandwich(l, u), x, x.root()),
{
    exact::lemma_numbers(v);
    lemma_wide(v, l, u);
    let (fl, y, fu) = (v(l.root()), v(x.root()), v(u.root()));
    if lines::narrow(l, u) {
        lemma_flat(v, l.root(), x);
        exact::lemma_root(v, l, x);
        exact::lemma_root(v, x, l);
    } else {
        let m = lines::halfway(l, u);
        lemma_halfway(v, l, u);
        let s = v(m.root());
        assert(s != 0real) by {
            exact::lemma_units(s, s);
        }
        let t = v(scalar::half::<S>().over(m.root()));
        assert(t * s == v(scalar::half::<S>()));
        slopes::lemma_root_tangent(v(x), v(m), y, s, t);
        exact::lemma_distribute(t, v(x), v(m));
        lemma_chord_slope(v, l, u, l.root(), u.root());
        let c = lines::chord(l, u, l.root(), u.root());
        if y == 0real {
            // the chord starts here
            exact::lemma_units(y, y);
            assert(v(x) == 0real);
            exact::lemma_root(v, l, x);
            exact::lemma_units(v(c.slope), v(l));
        } else {
            let k = v(scalar::half::<S>().over(x.root()));
            assert(k * y == v(scalar::half::<S>()));
            slopes::lemma_root_tangent(v(l), v(x), fl, y, k);
            slopes::lemma_root_tangent(v(u), v(x), fu, y, k);
            slopes::lemma_above_chord(v(l), v(x), v(u), fl, y, fu, v(c.slope), k);
        }
    }
}

/// The lines of the standard normal distribution function lie below and above it, on an interval
/// that is a point or wide enough and lies on one side of zero.
pub proof fn lemma_normcdf_lines<S: Scalar>(v: spec_fn(S) -> real, l: S, u: S, x: S)
    requires
        exact::exact(v),
        exact::bell_shaped(v),
        v(l) <= v(x) <= v(u),
        point_or_wide(v, l, u),
        v(u) <= 0real || 0real <= v(l),
    ensures
        carry::between_lines(v, lines::normcdf_sandwich(l, u), x, scalar::cdf(x)),
{
    exact::lemma_numbers(v);
    lemma_wide(v, l, u);
    let (fl, y, fu) = (scalar::cdf(l), scalar::cdf(x), scalar::cdf(u));
    let t = v(scalar::pdf(x));
    let (p, q) = (v(scalar::pdf(l)), v(scalar::pdf(u)));
    if lines::narrow(l, u) {
        exact::lemma_units(t, t);
        exact::lemma_units(p, p);
        exact::lemma_units(q, q);
        assert(v(fl) == v(y) && v(fu) == v(y));
        lemma_flat(v, fl, x);
        lemma_flat(v, fu, x);
    } else {
        let m = u.plus(l).times(scalar::half());
        assert(v(m) * 2real == v(l) + v(u)) by {
            lemma_middle(v, l, u);
        }
        let s = v(scalar::pdf(m));
        exact::lemma_distribute(s, v(x), v(m));
        lemma_chord_slope(v, l, u, fl, fu);
        let c = lines::chord(l, u, fl, fu);
        if v(u) <= 0real {
            assert(v(y) >= v(scalar::cdf(m)) + s * (v(x) - v(m)));
            assert(v(fl) >= v(y) + t * (v(l) - v(x)));
            assert(v(fu) >= v(y) + t * (v(u) - v(x)));
            slopes::lemma_below_chord(v(l), v(x), v(u), v(fl), v(y), v(fu), v(c.slope), t);
        } else {
            assert(v(y) <= v(scalar::cdf(m)) + s * (v(x) - v(m)));
            assert(v(fl) <= v(y) + t * (v(l) - v(x)));
            assert(v(fu) <= v(y) + t * (v(u) - v(x)));
            slopes::lemma_above_chord(v(l), v(x), v(u), v(fl), v(y), v(fu), v(c.slope), t);
        }
    }
}

/// The middle of an interval, by halving.
proof fn lemma_middle<S: Scalar>(v: spec_fn(S) -> real, l: S, u: S)
    requires
        exact::exact(v),
    ensures
        v(u.plus(l).times(scalar::half())) * 2real == v(l) + v(u),
{
    exact::lemma_numbers(v);
    let (h, w) = (v(scalar::half::<S>()), v(u.plus(l)));
    assert((w * h) * 2real == w) by (nonlinear_arith)
        requires
            h * 2real == 1real,
    ;
}

/// The lines of a function lie below and above it, on an interval that is a point or wide enough
/// and where the function bends one way.
pub proof fn lemma_curve<S: Scalar>(v: spec_fn(S) -> real, f: Curve<S>, l: S, u: S, x: S)
    requires
        exact::exact(v),
        v(l) <= v(x) <= v(u),
        point_or_wide(v, l, u),
        bends_one_way(v, f, l, u),
    ensures
        carry::between_lines(v, lines::curve_lines(f, l, u), x, model::at_point(drawn(f), x)),
{
    match f {
        Curve::Reciprocal => lemma_reciprocal_lines(v, l, u, x),
        Curve::Square => lemma_square_lines(v, l, u, x),
        Curve::Sqrt => lemma_sqrt_lines(v, l, u, x),
        Curve::Exp => lemma_exp_lines(v, l, u, x),
        Curve::Elu(slope) => lemma_elu_lines(v, slope, l, u, x),
        _ => {},
    }
}

} // verus!
