//! Lines below and above functions of real numbers.

use vstd::prelude::*;
use crate::exact;

verus! {

/// The positive and the negative part of a real number.
pub open spec fn positive(x: real) -> real {
    if x <= 0real {
        0real
    } else {
        x
    }
}

/// The negative part.
pub open spec fn negative(x: real) -> real {
    x - positive(x)
}

/// A weight between two lines.
pub proof fn lemma_weighed(w: real, x: real, y: real, ls: real, lo: real, us: real, uo: real)
    requires
        ls * x + lo <= y <= us * x + uo,
    ensures
        (ls * positive(w) + us * negative(w)) * x + (lo * positive(w) + uo * negative(w)) <= w * y,
{
    let (p, n) = (positive(w), negative(w));
    exact::lemma_scale_le(p, ls * x + lo, y);
    exact::lemma_scale_ge(n, y, us * x + uo);
    exact::lemma_distribute(p, ls * x, lo);
    exact::lemma_distribute(n, us * x, uo);
    exact::lemma_distribute(x, ls * p, us * n);
    exact::lemma_regroup(ls, p, x);
    exact::lemma_regroup(us, n, x);
    exact::lemma_units(lo, p);
    exact::lemma_units(uo, n);
    exact::lemma_distribute(y, p, n);
    exact::lemma_units(w, y);
}

/// A rectifier lies between its lines.
pub proof fn lemma_rectifier(a: real, x: real, y: real, l: real, u: real, us: real, uo: real, slope: real)
    requires
        l <= x <= u,
        0real <= slope <= 1real,
        y == (if 0real <= x {
            x
        } else {
            slope * x
        }),
        l < 0real < u ==> {
            &&& slope <= a <= 1real
            &&& us * (u - l) == u
            &&& uo * (u - l) == -u * l
        },
        0real <= l ==> a == 1real && us == 1real && uo == 0real,
        u <= 0real && l < 0real ==> a == slope && us == slope && uo == 0real,
    ensures
        a * x + 0real <= y <= us * x + uo,
{
    exact::lemma_units(x, a);
    exact::lemma_units(x, slope);
    if l < 0real < u {
        if 0real <= x {
            exact::lemma_scale_le(x, a, 1real);
        } else {
            exact::lemma_scale_ge(x, slope, a);
        }
        let d = u - l;
        // the line above, times the width
        exact::lemma_distribute(d, us * x, uo);
        exact::lemma_regroup(us, x, d);
        exact::lemma_units(u, l);
        assert((us * x + uo) * d == u * x - u * l);
        if 0real <= x {
            exact::lemma_distribute(x, u, l);
            exact::lemma_units(x, u);
            exact::lemma_units(x, l);
            exact::lemma_scale_ge(l, x, u);
            assert(x * d <= u * x - u * l);
            exact::lemma_cancel(d, x, us * x + uo);
        } else {
            exact::lemma_scale_le(u, l, x);
            exact::lemma_units(d, u);
            exact::lemma_cancel(d, 0real, us * x + uo);
            exact::lemma_scale_ge(x, 0real, slope);
        }
    } else if 0real <= l {
    } else {
        exact::lemma_units(slope, x);
    }
}

// ---- chords and tangents ----
/// A chord, at a point between its ends.
pub proof fn lemma_chord(l: real, x: real, u: real, fl: real, fu: real, slope: real)
    requires
        l < u,
        slope * (u - l) == fu - fl,
    ensures
        (slope * x + (fl - slope * l)) * (u - l) == fl * (u - x) + fu * (x - l),
{
    let d = u - l;
    exact::lemma_distribute(slope, x, l);
    let e = x - l;
    assert(slope * x + (fl - slope * l) == fl + slope * e);
    exact::lemma_distribute(d, fl, slope * e);
    exact::lemma_regroup(slope, e, d);
    // slope * e * d == (fu - fl) * e
    exact::lemma_distribute(e, fu, fl);
    exact::lemma_distribute(fl, u - x, e);
    assert(d == (u - x) + e);
}

/// A function lies below its chord where it lies above its tangent at the point.
pub proof fn lemma_below_chord(
    l: real,
    x: real,
    u: real,
    fl: real,
    y: real,
    fu: real,
    slope: real,
    t: real,
)
    requires
        l <= x <= u,
        l < u,
        slope * (u - l) == fu - fl,
        fl >= y + t * (l - x),
        fu >= y + t * (u - x),
    ensures
        y <= slope * x + (fl - slope * l),
{
    let (a, b) = (u - x, x - l);
    lemma_chord(l, x, u, fl, fu, slope);
    exact::lemma_scale_le(a, y + t * (l - x), fl);
    exact::lemma_scale_le(b, y + t * a, fu);
    exact::lemma_units(t, b);
    assert(t * (l - x) == -(t * b)) by {
        assert(l - x == -b);
    }
    exact::lemma_distribute(a, y, -(t * b));
    exact::lemma_distribute(b, y, t * a);
    exact::lemma_units(t * b, a);
    exact::lemma_regroup(t, b, a);
    exact::lemma_regroup(t, a, b);
    exact::lemma_units(a, b);
    exact::lemma_distribute(y, a, b);
    assert(y * (u - l) <= fl * a + fu * b);
    exact::lemma_cancel(u - l, y, slope * x + (fl - slope * l));
}

/// A function lies above its chord where it lies below its tangent at the point.
pub proof fn lemma_above_chord(
    l: real,
    x: real,
    u: real,
    fl: real,
    y: real,
    fu: real,
    slope: real,
    t: real,
)
    requires
        l <= x <= u,
        l < u,
        slope * (u - l) == fu - fl,
        fl <= y + t * (l - x),
        fu <= y + t * (u - x),
    ensures
        slope * x + (fl - slope * l) <= y,
{
    exact::lemma_units(slope, u - l);
    exact::lemma_units(t, l - x);
    exact::lemma_units(t, u - x);
    exact::lemma_units(slope, x);
    exact::lemma_units(slope, l);
    lemma_below_chord(l, x, u, -fl, -y, -fu, -slope, -t);
}

/// The square lies above its tangents.
pub proof fn lemma_square_tangent(x: real, d: real)
    ensures
        (2real * d) * x + (-d) * d <= x * x,
        x * x >= d * d + (2real * d) * (x - d),
{
    let e = x - d;
    exact::lemma_square(e);
    exact::lemma_distribute(e, x, d);
    exact::lemma_distribute(x, x, d);
    exact::lemma_distribute(d, x, d);
    exact::lemma_units(x, d);
    exact::lemma_units(d, d);
    exact::lemma_regroup(2real, d, x);
    exact::lemma_regroup(2real, d, d);
    exact::lemma_distribute(2real * d, x, d);
}

/// The reciprocal of a positive number lies above the tangents at numbers with reciprocal `q`.
pub proof fn lemma_reciprocal_tangent(x: real, d: real, p: real, q: real)
    requires
        0real < x,
        p * x == 1real,
        q * d == 1real,
    ensures
        p >= q + (-(q * q)) * (x - d),
{
    let e = p - q;
    exact::lemma_square(e);
    exact::lemma_scale_le(x, 0real, e * e);
    exact::lemma_units(x, x);
    // x * (p - q) * (p - q) == p - 2 q + q * q * x
    exact::lemma_distribute(x, p, q);
    exact::lemma_regroup(x, e, e);
    exact::lemma_units(x, e);
    exact::lemma_units(x, p);
    exact::lemma_units(x, q);
    let f = x * e;
    assert(f == 1real - q * x);
    assert(x * (e * e) == f * e);
    exact::lemma_distribute(e, 1real, q * x);
    exact::lemma_units(e, e);
    exact::lemma_regroup(q, x, e);
    assert((q * x) * e == q * f);
    exact::lemma_distribute(q, 1real, q * x);
    exact::lemma_units(q, q);
    exact::lemma_regroup(q, q, x);
    exact::lemma_regroup(q, q, d);
    exact::lemma_distribute(q * q, x, d);
    exact::lemma_units(q * q, x - d);
}

/// The reciprocal of a negative number lies below the tangents at numbers with reciprocal `q`.
pub proof fn lemma_reciprocal_tangent_below(x: real, d: real, p: real, q: real)
    requires
        x < 0real,
        p * x == 1real,
        q * d == 1real,
    ensures
        p <= q + (-(q * q)) * (x - d),
{
    exact::lemma_units(p, x);
    exact::lemma_units(q, d);
    exact::lemma_units(-p, x);
    exact::lemma_units(-q, d);
    exact::lemma_units(q, -q);
    exact::lemma_units(q, q);
    lemma_reciprocal_tangent(-x, -d, -p, -q);
    exact::lemma_units(-(q * q), x - d);
    assert((-x) - (-d) == -(x - d));
    assert((-q) * (-q) == q * q);
}

/// The square root lies below its tangents: `r` is the root of `x`, `s > 0` that of `m`, and
/// `t` the slope of the tangent at `m`.
pub proof fn lemma_root_tangent(x: real, m: real, r: real, s: real, t: real)
    requires
        r * r == x,
        0real < s,
        s * s == m,
        t * s * 2real == 1real,
    ensures
        r <= s + t * (x - m),
{
    let e = r - s;
    exact::lemma_square(e);
    exact::lemma_distribute(e, r, s);
    exact::lemma_distribute(r, r, s);
    exact::lemma_distribute(s, r, s);
    exact::lemma_units(r, s);
    assert(2real * (r * s) <= x + m);
    // times 2 s: 2 s r <= 2 s s + (x - m)
    let (k, rhs) = (2real * s, s + t * (x - m));
    exact::lemma_units(2real, s);
    exact::lemma_distribute(k, s, t * (x - m));
    exact::lemma_regroup(t, x - m, k);
    exact::lemma_regroup(t, 2real, s);
    assert(t * k == 1real) by {
        exact::lemma_regroup(t, s, 2real);
    }
    exact::lemma_regroup(2real, s, s);
    exact::lemma_regroup(2real, r, s);
    exact::lemma_regroup(2real, s, r);
    exact::lemma_units(r, k);
    exact::lemma_units(1real, x - m);
    exact::lemma_units(s, k);
    assert((t * (x - m)) * k == x - m) by {
        assert((t * (x - m)) * k == (t * k) * (x - m));
    }
    assert(r * k <= rhs * k);
    exact::lemma_cancel(k, r, rhs);
}

} // verus!
