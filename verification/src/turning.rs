//! The lines of functions that turn from convex to concave lie below and above them.

use vstd::prelude::*;
use crate::carry;
use crate::exact;
use crate::lines;
use crate::lines::{End, Line, Smooth};
use crate::sandwich;
use crate::scalar;
use crate::scalar::Scalar;

verus! {

// ---- how the functions bend ----
/// Whether a smooth function lies above its tangents between two numbers.
pub open spec fn lies_above<S: Scalar>(
    v: spec_fn(S) -> real,
    f: Smooth,
    low: real,
    high: real,
) -> bool {
    forall|a: S, b: S|
        low <= v(a) <= high && low <= v(b) <= high ==> v(#[trigger] lines::value_at(f, a)) >= v(
            lines::value_at(f, b),
        ) + v(#[trigger] lines::slope_at(f, b)) * (v(a) - v(b))
}

/// Whether a smooth function lies below its tangents between two numbers.
pub open spec fn lies_below<S: Scalar>(
    v: spec_fn(S) -> real,
    f: Smooth,
    low: real,
    high: real,
) -> bool {
    forall|a: S, b: S|
        low <= v(a) <= high && low <= v(b) <= high ==> v(#[trigger] lines::value_at(f, a)) <= v(
            lines::value_at(f, b),
        ) + v(#[trigger] lines::slope_at(f, b)) * (v(a) - v(b))
}

/// Whether the Gaussian error linear unit bends as it does: convex between its turns and concave
/// outside them. It falls up to the first turn, from the second on it rises at least as fast as
/// its argument, and it has a floor. The distribution function lies between zero and one.
pub open spec fn unit_shaped<S: Scalar>(v: spec_fn(S) -> real) -> bool {
    let t = v(lines::gelu_turn::<S>());
    &&& forall|low: real, high: real|
        -t <= low && high <= t ==> #[trigger] lies_above(v, Smooth::Gelu, low, high)
    &&& forall|low: real, high: real|
        t <= low || high <= -t ==> #[trigger] lies_below(v, Smooth::Gelu, low, high)
    &&& forall|a: S, b: S|
        v(a) <= v(b) <= -t ==> v(#[trigger] scalar::gelu_of(b)) <= v(#[trigger] scalar::gelu_of(a))
    &&& forall|a: S| t <= v(a) ==> 1real <= v(#[trigger] lines::slope_at(Smooth::Gelu, a))
    &&& forall|a: S| v(lines::gelu_floor::<S>()) <= v(#[trigger] scalar::gelu_of(a))
    &&& forall|a: S| 0real <= v(#[trigger] scalar::cdf(a)) <= 1real
}

// ---- lines and tangents of real numbers ----
/// A line that lies below a function at two points lies below it between them, where the function
/// lies below its tangent.
proof fn lemma_line_below(
    p: real,
    x: real,
    q: real,
    fp: real,
    y: real,
    fq: real,
    k: real,
    c: real,
    t: real,
)
    requires
        p <= x <= q,
        k * p + c <= fp,
        k * q + c <= fq,
        fp <= y + t * (p - x),
        fq <= y + t * (q - x),
    ensures
        k * x + c <= y,
{
    let d = t - k;
    exact::lemma_distribute(t, p, x);
    exact::lemma_distribute(t, q, x);
    exact::lemma_distribute(p - x, t, k);
    exact::lemma_distribute(q - x, t, k);
    exact::lemma_distribute(k, p, x);
    exact::lemma_distribute(k, q, x);
    exact::lemma_units(p - x, d);
    exact::lemma_units(q - x, d);
    assert(k * x + c - y <= d * (p - x));
    assert(k * x + c - y <= d * (q - x));
    if d >= 0real {
        exact::lemma_scale_le(d, p - x, 0real);
    } else {
        exact::lemma_scale_ge(d, 0real, q - x);
    }
    exact::lemma_units(d, d);
}

/// A line that lies above a function at two points lies above it between them, where the function
/// lies above its tangent.
proof fn lemma_line_above(
    p: real,
    x: real,
    q: real,
    fp: real,
    y: real,
    fq: real,
    k: real,
    c: real,
    t: real,
)
    requires
        p <= x <= q,
        fp <= k * p + c,
        fq <= k * q + c,
        fp >= y + t * (p - x),
        fq >= y + t * (q - x),
    ensures
        y <= k * x + c,
{
    exact::lemma_units(k, p);
    exact::lemma_units(k, q);
    exact::lemma_units(k, x);
    exact::lemma_units(t, p - x);
    exact::lemma_units(t, q - x);
    lemma_line_below(p, x, q, -fp, -y, -fq, -k, -c, -t);
}

// ---- the point of contact ----
/// The interval around a point of contact shrinks, and the tangents at its ends pass on their
/// sides of the target.
proof fn lemma_bisected<S: Scalar>(
    v: spec_fn(S) -> real,
    f: Smooth,
    tx: S,
    ty: S,
    low: S,
    high: S,
    rising: bool,
    n: nat,
)
    requires
        exact::exact(v),
        v(low) <= v(high),
    ensures
        ({
            let (a, b) = lines::bisected(f, tx, ty, low, high, rising, n);
            &&& v(low) <= v(a) <= v(b) <= v(high)
            &&& rising && v(lines::overshoot(f, tx, ty, low)) <= 0real ==> v(
                lines::overshoot(f, tx, ty, a),
            ) <= 0real
            &&& rising && v(lines::overshoot(f, tx, ty, high)) >= 0real ==> v(
                lines::overshoot(f, tx, ty, b),
            ) >= 0real
            &&& !rising && v(lines::overshoot(f, tx, ty, low)) >= 0real ==> v(
                lines::overshoot(f, tx, ty, a),
            ) >= 0real
            &&& !rising && v(lines::overshoot(f, tx, ty, high)) <= 0real ==> v(
                lines::overshoot(f, tx, ty, b),
            ) <= 0real
        }),
    decreases n,
{
    exact::lemma_numbers(v);
    if n > 0 {
        lemma_bisected(v, f, tx, ty, low, high, rising, (n - 1) as nat);
        let (a, b) = lines::bisected(f, tx, ty, low, high, rising, (n - 1) as nat);
        let m = scalar::half::<S>().times(a.plus(b));
        let (h, w) = (v(scalar::half::<S>()), v(a.plus(b)));
        assert((h * w) * 2real == w) by (nonlinear_arith)
            requires
                h * 2real == 1real,
        ;
        assert(v(a) <= v(m) <= v(b));
        assert(scalar::zero::<S>().less(lines::overshoot(f, tx, ty, m)) == (0real < v(
            lines::overshoot(f, tx, ty, m),
        )));
    }
}

/// The tangent at `d`, at a number `x`.
proof fn lemma_tangent<S: Scalar>(v: spec_fn(S) -> real, f: Smooth, d: S, x: real)
    requires
        exact::exact(v),
    ensures
        ({
            let t = lines::tangent(f, d);
            v(t.slope) * x + v(t.offset) == v(lines::value_at(f, d)) + v(lines::slope_at(f, d)) * (x
                - v(d))
        }),
{
    exact::lemma_distribute(v(lines::slope_at(f, d)), x, v(d));
}

/// How far the tangent at `d` passes above a point.
proof fn lemma_overshoot<S: Scalar>(v: spec_fn(S) -> real, f: Smooth, tx: S, ty: S, d: S)
    requires
        exact::exact(v),
    ensures
        ({
            let t = lines::tangent(f, d);
            v(lines::overshoot(f, tx, ty, d)) == v(t.slope) * v(tx) + v(t.offset) - v(ty)
        }),
{
    lemma_tangent(v, f, d, v(tx));
}

/// The slope of the chord against the tangents at the ends.
proof fn lemma_end_slopes<S: Scalar>(v: spec_fn(S) -> real, f: Smooth, l: S, u: S)
    requires
        exact::exact(v),
        v(l) < v(u),
    ensures
        ({
            let (fl, fu) = (lines::value_at(f, l), lines::value_at(f, u));
            let k = v(fu.minus(fl).over(u.minus(l)));
            &&& k * (v(u) - v(l)) == v(fu) - v(fl)
            &&& v(lines::slope_at(f, l)) <= k ==> v(lines::overshoot(f, u, fu, l)) <= 0real
            &&& k <= v(lines::slope_at(f, l)) ==> v(lines::overshoot(f, u, fu, l)) >= 0real
            &&& v(lines::slope_at(f, u)) <= k ==> v(lines::overshoot(f, l, fl, u)) >= 0real
            &&& k <= v(lines::slope_at(f, u)) ==> v(lines::overshoot(f, l, fl, u)) <= 0real
        }),
{
    let (fl, fu) = (lines::value_at(f, l), lines::value_at(f, u));
    let k = v(fu.minus(fl).over(u.minus(l)));
    let (p, q) = (v(lines::slope_at(f, l)), v(lines::slope_at(f, u)));
    let w = v(u) - v(l);
    assert(k * w == v(fu) - v(fl));
    if p <= k {
        exact::lemma_scale_le(w, p, k);
    } else {
        exact::lemma_scale_le(w, k, p);
    }
    if q <= k {
        exact::lemma_scale_le(w, q, k);
    } else {
        exact::lemma_scale_le(w, k, q);
    }
    exact::lemma_units(q, w);
    assert(v(l.minus(u)) == -w);
    assert(v(u.minus(l)) == w);
    exact::lemma_units(k, w);
}

/// The line of the chord's slope through the left end passes through both ends.
proof fn lemma_chord_ends<S: Scalar>(v: spec_fn(S) -> real, l: S, u: S, fl: S, fu: S)
    requires
        exact::exact(v),
        v(l) < v(u),
    ensures
        ({
            let k = fu.minus(fl).over(u.minus(l));
            let n = lines::through(k, l, fl);
            &&& v(n.slope) * v(l) + v(n.offset) == v(fl)
            &&& v(n.slope) * v(u) + v(n.offset) == v(fu)
            &&& v(n.slope) * (v(u) - v(l)) == v(fu) - v(fl)
        }),
{
    let k = v(fu.minus(fl).over(u.minus(l)));
    exact::lemma_distribute(k, v(u), v(l));
}

// ---- one turn ----
/// A line below a concave function at two points lies below it between them.
proof fn lemma_below_concave<S: Scalar>(
    v: spec_fn(S) -> real,
    f: Smooth,
    p: S,
    q: S,
    x: S,
    n: Line<S>,
)
    requires
        exact::exact(v),
        v(p) <= v(x) <= v(q),
        lies_below(v, f, v(p), v(q)),
        v(n.slope) * v(p) + v(n.offset) <= v(lines::value_at(f, p)),
        v(n.slope) * v(q) + v(n.offset) <= v(lines::value_at(f, q)),
    ensures
        v(n.slope) * v(x) + v(n.offset) <= v(lines::value_at(f, x)),
{
    let t = v(lines::slope_at(f, x));
    lemma_line_below(
        v(p),
        v(x),
        v(q),
        v(lines::value_at(f, p)),
        v(lines::value_at(f, x)),
        v(lines::value_at(f, q)),
        v(n.slope),
        v(n.offset),
        t,
    );
}

/// A line above a convex function at two points lies above it between them.
proof fn lemma_above_convex<S: Scalar>(
    v: spec_fn(S) -> real,
    f: Smooth,
    p: S,
    q: S,
    x: S,
    n: Line<S>,
)
    requires
        exact::exact(v),
        v(p) <= v(x) <= v(q),
        lies_above(v, f, v(p), v(q)),
        v(lines::value_at(f, p)) <= v(n.slope) * v(p) + v(n.offset),
        v(lines::value_at(f, q)) <= v(n.slope) * v(q) + v(n.offset),
    ensures
        v(lines::value_at(f, x)) <= v(n.slope) * v(x) + v(n.offset),
{
    let t = v(lines::slope_at(f, x));
    lemma_line_above(
        v(p),
        v(x),
        v(q),
        v(lines::value_at(f, p)),
        v(lines::value_at(f, x)),
        v(lines::value_at(f, q)),
        v(n.slope),
        v(n.offset),
        t,
    );
}

/// A line through `(d, y)` that is less steep than a tangent there stays on its side.
proof fn lemma_steeper(k: real, t: real, d: real, y: real, x: real)
    ensures
        k <= t && d <= x ==> y + k * (x - d) <= y + t * (x - d),
        k <= t && x <= d ==> y + t * (x - d) <= y + k * (x - d),
{
    if k <= t && d <= x {
        exact::lemma_scale_le(x - d, k, t);
    }
    if k <= t && x <= d {
        exact::lemma_scale_ge(x - d, k, t);
    }
}

/// The line below a function that is convex up to `c` and concave from there on. The tangent
/// through the far end is taken at the safe end.
pub proof fn lemma_rising_low<S: Scalar>(
    v: spec_fn(S) -> real,
    f: Smooth,
    l: S,
    u: S,
    c: S,
    x: S,
)
    requires
        exact::exact(v),
        v(l) <= v(c) <= v(u),
        v(l) < v(u),
        v(l) <= v(x) <= v(u),
        lies_above(v, f, v(l), v(c)),
        lies_below(v, f, v(c), v(u)),
        ({
            let k = lines::value_at(f, u).minus(lines::value_at(f, l)).over(u.minus(l));
            f is Gelu || v(k) < v(lines::slope_at(f, l))
        }),
    ensures
        ({
            let n = lines::rising_lines(f, l, u, c);
            v(n.ls) * v(x) + v(n.lo) <= v(lines::value_at(f, x))
        }),
{
    let (fl, fu) = (lines::value_at(f, l), lines::value_at(f, u));
    let k = fu.minus(fl).over(u.minus(l));
    lemma_end_slopes(v, f, l, u);
    lemma_chord_ends(v, l, u, fl, fu);
    let (n, d) = if k.less(lines::slope_at(f, l)) {
        (lines::through(k, l, fl), l)
    } else {
        let d = lines::touching(f, u, fu, l, c, true, End::Low);
        lemma_bisected(v, f, u, fu, l, c, true, 60);
        lemma_overshoot(v, f, u, fu, d);
        (lines::tangent(f, d), d)
    };
    // up to the turn the line lies below a tangent
    assert forall|z: S| v(l) <= v(z) <= v(c) implies v(n.slope) * v(z) + v(n.offset) <= v(
        #[trigger] lines::value_at(f, z),
    ) by {
        assert(v(lines::value_at(f, z)) >= v(lines::value_at(f, d)) + v(lines::slope_at(f, d)) * (v(
            z,
        ) - v(d)));
        if k.less(lines::slope_at(f, l)) {
            lemma_steeper(v(k), v(lines::slope_at(f, l)), v(l), v(fl), v(z));
            exact::lemma_distribute(v(k), v(z), v(l));
        } else {
            lemma_tangent(v, f, d, v(z));
        }
    }
    if v(c) <= v(x) {
        assert(v(n.slope) * v(c) + v(n.offset) <= v(lines::value_at(f, c)));
        lemma_below_concave(v, f, c, u, x, n);
    }
}

/// The line above a function that is convex up to `c` and concave from there on.
pub proof fn lemma_rising_high<S: Scalar>(
    v: spec_fn(S) -> real,
    f: Smooth,
    l: S,
    u: S,
    c: S,
    x: S,
)
    requires
        exact::exact(v),
        v(l) <= v(c) <= v(u),
        v(l) < v(u),
        v(l) <= v(x) <= v(u),
        lies_above(v, f, v(l), v(c)),
        lies_below(v, f, v(c), v(u)),
        ({
            let k = lines::value_at(f, u).minus(lines::value_at(f, l)).over(u.minus(l));
            f is Gelu || v(k) < v(lines::slope_at(f, u))
        }),
    ensures
        ({
            let n = lines::rising_lines(f, l, u, c);
            v(lines::value_at(f, x)) <= v(n.us) * v(x) + v(n.uo)
        }),
{
    let (fl, fu) = (lines::value_at(f, l), lines::value_at(f, u));
    let k = fu.minus(fl).over(u.minus(l));
    lemma_end_slopes(v, f, l, u);
    lemma_chord_ends(v, l, u, fl, fu);
    let (n, d) = if k.less(lines::slope_at(f, u)) {
        (lines::through(k, l, fl), u)
    } else {
        let d = lines::touching(f, l, fl, c, u, true, End::High);
        lemma_bisected(v, f, l, fl, c, u, true, 60);
        lemma_overshoot(v, f, l, fl, d);
        (lines::tangent(f, d), d)
    };
    // from the turn on the line lies above a tangent
    assert forall|z: S| v(c) <= v(z) <= v(u) implies v(#[trigger] lines::value_at(f, z)) <= v(
        n.slope,
    ) * v(z) + v(n.offset) by {
        assert(v(lines::value_at(f, z)) <= v(lines::value_at(f, d)) + v(lines::slope_at(f, d)) * (v(
            z,
        ) - v(d)));
        if k.less(lines::slope_at(f, u)) {
            lemma_steeper(v(k), v(lines::slope_at(f, u)), v(u), v(fu), v(z));
            exact::lemma_distribute(v(k), v(z), v(u));
        } else {
            lemma_tangent(v, f, d, v(z));
        }
    }
    if v(x) <= v(c) {
        assert(v(lines::value_at(f, c)) <= v(n.slope) * v(c) + v(n.offset));
        lemma_above_convex(v, f, l, c, x, n);
    }
}

/// The line below a function that is concave up to `c` and convex from there on.
pub proof fn lemma_falling_low<S: Scalar>(v: spec_fn(S) -> real, l: S, u: S, c: S, x: S)
    requires
        exact::exact(v),
        v(l) <= v(c) <= v(u),
        v(l) < v(u),
        v(l) <= v(x) <= v(u),
        lies_below(v, Smooth::Gelu, v(l), v(c)),
        lies_above(v, Smooth::Gelu, v(c), v(u)),
    ensures
        ({
            let n = lines::falling_lines(Smooth::Gelu, l, u, c);
            v(n.ls) * v(x) + v(n.lo) <= v(lines::value_at(Smooth::Gelu, x))
        }),
{
    let f = Smooth::Gelu;
    let (fl, fu) = (lines::value_at(f, l), lines::value_at(f, u));
    let k = fu.minus(fl).over(u.minus(l));
    lemma_end_slopes(v, f, l, u);
    lemma_chord_ends(v, l, u, fl, fu);
    let (n, d) = if lines::slope_at(f, u).less(k) {
        (lines::through(k, l, fl), u)
    } else {
        let d = lines::touching(f, l, fl, c, u, false, End::High);
        lemma_bisected(v, f, l, fl, c, u, false, 60);
        lemma_overshoot(v, f, l, fl, d);
        (lines::tangent(f, d), d)
    };
    assert forall|z: S| v(c) <= v(z) <= v(u) implies v(n.slope) * v(z) + v(n.offset) <= v(
        #[trigger] lines::value_at(f, z),
    ) by {
        assert(v(lines::value_at(f, z)) >= v(lines::value_at(f, d)) + v(lines::slope_at(f, d)) * (v(
            z,
        ) - v(d)));
        if lines::slope_at(f, u).less(k) {
            lemma_steeper(v(lines::slope_at(f, u)), v(k), v(u), v(fu), v(z));
            exact::lemma_distribute(v(k), v(z), v(u));
        } else {
            lemma_tangent(v, f, d, v(z));
        }
    }
    if v(x) <= v(c) {
        assert(v(n.slope) * v(c) + v(n.offset) <= v(lines::value_at(f, c)));
        lemma_below_concave(v, f, l, c, x, n);
    }
}

/// The line above a function that is concave up to `c` and convex from there on.
pub proof fn lemma_falling_high<S: Scalar>(v: spec_fn(S) -> real, l: S, u: S, c: S, x: S)
    requires
        exact::exact(v),
        v(l) <= v(c) <= v(u),
        v(l) < v(u),
        v(l) <= v(x) <= v(u),
        lies_below(v, Smooth::Gelu, v(l), v(c)),
        lies_above(v, Smooth::Gelu, v(c), v(u)),
    ensures
        ({
            let n = lines::falling_lines(Smooth::Gelu, l, u, c);
            v(lines::value_at(Smooth::Gelu, x)) <= v(n.us) * v(x) + v(n.uo)
        }),
{
    let f = Smooth::Gelu;
    let (fl, fu) = (lines::value_at(f, l), lines::value_at(f, u));
    let k = fu.minus(fl).over(u.minus(l));
    lemma_end_slopes(v, f, l, u);
    lemma_chord_ends(v, l, u, fl, fu);
    let (n, d) = if lines::slope_at(f, l).less(k) {
        (lines::through(k, l, fl), l)
    } else {
        let d = lines::touching(f, u, fu, l, c, false, End::Low);
        lemma_bisected(v, f, u, fu, l, c, false, 60);
        lemma_overshoot(v, f, u, fu, d);
        (lines::tangent(f, d), d)
    };
    assert forall|z: S| v(l) <= v(z) <= v(c) implies v(#[trigger] lines::value_at(f, z)) <= v(
        n.slope,
    ) * v(z) + v(n.offset) by {
        assert(v(lines::value_at(f, z)) <= v(lines::value_at(f, d)) + v(lines::slope_at(f, d)) * (v(
            z,
        ) - v(d)));
        if lines::slope_at(f, l).less(k) {
            lemma_steeper(v(lines::slope_at(f, l)), v(k), v(l), v(fl), v(z));
            exact::lemma_distribute(v(k), v(z), v(l));
        } else {
            lemma_tangent(v, f, d, v(z));
        }
    }
    if v(c) <= v(x) {
        assert(v(lines::value_at(f, c)) <= v(n.slope) * v(c) + v(n.offset));
        lemma_above_convex(v, f, c, u, x, n);
    }
}

// ---- one bend, and both turns ----
/// The lines of a function between whose ends it does not turn.
proof fn lemma_one_bend<S: Scalar>(v: spec_fn(S) -> real, f: Smooth, l: S, u: S, m: S, x: S)
    requires
        exact::exact(v),
        v(l) < v(u),
        v(l) <= v(x) <= v(u),
        v(l) <= v(m) <= v(u),
    ensures
        ({
            let (fl, fu) = (lines::value_at(f, l), lines::value_at(f, u));
            let (t, s) = (lines::tangent(f, m), lines::chord(l, u, fl, fu));
            &&& lies_above(v, f, v(l), v(u)) ==> carry::between_lines(
                v,
                lines::sandwich(t, s),
                x,
                lines::value_at(f, x),
            )
            &&& lies_below(v, f, v(l), v(u)) ==> carry::between_lines(
                v,
                lines::sandwich(s, t),
                x,
                lines::value_at(f, x),
            )
        }),
{
    let (fl, fu) = (lines::value_at(f, l), lines::value_at(f, u));
    lemma_chord_ends(v, l, u, fl, fu);
    lemma_tangent(v, f, m, v(x));
    let s = lines::chord(l, u, fl, fu);
    let at = lines::slope_at(f, m);
    if lies_above(v, f, v(l), v(u)) {
        lemma_above_convex(v, f, l, u, x, s);
    }
    if lies_below(v, f, v(l), v(u)) {
        lemma_below_concave(v, f, l, u, x, s);
    }
}

/// The line below the Gaussian error linear unit on an interval that holds both of its turns.
proof fn lemma_wide_low<S: Scalar>(v: spec_fn(S) -> real, l: S, u: S, x: S)
    requires
        exact::exact(v),
        unit_shaped(v),
        v(l) <= -v(lines::gelu_turn::<S>()),
        v(lines::gelu_turn::<S>()) <= v(u),
        v(l) <= v(x) <= v(u),
    ensures
        ({
            let n = lines::gelu_wide_low(l, u);
            v(n.slope) * v(x) + v(n.offset) <= v(scalar::gelu_of(x))
        }),
{
    exact::lemma_root_two(v);
    let f = Smooth::Gelu;
    let turn = lines::gelu_turn::<S>();
    let back = turn.opposite();
    let mid = lines::halfway(u, l);
    let n = lines::gelu_wide_low(l, u);
    let t = lines::tangent(f, mid);
    if back.at_most(mid) && mid.at_most(turn) && lines::on_line(t, l).at_most(scalar::gelu_of(l))
        && lines::on_line(t, u).at_most(scalar::gelu_of(u)) {
        assert(lies_above(v, f, v(back), v(turn)));
        assert forall|z: S| v(back) <= v(z) <= v(turn) implies v(n.slope) * v(z) + v(n.offset) <= v(
            #[trigger] lines::value_at(f, z),
        ) by {
            lemma_tangent(v, f, mid, v(z));
            let at = lines::slope_at(f, mid);
        }
        assert(v(n.slope) * v(back) + v(n.offset) <= v(lines::value_at(f, back)));
        assert(v(n.slope) * v(turn) + v(n.offset) <= v(lines::value_at(f, turn)));
        if v(x) < v(back) {
            assert(lies_below(v, f, v(l), v(back)));
            lemma_below_concave(v, f, l, back, x, n);
        } else if v(turn) < v(x) {
            assert(lies_below(v, f, v(turn), v(u)));
            lemma_below_concave(v, f, turn, u, x, n);
        } else {
            assert(v(n.slope) * v(x) + v(n.offset) <= v(lines::value_at(f, x)));
        }
    } else {
        exact::lemma_numbers(v);
        exact::lemma_units(v(x), v(x));
    }
}

/// The chord above the Gaussian error linear unit on an interval that holds both of its turns.
proof fn lemma_wide_high<S: Scalar>(v: spec_fn(S) -> real, l: S, u: S, x: S)
    requires
        exact::exact(v),
        unit_shaped(v),
        v(l) <= -v(lines::gelu_turn::<S>()),
        v(lines::gelu_turn::<S>()) <= v(u),
        v(l) <= v(x) <= v(u),
    ensures
        ({
            let n = lines::chord(l, u, scalar::gelu_of(l), scalar::gelu_of(u));
            v(scalar::gelu_of(x)) <= v(n.slope) * v(x) + v(n.offset)
        }),
{
    exact::lemma_root_two(v);
    let f = Smooth::Gelu;
    let turn = lines::gelu_turn::<S>();
    let back = turn.opposite();
    let (fl, fu) = (lines::value_at(f, l), lines::value_at(f, u));
    let n = lines::chord(l, u, fl, fu);
    lemma_chord_ends(v, l, u, fl, fu);
    let k = v(n.slope);
    let w = v(u) - v(l);
    // the chord rises, though not faster than its argument
    let (p, q) = (v(scalar::cdf(l)), v(scalar::cdf(u)));
    exact::lemma_scale_le(v(u), 0real, q);
    exact::lemma_scale_le(v(u), q, 1real);
    exact::lemma_scale_ge(v(l), 0real, p);
    exact::lemma_scale_ge(v(l), p, 1real);
    exact::lemma_units(v(u), v(u));
    exact::lemma_units(v(l), v(l));
    assert(v(fl) <= 0real <= v(fu));
    assert(v(l) <= v(fl) && v(fu) <= v(u));
    exact::lemma_units(w, w);
    exact::lemma_cancel(w, 0real, k);
    exact::lemma_cancel(w, k, 1real);
    // falling up to the first turn
    assert forall|z: S| v(l) <= v(z) <= v(back) implies v(#[trigger] lines::value_at(f, z)) <= k * v(
        z,
    ) + v(n.offset) by {
        assert(v(scalar::gelu_of(z)) <= v(scalar::gelu_of(l)));
        exact::lemma_scale_le(k, v(l), v(z));
    }
    // steeper than the chord from the second turn on
    assert forall|z: S| v(turn) <= v(z) <= v(u) implies v(#[trigger] lines::value_at(f, z)) <= k
        * v(z) + v(n.offset) by {
        let t = v(lines::slope_at(f, u));
        assert(lies_below(v, f, v(turn), v(u)));
        assert(v(lines::value_at(f, z)) <= v(fu) + t * (v(z) - v(u)));
        lemma_steeper(k, t, v(u), v(fu), v(z));
        exact::lemma_distribute(k, v(z), v(u));
    }
    assert(v(lines::value_at(f, back)) <= k * v(back) + v(n.offset));
    assert(v(lines::value_at(f, turn)) <= k * v(turn) + v(n.offset));
    if v(x) <= v(back) {
        assert(v(lines::value_at(f, x)) <= k * v(x) + v(n.offset));
    } else if v(turn) <= v(x) {
        assert(v(lines::value_at(f, x)) <= k * v(x) + v(n.offset));
    } else {
        assert(lies_above(v, f, v(back), v(turn)));
        lemma_above_convex(v, f, back, turn, x, n);
    }
}

/// The lines of the Gaussian error linear unit lie below and above it, on every interval.
pub proof fn lemma_gelu_lines<S: Scalar>(v: spec_fn(S) -> real, l: S, u: S, x: S)
    requires
        exact::exact(v),
        unit_shaped(v),
        v(l) <= v(x) <= v(u),
    ensures
        carry::between_lines(v, lines::gelu_sandwich(l, u), x, scalar::gelu_of(x)),
{
    exact::lemma_numbers(v);
    exact::lemma_root_two(v);
    let f = Smooth::Gelu;
    let turn = lines::gelu_turn::<S>();
    let back = turn.opposite();
    let mid = lines::halfway(u, l);
    assert(v(mid) * 2real == v(l) + v(u));
    let y = lines::value_at(f, x);
    if v(l) == v(u) {
        lemma_point(v, l, x);
        exact::lemma_units(v(x), v(x));
    } else if v(back) <= v(l) && v(u) <= v(turn) {
        assert(lies_above(v, f, v(l), v(u)));
        lemma_one_bend(v, f, l, u, mid, x);
    } else if v(l) <= v(back) && v(turn) <= v(u) {
        lemma_wide_low(v, l, u, x);
        lemma_wide_high(v, l, u, x);
    } else if v(u) <= v(back) || v(turn) <= v(l) {
        assert(lies_below(v, f, v(l), v(u)));
        lemma_one_bend(v, f, l, u, mid, x);
    } else if v(l) < v(back) {
        assert(lies_below(v, f, v(l), v(back)));
        assert(lies_above(v, f, v(back), v(u)));
        lemma_falling_low(v, l, u, back, x);
        lemma_falling_high(v, l, u, back, x);
    } else {
        assert(lies_above(v, f, v(l), v(turn)));
        assert(lies_below(v, f, v(turn), v(u)));
        lemma_rising_low(v, f, l, u, turn, x);
        lemma_rising_high(v, f, l, u, turn, x);
    }
}

/// Numbers that are read alike have alike units.
proof fn lemma_point<S: Scalar>(v: spec_fn(S) -> real, a: S, b: S)
    requires
        exact::exact(v),
        v(a) == v(b),
    ensures
        v(scalar::gelu_of(a)) == v(scalar::gelu_of(b)),
{
    exact::lemma_cdf(v, a, b);
    exact::lemma_cdf(v, b, a);
}

/// Whether the lines of the distribution function on an interval across zero are its chord: the
/// chord is less steep than the function at both ends.
pub open spec fn chords_suffice<S: Scalar>(v: spec_fn(S) -> real, l: S, u: S) -> bool {
    let k = scalar::cdf(u).minus(scalar::cdf(l)).over(u.minus(l));
    v(k) < v(scalar::pdf(l)) && v(k) < v(scalar::pdf(u))
}

/// The line below the standard normal distribution function on an interval across zero, where it
/// is the chord.
pub proof fn lemma_normcdf_low<S: Scalar>(v: spec_fn(S) -> real, l: S, u: S, x: S)
    requires
        exact::exact(v),
        exact::bell_shaped(v),
        v(l) <= v(x) <= v(u),
        v(l) < 0real < v(u),
        !lines::narrow(l, u),
        v(scalar::cdf(u).minus(scalar::cdf(l)).over(u.minus(l))) < v(scalar::pdf(l)),
    ensures
        ({
            let n = lines::normcdf_sandwich(l, u);
            v(n.ls) * v(x) + v(n.lo) <= v(scalar::cdf(x))
        }),
{
    exact::lemma_numbers(v);
    let f = Smooth::NormalCdf;
    let z = scalar::zero::<S>();
    assert(lies_above(v, f, v(l), v(z)));
    assert(lies_below(v, f, v(z), v(u)));
    lemma_rising_low(v, f, l, u, z, x);
}

/// The line above the standard normal distribution function on an interval across zero, where it
/// is the chord.
pub proof fn lemma_normcdf_high<S: Scalar>(v: spec_fn(S) -> real, l: S, u: S, x: S)
    requires
        exact::exact(v),
        exact::bell_shaped(v),
        v(l) <= v(x) <= v(u),
        v(l) < 0real < v(u),
        !lines::narrow(l, u),
        v(scalar::cdf(u).minus(scalar::cdf(l)).over(u.minus(l))) < v(scalar::pdf(u)),
    ensures
        ({
            let n = lines::normcdf_sandwich(l, u);
            v(scalar::cdf(x)) <= v(n.us) * v(x) + v(n.uo)
        }),
{
    exact::lemma_numbers(v);
    let f = Smooth::NormalCdf;
    let z = scalar::zero::<S>();
    assert(lies_above(v, f, v(l), v(z)));
    assert(lies_below(v, f, v(z), v(u)));
    lemma_rising_high(v, f, l, u, z, x);
}

/// The lines of the standard normal distribution function lie below and above it, on an interval
/// that is a point or wide enough and either lies on one side of zero or has its chord for both
/// lines.
pub proof fn lemma_normcdf<S: Scalar>(v: spec_fn(S) -> real, l: S, u: S, x: S)
    requires
        exact::exact(v),
        exact::bell_shaped(v),
        v(l) <= v(x) <= v(u),
        sandwich::point_or_wide(v, l, u),
        v(u) <= 0real || 0real <= v(l) || chords_suffice(v, l, u),
    ensures
        carry::between_lines(v, lines::normcdf_sandwich(l, u), x, scalar::cdf(x)),
{
    if v(u) <= 0real || 0real <= v(l) {
        sandwich::lemma_normcdf_lines(v, l, u, x);
    } else {
        lemma_normcdf_low(v, l, u, x);
        lemma_normcdf_high(v, l, u, x);
    }
}

} // verus!
