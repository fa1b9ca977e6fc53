//! Linear relaxations: a line below and a line above a function on an interval.

use vstd::prelude::*;
use crate::interval;
use crate::scalar;
use crate::scalar::Scalar;

verus! {

/// The lines `ls * x + lo` below and `us * x + uo` above a function.
#[derive(Debug, Clone, Copy, PartialEq)]
pub struct Lines<S> {
    pub ls: S,
    pub lo: S,
    pub us: S,
    pub uo: S,
}

/// A line `slope * x + offset`.
#[derive(Debug, Clone, Copy, PartialEq)]
pub struct Line<S> {
    pub slope: S,
    pub offset: S,
}

/// The lines below and above, as a pair.
pub open spec fn sandwich<S>(lower: Line<S>, upper: Line<S>) -> Lines<S> {
    Lines { ls: lower.slope, lo: lower.offset, us: upper.slope, uo: upper.offset }
}

/// The value of a line at `x`.
pub open spec fn on_line<S: Scalar>(line: Line<S>, x: S) -> S {
    line.slope.times(x).plus(line.offset)
}

/// Whether an interval is too narrow to divide by its width.
pub open spec fn narrow<S: Scalar>(l: S, u: S) -> bool {
    u.minus(l).less(S::ratio(1, 1000000000))
}

/// The line through `(l, fl)` and `(u, fu)`.
pub open spec fn chord<S: Scalar>(l: S, u: S, fl: S, fu: S) -> Line<S> {
    let slope = fu.minus(fl).over(u.minus(l));
    Line { slope, offset: fl.minus(slope.times(l)) }
}

/// The line of slope `slope` through `(x, y)`.
pub open spec fn through<S: Scalar>(slope: S, x: S, y: S) -> Line<S> {
    Line { slope, offset: y.minus(slope.times(x)) }
}

/// The constant line.
pub open spec fn flat<S: Scalar>(y: S) -> Line<S> {
    Line { slope: scalar::zero(), offset: y }
}

/// The middle of an interval, by halving the sum.
pub open spec fn halfway<S: Scalar>(l: S, u: S) -> S {
    l.plus(u).over(scalar::num(2))
}

/// The line through two points.
fn secant<S: Scalar>(l: S, u: S, fl: S, fu: S) -> (r: Line<S>)
    ensures
        r == chord(l, u, fl, fu),
{
    let slope = fu.sub(fl).div(u.sub(l));
    Line { slope, offset: fl.sub(slope.mul(l)) }
}

/// The line of a slope through a point.
fn line_through<S: Scalar>(slope: S, x: S, y: S) -> (r: Line<S>)
    ensures
        r == through(slope, x, y),
{
    Line { slope, offset: y.sub(slope.mul(x)) }
}

/// The constant line.
fn flat_line<S: Scalar>(y: S) -> (r: Line<S>)
    ensures
        r == flat(y),
{
    Line { slope: scalar::number::<S>(0), offset: y }
}

/// The lines as a pair.
fn pair<S: Scalar>(lower: Line<S>, upper: Line<S>) -> (r: Lines<S>)
    ensures
        r == sandwich(lower, upper),
{
    Lines { ls: lower.slope, lo: lower.offset, us: upper.slope, uo: upper.offset }
}

/// Whether an interval is too narrow to divide by its width.
fn is_narrow<S: Scalar>(l: S, u: S) -> (r: bool)
    ensures
        r == narrow(l, u),
{
    u.sub(l).is_lt(S::from_ratio(1, 1000000000))
}

/// A smooth function with its derivative.
#[derive(Debug, Clone, Copy, PartialEq, Eq)]
pub enum Smooth {
    /// The standard normal distribution function
    NormalCdf,
    /// The Gaussian error linear unit
    Gelu,
}

/// The value of a smooth function.
pub open spec fn value_at<S: Scalar>(f: Smooth, x: S) -> S {
    match f {
        Smooth::NormalCdf => scalar::cdf(x),
        Smooth::Gelu => scalar::gelu_of(x),
    }
}

/// The derivative of a smooth function.
pub open spec fn slope_at<S: Scalar>(f: Smooth, x: S) -> S {
    match f {
        Smooth::NormalCdf => scalar::pdf(x),
        Smooth::Gelu => scalar::cdf(x).plus(x.times(scalar::pdf(x))),
    }
}

/// The tangent at `x`.
pub open spec fn tangent<S: Scalar>(f: Smooth, x: S) -> Line<S> {
    through(slope_at(f, x), x, value_at(f, x))
}

/// The value of a smooth function.
fn smooth_value<S: Scalar>(f: Smooth, x: S) -> (r: S)
    ensures
        r == value_at(f, x),
{
    match f {
        Smooth::NormalCdf => scalar::normcdf(x),
        Smooth::Gelu => x.mul(scalar::normcdf(x)),
    }
}

/// The derivative of a smooth function.
fn smooth_slope<S: Scalar>(f: Smooth, x: S) -> (r: S)
    ensures
        r == slope_at(f, x),
{
    match f {
        Smooth::NormalCdf => scalar::normpdf(x),
        Smooth::Gelu => scalar::normcdf(x).add(x.mul(scalar::normpdf(x))),
    }
}

/// The tangent at `x`.
fn tangent_line<S: Scalar>(f: Smooth, x: S) -> (r: Line<S>)
    ensures
        r == tangent(f, x),
{
    line_through(smooth_slope(f, x), x, smooth_value(f, x))
}

/// How far the tangent at `d` passes above `(tx, ty)`.
pub open spec fn overshoot<S: Scalar>(f: Smooth, tx: S, ty: S, d: S) -> S {
    slope_at(f, d).times(tx.minus(d)).plus(value_at(f, d)).minus(ty)
}

/// The interval after `n` halvings towards the point whose tangent passes through `(tx, ty)`.
/// `rising` says that the tangent passes higher the further right it touches.
pub open spec fn bisected<S: Scalar>(
    f: Smooth,
    tx: S,
    ty: S,
    low: S,
    high: S,
    rising: bool,
    n: nat,
) -> (S, S)
    decreases n,
{
    if n == 0 {
        (low, high)
    } else {
        let (a, b) = bisected(f, tx, ty, low, high, rising, (n - 1) as nat);
        let m = scalar::half::<S>().times(a.plus(b));
        if scalar::zero::<S>().less(overshoot(f, tx, ty, m)) == rising {
            (a, m)
        } else {
            (m, b)
        }
    }
}

/// Which end of an interval around a point of contact is taken.
#[derive(Debug, Clone, Copy, PartialEq, Eq)]
pub enum End {
    Low,
    High,
}

/// Where the tangent through `(tx, ty)` touches, between `low` and `high`, after 60 halvings: in
/// the middle of what is left, or for the Gaussian error linear unit at the end `safe`, whose
/// tangent does not cut the function.
pub open spec fn touching<S: Scalar>(
    f: Smooth,
    tx: S,
    ty: S,
    low: S,
    high: S,
    rising: bool,
    safe: End,
) -> S {
    let (a, b) = bisected(f, tx, ty, low, high, rising, 60);
    match (f, safe) {
        (Smooth::NormalCdf, _) => scalar::half::<S>().times(a.plus(b)),
        (Smooth::Gelu, End::Low) => a,
        (Smooth::Gelu, End::High) => b,
    }
}

/// Where the tangent through a point touches.
fn tangent_through<S: Scalar>(
    f: Smooth,
    tx: S,
    ty: S,
    low: S,
    high: S,
    rising: bool,
    safe: End,
) -> (r: S)
    ensures
        r == touching(f, tx, ty, low, high, rising, safe),
{
    let half = S::from_ratio(1, 2);
    let zero = scalar::number::<S>(0);
    let mut a: S = low;
    let mut b: S = high;
    for i in 0..60u32
        invariant
            half == scalar::half::<S>(),
            zero == scalar::zero::<S>(),
            (a, b) == bisected(f, tx, ty, low, high, rising, i as nat),
    {
        let m = half.mul(a.add(b));
        let over = smooth_slope(f, m).mul(tx.sub(m)).add(smooth_value(f, m)).sub(ty);
        if zero.is_lt(over) == rising {
            b = m;
        } else {
            a = m;
        }
    }
    match (f, safe) {
        (Smooth::NormalCdf, _) => half.mul(a.add(b)),
        (Smooth::Gelu, End::Low) => a,
        (Smooth::Gelu, End::High) => b,
    }
}

/// The lines of a function that is convex below `c` and concave above, on an interval that holds
/// `c`: a chord where it lies on the right side, else the tangent through the far end.
pub open spec fn rising_lines<S: Scalar>(f: Smooth, l: S, u: S, c: S) -> Lines<S> {
    let (fl, fu) = (value_at(f, l), value_at(f, u));
    let k = fu.minus(fl).over(u.minus(l));
    let lower = if k.less(slope_at(f, l)) {
        through(k, l, fl)
    } else {
        tangent(f, touching(f, u, fu, l, c, true, End::Low))
    };
    let upper = if k.less(slope_at(f, u)) {
        through(k, l, fl)
    } else {
        tangent(f, touching(f, l, fl, c, u, true, End::High))
    };
    sandwich(lower, upper)
}

/// The lines of a function that is concave below `c` and convex above, on an interval that holds
/// `c`.
pub open spec fn falling_lines<S: Scalar>(f: Smooth, l: S, u: S, c: S) -> Lines<S> {
    let (fl, fu) = (value_at(f, l), value_at(f, u));
    let k = fu.minus(fl).over(u.minus(l));
    let lower = if slope_at(f, u).less(k) {
        through(k, l, fl)
    } else {
        tangent(f, touching(f, l, fl, c, u, false, End::High))
    };
    let upper = if slope_at(f, l).less(k) {
        through(k, l, fl)
    } else {
        tangent(f, touching(f, u, fu, l, c, false, End::Low))
    };
    sandwich(lower, upper)
}

/// The lines of a function on an interval that holds the end of its convex part.
fn rising_pair<S: Scalar>(f: Smooth, l: S, u: S, c: S) -> (r: Lines<S>)
    ensures
        r == rising_lines(f, l, u, c),
{
    let (fl, fu) = (smooth_value(f, l), smooth_value(f, u));
    let k = fu.sub(fl).div(u.sub(l));
    let lower = if k.is_lt(smooth_slope(f, l)) {
        line_through(k, l, fl)
    } else {
        tangent_line(f, tangent_through(f, u, fu, l, c, true, End::Low))
    };
    let upper = if k.is_lt(smooth_slope(f, u)) {
        line_through(k, l, fl)
    } else {
        tangent_line(f, tangent_through(f, l, fl, c, u, true, End::High))
    };
    pair(lower, upper)
}

/// The lines of a function on an interval that holds the start of its convex part.
fn falling_pair<S: Scalar>(f: Smooth, l: S, u: S, c: S) -> (r: Lines<S>)
    ensures
        r == falling_lines(f, l, u, c),
{
    let (fl, fu) = (smooth_value(f, l), smooth_value(f, u));
    let k = fu.sub(fl).div(u.sub(l));
    let lower = if smooth_slope(f, u).is_lt(k) {
        line_through(k, l, fl)
    } else {
        tangent_line(f, tangent_through(f, l, fl, c, u, false, End::High))
    };
    let upper = if smooth_slope(f, l).is_lt(k) {
        line_through(k, l, fl)
    } else {
        tangent_line(f, tangent_through(f, u, fu, l, c, false, End::Low))
    };
    pair(lower, upper)
}

/// The lines of the standard normal distribution function.
pub open spec fn normcdf_sandwich<S: Scalar>(l: S, u: S) -> Lines<S> {
    let f = Smooth::NormalCdf;
    let zero = scalar::zero::<S>();
    let mid = u.plus(l).times(scalar::half());
    if narrow(l, u) {
        sandwich(flat(scalar::cdf(l)), flat(scalar::cdf(u)))
    } else if u.at_most(zero) {
        sandwich(tangent(f, mid), chord(l, u, scalar::cdf(l), scalar::cdf(u)))
    } else if zero.at_most(l) {
        sandwich(chord(l, u, scalar::cdf(l), scalar::cdf(u)), tangent(f, mid))
    } else {
        rising_lines(f, l, u, zero)
    }
}

/// The lines of the standard normal distribution function.
pub fn normcdf_lines<S: Scalar>(l: S, u: S) -> (r: Lines<S>)
    ensures
        r == normcdf_sandwich(l, u),
{
    let f = Smooth::NormalCdf;
    let zero = scalar::number::<S>(0);
    let (fl, fu) = (scalar::normcdf(l), scalar::normcdf(u));
    let mid = u.add(l).mul(S::from_ratio(1, 2));
    if is_narrow(l, u) {
        // degenerate: flat lines
        pair(flat_line(fl), flat_line(fu))
    } else if u.is_le(zero) {
        // convex: secant above, midpoint tangent below
        pair(tangent_line(f, mid), secant(l, u, fl, fu))
    } else if zero.is_le(l) {
        // concave: secant below, midpoint tangent above
        pair(secant(l, u, fl, fu), tangent_line(f, mid))
    } else {
        // crossing: tangent through the far endpoint, unless the chord already works
        rising_pair(f, l, u, zero)
    }
}

/// Where the Gaussian error linear unit turns from convex to concave.
pub open spec fn gelu_turn<S: Scalar>() -> S {
    scalar::num::<S>(2).root()
}

/// A number below all values of the Gaussian error linear unit.
pub open spec fn gelu_floor<S: Scalar>() -> S {
    S::ratio(-1699712074799037, 10000000000000000)
}

/// The line below the Gaussian error linear unit on an interval that holds both of its turns: the
/// tangent in the middle, unless that passes above an end.
pub open spec fn gelu_wide_low<S: Scalar>(l: S, u: S) -> Line<S> {
    let mid = halfway(u, l);
    let t = tangent(Smooth::Gelu, mid);
    if gelu_turn::<S>().opposite().at_most(mid) && mid.at_most(gelu_turn()) && on_line(
        t,
        l,
    ).at_most(scalar::gelu_of(l)) && on_line(t, u).at_most(scalar::gelu_of(u)) {
        t
    } else {
        flat(gelu_floor())
    }
}

/// The lines of the Gaussian error linear unit.
pub open spec fn gelu_sandwich<S: Scalar>(l: S, u: S) -> Lines<S> {
    let f = Smooth::Gelu;
    let turn = gelu_turn::<S>();
    let back = turn.opposite();
    let (fl, fu) = (scalar::gelu_of(l), scalar::gelu_of(u));
    if l.same(u) {
        sandwich(flat(fl), flat(fl))
    } else if back.at_most(l) && u.at_most(turn) {
        sandwich(tangent(f, halfway(u, l)), chord(l, u, fl, fu))
    } else if l.at_most(back) && turn.at_most(u) {
        sandwich(gelu_wide_low(l, u), chord(l, u, fl, fu))
    } else if u.at_most(back) || turn.at_most(l) {
        sandwich(chord(l, u, fl, fu), tangent(f, halfway(u, l)))
    } else if l.less(back) {
        falling_lines(f, l, u, back)
    } else {
        rising_lines(f, l, u, turn)
    }
}

/// The lines of the Gaussian error linear unit.
pub fn gelu_lines<S: Scalar>(l: S, u: S) -> (r: Lines<S>)
    ensures
        r == gelu_sandwich(l, u),
{
    let f = Smooth::Gelu;
    let turn = scalar::number::<S>(2).sqrt();
    let back = turn.neg();
    let (fl, fu) = (smooth_value(f, l), smooth_value(f, u));
    if l.is_eq(u) {
        // a point: flat lines
        return pair(flat_line(fl), flat_line(fl));
    }
    let mid = u.add(l).div(scalar::number::<S>(2));
    if back.is_le(l) && u.is_le(turn) {
        // convex: midpoint tangent below, secant above
        pair(tangent_line(f, mid), secant(l, u, fl, fu))
    } else if l.is_le(back) && turn.is_le(u) {
        // both turns: secant above
        let t = tangent_line(f, mid);
        let (tl, tu) = (t.slope.mul(l).add(t.offset), t.slope.mul(u).add(t.offset));
        let low = if back.is_le(mid) && mid.is_le(turn) && tl.is_le(fl) && tu.is_le(fu) {
            t
        } else {
            flat_line(S::from_ratio(-1699712074799037, 10000000000000000))
        };
        pair(low, secant(l, u, fl, fu))
    } else if u.is_le(back) || turn.is_le(l) {
        // concave: secant below, midpoint tangent above
        pair(secant(l, u, fl, fu), tangent_line(f, mid))
    } else if l.is_lt(back) {
        falling_pair(f, l, u, back)
    } else {
        rising_pair(f, l, u, turn)
    }
}

/// The lines of the reciprocal, on an interval away from zero.
pub open spec fn reciprocal_sandwich<S: Scalar>(l: S, u: S) -> Lines<S> {
    if narrow(l, u) {
        sandwich(flat(l.inverse()), flat(l.inverse()))
    } else {
        let d = halfway(l, u);
        let slope = scalar::num::<S>(-1).over(d.times(d));
        let t = through(slope, d, d.inverse());
        let s = chord(l, u, l.inverse(), u.inverse());
        if scalar::zero::<S>().less(l) {
            sandwich(t, s)
        } else {
            sandwich(s, t)
        }
    }
}

/// The lines of the reciprocal, on an interval away from zero.
pub fn reciprocal_lines<S: Scalar>(l: S, u: S) -> (r: Lines<S>)
    ensures
        r == reciprocal_sandwich(l, u),
{
    if is_narrow(l, u) {
        // degenerate: flat line through the point
        return pair(flat_line(l.recip()), flat_line(l.recip()));
    }
    // https://openreview.net/pdf?id=BJxwPJHFwS
    let d = l.add(u).div(scalar::number::<S>(2));
    let slope = scalar::number::<S>(-1).div(d.mul(d));
    let t = line_through(slope, d, d.recip());
    let s = secant(l, u, l.recip(), u.recip());
    if scalar::number::<S>(0).is_lt(l) {
        // convex: secant above, tangent below
        pair(t, s)
    } else {
        // concave: secant below, tangent above
        pair(s, t)
    }
}

/// The lines of the exponential.
pub open spec fn exp_sandwich<S: Scalar>(l: S, u: S) -> Lines<S> {
    let upper = if narrow(l, u) {
        flat(l.exponential())
    } else {
        chord(l, u, l.exponential(), u.exponential())
    };
    let d = halfway(l, u).smaller(l.plus(S::ratio(99, 100)));
    sandwich(through(d.exponential(), d, d.exponential()), upper)
}

/// The lines of the exponential.
pub fn exp_lines<S: Scalar>(l: S, u: S) -> (r: Lines<S>)
    ensures
        r == exp_sandwich(l, u),
{
    // https://openreview.net/pdf?id=BJxwPJHFwS
    let upper = if is_narrow(l, u) {
        // degenerate: flat line through the point
        flat_line(l.exp())
    } else {
        secant(l, u, l.exp(), u.exp())
    };
    // for numerical stability
    let d = l.add(u).div(scalar::number::<S>(2)).min_of(l.add(S::from_ratio(99, 100)));
    pair(line_through(d.exp(), d, d.exp()), upper)
}

/// The derivative of the exponential linear unit.
pub open spec fn elu_slope<S: Scalar>(slope: S, x: S) -> S {
    if scalar::zero::<S>().at_most(x) {
        scalar::one()
    } else {
        slope.times(x.exponential())
    }
}

/// The lines of the exponential linear unit.
pub open spec fn elu_sandwich<S: Scalar>(slope: S, l: S, u: S) -> Lines<S> {
    let upper = if narrow(l, u) {
        flat(scalar::elu_of(slope, l))
    } else {
        chord(l, u, scalar::elu_of(slope, l), scalar::elu_of(slope, u))
    };
    let d = halfway(l, u);
    sandwich(through(elu_slope(slope, d), d, scalar::elu_of(slope, d)), upper)
}

/// The exponential linear unit.
fn elu<S: Scalar>(slope: S, x: S) -> (r: S)
    ensures
        r == scalar::elu_of(slope, x),
{
    let zero = scalar::number::<S>(0);
    let one = scalar::number::<S>(1);
    x.max_of(zero).add(slope.mul(x.exp().sub(one).min_of(zero)))
}

/// The lines of the exponential linear unit.
pub fn elu_lines<S: Scalar>(l: S, u: S, slope: S) -> (r: Lines<S>)
    ensures
        r == elu_sandwich(slope, l, u),
{
    let upper = if is_narrow(l, u) {
        // degenerate: flat line through the point
        flat_line(elu(slope, l))
    } else {
        secant(l, u, elu(slope, l), elu(slope, u))
    };
    // arbitrary point inbetween (midpoint here)
    let d = l.add(u).div(scalar::number::<S>(2));
    let k = if scalar::number::<S>(0).is_le(d) {
        scalar::number::<S>(1)
    } else {
        slope.mul(d.exp())
    };
    pair(line_through(k, d, elu(slope, d)), upper)
}

/// Where the line below the square touches it.
pub open spec fn square_touch<S: Scalar>(l: S, u: S) -> S {
    let mid = halfway(l, u);
    if u.at_most(scalar::zero()) {
        mid.larger(scalar::num::<S>(2).times(u))
    } else if scalar::zero::<S>().at_most(l) {
        mid.smaller(scalar::num::<S>(2).times(l))
    } else {
        scalar::zero()
    }
}

/// The lines of the square.
pub open spec fn square_sandwich<S: Scalar>(l: S, u: S) -> Lines<S> {
    let upper = if narrow(l, u) {
        flat(l.times(l))
    } else {
        chord(l, u, l.times(l), u.times(u))
    };
    let d = square_touch(l, u);
    sandwich(
        Line { slope: scalar::num::<S>(2).times(d), offset: d.opposite().times(d) },
        upper,
    )
}

/// The lines of the square.
pub fn square_lines<S: Scalar>(l: S, u: S) -> (r: Lines<S>)
    ensures
        r == square_sandwich(l, u),
{
    // https://openreview.net/pdf?id=BJxwPJHFwS
    let zero = scalar::number::<S>(0);
    let two = scalar::number::<S>(2);
    let upper = if is_narrow(l, u) {
        // degenerate: flat line through the point
        flat_line(l.mul(l))
    } else {
        secant(l, u, l.mul(l), u.mul(u))
    };
    let mid = l.add(u).div(two);
    let d = if u.is_le(zero) {
        mid.max_of(two.mul(u))
    } else if zero.is_le(l) {
        mid.min_of(two.mul(l))
    } else {
        // Any nonzero tangent dips below 0 at x = 0, so d = 0 (lower line y = 0).
        zero
    };
    pair(Line { slope: two.mul(d), offset: d.neg().mul(d) }, upper)
}

/// The lines of the square root, on an interval that is not negative.
pub open spec fn sqrt_sandwich<S: Scalar>(l: S, u: S) -> Lines<S> {
    if narrow(l, u) {
        sandwich(flat(l.root()), flat(l.root()))
    } else {
        let m = halfway(l, u);
        let slope = scalar::half::<S>().over(m.root());
        sandwich(chord(l, u, l.root(), u.root()), through(slope, m, m.root()))
    }
}

/// The lines of the square root, on an interval that is not negative.
pub fn sqrt_lines<S: Scalar>(l: S, u: S) -> (r: Lines<S>)
    ensures
        r == sqrt_sandwich(l, u),
{
    // https://openreview.net/pdf?id=BJxwPJHFwS
    if is_narrow(l, u) {
        // degenerate: flat line through the point
        return pair(flat_line(l.sqrt()), flat_line(l.sqrt()));
    }
    let m = l.add(u).div(scalar::number::<S>(2));
    let slope = S::from_ratio(1, 2).div(m.sqrt());
    pair(secant(l, u, l.sqrt(), u.sqrt()), line_through(slope, m, m.sqrt()))
}

/// A function with a linear relaxation.
#[derive(Debug, Clone, Copy, PartialEq)]
pub enum Curve<S> {
    Reciprocal,
    Square,
    Sqrt,
    Exp,
    NormalCdf,
    Elu(S),
    Gelu,
}

/// The lines of a function on an interval.
pub open spec fn curve_lines<S: Scalar>(f: Curve<S>, l: S, u: S) -> Lines<S> {
    match f {
        Curve::Reciprocal => reciprocal_sandwich(l, u),
        Curve::Square => square_sandwich(l, u),
        Curve::Sqrt => sqrt_sandwich(l, u),
        Curve::Exp => exp_sandwich(l, u),
        Curve::NormalCdf => normcdf_sandwich(l, u),
        Curve::Elu(slope) => elu_sandwich(slope, l, u),
        Curve::Gelu => gelu_sandwich(l, u),
    }
}

/// Whether a function can be relaxed on an interval: the reciprocal away from zero, the square
/// root above zero.
pub open spec fn relaxable<S: Scalar>(f: Curve<S>, l: S, u: S) -> bool {
    match f {
        Curve::Reciprocal => !interval::holds_zero(l, u),
        Curve::Sqrt => !l.less(scalar::zero()),
        _ => true,
    }
}

/// The lines of a function on an interval.
pub fn lines<S: Scalar>(f: &Curve<S>, l: S, u: S) -> (r: Lines<S>)
    ensures
        r == curve_lines(*f, l, u),
{
    match f {
        Curve::Reciprocal => reciprocal_lines(l, u),
        Curve::Square => square_lines(l, u),
        Curve::Sqrt => sqrt_lines(l, u),
        Curve::Exp => exp_lines(l, u),
        Curve::NormalCdf => normcdf_lines(l, u),
        Curve::Elu(slope) => elu_lines(l, u, *slope),
        Curve::Gelu => gelu_lines(l, u),
    }
}

/// Whether a function can be relaxed on an interval.
pub fn can_relax<S: Scalar>(f: &Curve<S>, l: S, u: S) -> (r: bool)
    ensures
        r == relaxable(*f, l, u),
{
    let zero = scalar::number::<S>(0);
    match f {
        Curve::Reciprocal => !(l.is_le(zero) && zero.is_le(u)),
        Curve::Sqrt => !l.is_lt(zero),
        _ => true,
    }
}

} // verus!
