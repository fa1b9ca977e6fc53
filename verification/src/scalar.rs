//! The numbers that tensors hold.

use vstd::prelude::*;

verus! {

/// A number. Each operation comes as a specification function, which says what the result is,
/// and as an executable one, which computes it. Nothing is required of the operations beyond
/// that they are functions: floating-point numbers with their rounding qualify, and so do exact
/// numbers. A verified type gives specification functions of its own. The default ones have one
/// unknown value for all operands: they serve types outside the verified code, whose operations
/// are not held to them.
pub trait Scalar: Sized + Copy {
    /// The number nearest to `num / den`.
    open spec fn ratio(num: int, den: int) -> Self {
        arbitrary()
    }

    /// Positive infinity.
    open spec fn top() -> Self {
        arbitrary()
    }

    /// Negative infinity.
    open spec fn bottom() -> Self {
        arbitrary()
    }

    /// The circle constant.
    open spec fn circle() -> Self {
        arbitrary()
    }

    open spec fn plus(self, other: Self) -> Self {
        arbitrary()
    }

    open spec fn minus(self, other: Self) -> Self {
        arbitrary()
    }

    open spec fn times(self, other: Self) -> Self {
        arbitrary()
    }

    open spec fn over(self, other: Self) -> Self {
        arbitrary()
    }

    open spec fn opposite(self) -> Self {
        arbitrary()
    }

    open spec fn inverse(self) -> Self {
        arbitrary()
    }

    open spec fn magnitude(self) -> Self {
        arbitrary()
    }

    open spec fn root(self) -> Self {
        arbitrary()
    }

    open spec fn exponential(self) -> Self {
        arbitrary()
    }

    open spec fn logarithm(self) -> Self {
        arbitrary()
    }

    /// The error function.
    open spec fn error_function(self) -> Self {
        arbitrary()
    }

    /// The larger of two numbers.
    open spec fn larger(self, other: Self) -> Self {
        arbitrary()
    }

    /// The smaller of two numbers.
    open spec fn smaller(self, other: Self) -> Self {
        arbitrary()
    }

    open spec fn less(self, other: Self) -> bool {
        arbitrary()
    }

    open spec fn at_most(self, other: Self) -> bool {
        arbitrary()
    }

    /// Numeric equality.
    open spec fn same(self, other: Self) -> bool {
        arbitrary()
    }

    /// The strict part of a total order of all numbers.
    open spec fn before(self, other: Self) -> bool {
        arbitrary()
    }

    fn from_ratio(num: i128, den: u128) -> (r: Self)
        ensures
            r == Self::ratio(num as int, den as int),
    ;

    fn infinity() -> (r: Self)
        ensures
            r == Self::top(),
    ;

    fn neg_infinity() -> (r: Self)
        ensures
            r == Self::bottom(),
    ;

    fn pi() -> (r: Self)
        ensures
            r == Self::circle(),
    ;

    fn add(self, other: Self) -> (r: Self)
        ensures
            r == self.plus(other),
    ;

    fn sub(self, other: Self) -> (r: Self)
        ensures
            r == self.minus(other),
    ;

    fn mul(self, other: Self) -> (r: Self)
        ensures
            r == self.times(other),
    ;

    fn div(self, other: Self) -> (r: Self)
        ensures
            r == self.over(other),
    ;

    fn neg(self) -> (r: Self)
        ensures
            r == self.opposite(),
    ;

    fn recip(self) -> (r: Self)
        ensures
            r == self.inverse(),
    ;

    fn abs(self) -> (r: Self)
        ensures
            r == self.magnitude(),
    ;

    fn sqrt(self) -> (r: Self)
        ensures
            r == self.root(),
    ;

    fn exp(self) -> (r: Self)
        ensures
            r == self.exponential(),
    ;

    fn ln(self) -> (r: Self)
        ensures
            r == self.logarithm(),
    ;

    fn erf(self) -> (r: Self)
        ensures
            r == self.error_function(),
    ;

    fn max_of(self, other: Self) -> (r: Self)
        ensures
            r == self.larger(other),
    ;

    fn min_of(self, other: Self) -> (r: Self)
        ensures
            r == self.smaller(other),
    ;

    fn is_lt(self, other: Self) -> (r: bool)
        ensures
            r == self.less(other),
    ;

    fn is_le(self, other: Self) -> (r: bool)
        ensures
            r == self.at_most(other),
    ;

    fn is_eq(self, other: Self) -> (r: bool)
        ensures
            r == self.same(other),
    ;

    fn is_before(self, other: Self) -> (r: bool)
        ensures
            r == self.before(other),
    ;
}

/// The number `n`.
pub open spec fn num<S: Scalar>(n: int) -> S {
    S::ratio(n, 1)
}

/// The number zero.
pub open spec fn zero<S: Scalar>() -> S {
    S::ratio(0, 1)
}

/// The number one.
pub open spec fn one<S: Scalar>() -> S {
    S::ratio(1, 1)
}

/// The number one half.
pub open spec fn half<S: Scalar>() -> S {
    S::ratio(1, 2)
}

/// The number `n`.
pub fn number<S: Scalar>(n: i128) -> (r: S)
    ensures
        r == num::<S>(n as int),
{
    S::from_ratio(n, 1)
}

/// The standard normal distribution function at `x`.
pub open spec fn cdf<S: Scalar>(x: S) -> S {
    half::<S>().times(one::<S>().plus(x.over(num::<S>(2).root()).error_function()))
}

/// The standard normal density at `x`.
pub open spec fn pdf<S: Scalar>(x: S) -> S {
    half::<S>().times(x).times(x).opposite().exponential().over(
        num::<S>(2).times(S::circle()).root(),
    )
}

/// The standard normal distribution function.
pub fn normcdf<S: Scalar>(x: S) -> (r: S)
    ensures
        r == cdf(x),
{
    let half = S::from_ratio(1, 2);
    half.mul(number::<S>(1).add(x.div(number::<S>(2).sqrt()).erf()))
}

/// The standard normal density.
pub fn normpdf<S: Scalar>(x: S) -> (r: S)
    ensures
        r == pdf(x),
{
    let half = S::from_ratio(1, 2);
    half.mul(x).mul(x).neg().exp().div(number::<S>(2).mul(S::pi()).sqrt())
}

/// What an elementwise map does to one number.
pub open spec fn nonneg_part<S: Scalar>(x: S) -> S {
    if zero::<S>().at_most(x) {
        x
    } else {
        zero()
    }
}

/// The number itself where it is negative, zero elsewhere.
pub open spec fn neg_part<S: Scalar>(x: S) -> S {
    if x.less(zero()) {
        x
    } else {
        zero()
    }
}

/// The rectifier: the number where it exceeds zero, zero elsewhere.
pub open spec fn rectify<S: Scalar>(x: S) -> S {
    x.larger(zero())
}

/// The rectifier that keeps `slope` times a negative number.
pub open spec fn leaky<S: Scalar>(slope: S, x: S) -> S {
    if zero::<S>().at_most(x) {
        x
    } else {
        slope.times(x)
    }
}

/// The exponential linear unit.
pub open spec fn elu_of<S: Scalar>(slope: S, x: S) -> S {
    x.larger(zero()).plus(slope.times(x.exponential().minus(one()).smaller(zero())))
}

/// The Gaussian error linear unit.
pub open spec fn gelu_of<S: Scalar>(x: S) -> S {
    x.times(cdf(x))
}

} // verus!
