//! Fixed-point numbers: the numbers of tensors where every result is the same on every machine.

use vstd::prelude::*;
use crate::scalar::Scalar;

verus! {

/// A number with 24 binary places. Results that are too large become the largest or the smallest
/// number, other results are rounded towards zero.
#[derive(Debug, Clone, Copy, PartialEq, Eq, Structural)]
pub struct Fixed {
    pub raw: i64,
}

/// One, in units of the last place.
pub const UNIT: i128 = 16777216;

/// The largest magnitude of a numerator.
pub const REACH: i128 = 1208925819614629174706176;

/// The number that a count of last places stands for, limited to what a number can hold.
pub open spec fn limited(x: int) -> Fixed {
    Fixed {
        raw: if x > i64::MAX {
            i64::MAX
        } else if x < i64::MIN {
            i64::MIN
        } else {
            x as i64
        },
    }
}

/// A quotient rounded towards zero; the numerator of a quotient by zero decides what it is.
pub open spec fn quotient(a: int, b: int) -> int {
    if b == 0 {
        if a > 0 {
            i64::MAX as int
        } else if a < 0 {
            i64::MIN as int
        } else {
            0
        }
    } else {
        let q = magnitude_of(a) / magnitude_of(b);
        if (a < 0) == (b < 0) {
            q
        } else {
            -q
        }
    }
}

/// The magnitude of an integer.
pub open spec fn magnitude_of(a: int) -> int {
    if a < 0 {
        -a
    } else {
        a
    }
}

/// The number nearest to zero from `n` on that `bound` allows.
pub open spec fn within(n: int, bound: int) -> int {
    if n > bound {
        bound
    } else if n < -bound {
        -bound
    } else {
        n
    }
}

/// The number that a count of last places stands for.
fn limit(x: i128) -> (r: Fixed)
    ensures
        r == limited(x as int),
{
    if x > i64::MAX as i128 {
        Fixed { raw: i64::MAX }
    } else if x < i64::MIN as i128 {
        Fixed { raw: i64::MIN }
    } else {
        Fixed { raw: x as i64 }
    }
}

/// The magnitude of an integer.
fn size(a: i128) -> (r: u128)
    requires
        a > i128::MIN,
    ensures
        r == magnitude_of(a as int),
{
    if a < 0 {
        (-a) as u128
    } else {
        a as u128
    }
}

/// A quotient rounded towards zero.
fn divide(a: i128, b: i128) -> (r: i128)
    requires
        a > i128::MIN,
        b > i128::MIN,
    ensures
        r == quotient(a as int, b as int),
{
    if b == 0 {
        if a > 0 {
            i64::MAX as i128
        } else if a < 0 {
            i64::MIN as i128
        } else {
            0
        }
    } else {
        let (x, y) = (size(a), size(b));
        let q: u128 = x / y;
        proof {
            let (m, d) = (x as int, y as int);
            assert(0 <= m / d <= m) by (nonlinear_arith)
                requires
                    0 <= m,
                    0 < d,
            ;
        }
        if (a < 0) == (b < 0) {
            q as i128
        } else {
            -(q as i128)
        }
    }
}

impl Fixed {
    /// The sum.
    pub open spec fn sum(self, other: Fixed) -> Fixed {
        limited(self.raw + other.raw)
    }

    /// The difference.
    pub open spec fn difference(self, other: Fixed) -> Fixed {
        limited(self.raw - other.raw)
    }

    /// The product.
    pub open spec fn product(self, other: Fixed) -> Fixed {
        limited(quotient(self.raw * other.raw, UNIT as int))
    }

    /// The quotient.
    pub open spec fn ratio_to(self, other: Fixed) -> Fixed {
        limited(quotient(self.raw * UNIT, other.raw as int))
    }
}

/// The integer `n`.
pub open spec fn whole(n: int) -> Fixed {
    limited(n * UNIT)
}

/// The sum.
fn plus(a: Fixed, b: Fixed) -> (r: Fixed)
    ensures
        r == a.sum(b),
{
    limit(a.raw as i128 + b.raw as i128)
}

/// The difference.
fn minus(a: Fixed, b: Fixed) -> (r: Fixed)
    ensures
        r == a.difference(b),
{
    limit(a.raw as i128 - b.raw as i128)
}

/// The product of two raw numbers fits.
proof fn lemma_product_fits(a: i64, b: i64)
    ensures
        -0x4000_0000_0000_0000_0000_0000_0000_0000 <= a * b
            <= 0x4000_0000_0000_0000_0000_0000_0000_0000,
{
    assert(-0x4000_0000_0000_0000_0000_0000_0000_0000 <= a * b
        <= 0x4000_0000_0000_0000_0000_0000_0000_0000) by (nonlinear_arith)
        requires
            -0x8000_0000_0000_0000 <= a <= 0x7fff_ffff_ffff_ffff,
            -0x8000_0000_0000_0000 <= b <= 0x7fff_ffff_ffff_ffff,
    ;
}

/// The product.
fn times(a: Fixed, b: Fixed) -> (r: Fixed)
    ensures
        r == a.product(b),
{
    proof {
        lemma_product_fits(a.raw, b.raw);
    }
    limit(divide(a.raw as i128 * b.raw as i128, UNIT))
}

/// The quotient.
fn over(a: Fixed, b: Fixed) -> (r: Fixed)
    ensures
        r == a.ratio_to(b),
{
    limit(divide(a.raw as i128 * UNIT, b.raw as i128))
}

/// The integer `n`.
fn integer(n: i64) -> (r: Fixed)
    ensures
        r == whole(n as int),
{
    limit(n as i128 * UNIT)
}

// ---- roots ----
/// The largest number from `low` on and below `high` whose square does not exceed `n`, or `low`.
pub open spec fn root_between(n: int, low: int, high: int) -> int
    decreases high - low,
{
    if high - low <= 1 {
        low
    } else {
        let mid = (low + high) / 2;
        if mid * mid <= n {
            root_between(n, mid, high)
        } else {
            root_between(n, low, mid)
        }
    }
}

/// The root of an integer, rounded down.
fn root_of(n: i128) -> (r: i128)
    requires
        0 <= n,
    ensures
        r == root_between(n as int, 0, 0x1_0000_0000_0000),
        0 <= r < 0x1_0000_0000_0000,
{
    let mut low: i128 = 0;
    let mut high: i128 = 0x1_0000_0000_0000;
    while high - low > 1
        invariant
            0 <= low < high <= 0x1_0000_0000_0000,
            root_between(n as int, 0, 0x1_0000_0000_0000) == root_between(
                n as int,
                low as int,
                high as int,
            ),
        decreases high - low,
    {
        let mid: i128 = (low + high) / 2;
        proof {
            assert(0 <= mid * mid <= 0x1_0000_0000_0000 * 0x1_0000_0000_0000) by (nonlinear_arith)
                requires
                    0 <= mid <= 0x1_0000_0000_0000,
            ;
        }
        if mid * mid <= n {
            low = mid;
        } else {
            high = mid;
        }
    }
    low
}

// ---- the exponential function ----
/// The sum of the terms of the exponential series from number `k` to number 12, where the term
/// before them is `term`.
pub open spec fn exp_series(x: Fixed, term: Fixed, k: int) -> Fixed
    decreases 13 - k,
{
    if k > 12 {
        whole(0)
    } else {
        let next = term.product(x).ratio_to(whole(k));
        next.sum(exp_series(x, next, k + 1))
    }
}

/// The exponential function: the series at `x` halved `n` times, squared `n` times.
pub open spec fn exp_halved(x: Fixed, n: nat) -> Fixed
    decreases n,
{
    if n == 0 {
        whole(1).sum(exp_series(x, whole(1), 1))
    } else {
        let h = exp_halved(x.ratio_to(whole(2)), (n - 1) as nat);
        h.product(h)
    }
}

/// The terms of the exponential series from number `k` on.
fn exp_terms(x: Fixed, term: Fixed, k: i64) -> (r: Fixed)
    requires
        0 < k <= 13,
    ensures
        r == exp_series(x, term, k as int),
    decreases 13 - k,
{
    if k > 12 {
        integer(0)
    } else {
        let next = over(times(term, x), integer(k));
        plus(next, exp_terms(x, next, k + 1))
    }
}

/// The exponential function.
fn exp_of(x: Fixed, n: u8) -> (r: Fixed)
    ensures
        r == exp_halved(x, n as nat),
    decreases n,
{
    if n == 0 {
        plus(integer(1), exp_terms(x, integer(1), 1))
    } else {
        let h = exp_of(over(x, integer(2)), n - 1);
        times(h, h)
    }
}

// ---- the logarithm ----
/// The logarithm of `x` after `n` steps from `y` on: each moves `y` by twice the quotient of the
/// difference and the sum of `x` and the exponential of `y`.
pub open spec fn log_from(x: Fixed, y: Fixed, n: nat) -> Fixed
    decreases n,
{
    if n == 0 {
        y
    } else {
        let e = exp_halved(y, 6);
        let move_by = whole(2).product(x.difference(e).ratio_to(x.sum(e)));
        log_from(x, y.sum(move_by), (n - 1) as nat)
    }
}

/// The logarithm after `n` steps.
fn log_steps(x: Fixed, y: Fixed, n: u8) -> (r: Fixed)
    ensures
        r == log_from(x, y, n as nat),
    decreases n,
{
    if n == 0 {
        y
    } else {
        let e = exp_of(y, 6);
        let move_by = times(integer(2), over(minus(x, e), plus(x, e)));
        log_steps(x, plus(y, move_by), n - 1)
    }
}

// ---- the error function ----
/// The sum of the terms of the series of the error function from number `k` to number 40, where
/// the power before them is `power` and `square` is the squared argument.
pub open spec fn erf_series(square: Fixed, power: Fixed, k: int) -> Fixed
    decreases 41 - k,
{
    if k > 40 {
        whole(0)
    } else {
        let next = whole(0).difference(power.product(square).ratio_to(whole(k)));
        next.ratio_to(whole(2 * k + 1)).sum(erf_series(square, next, k + 1))
    }
}

/// The terms of the series of the error function from number `k` on.
fn erf_terms(square: Fixed, power: Fixed, k: i64) -> (r: Fixed)
    requires
        0 < k <= 41,
    ensures
        r == erf_series(square, power, k as int),
    decreases 41 - k,
{
    if k > 40 {
        integer(0)
    } else {
        let next = minus(integer(0), over(times(power, square), integer(k)));
        plus(over(next, integer(2 * k + 1)), erf_terms(square, next, k + 1))
    }
}

/// The factor before the series of the error function: two over the root of the circle constant.
pub const ERF_FACTOR: i64 = 18931061;

impl Scalar for Fixed {
    open spec fn ratio(num: int, den: int) -> Fixed {
        limited(quotient(within(num, REACH as int) * UNIT, within(den, REACH as int)))
    }

    open spec fn top() -> Fixed {
        Fixed { raw: i64::MAX }
    }

    open spec fn bottom() -> Fixed {
        Fixed { raw: i64::MIN }
    }

    open spec fn circle() -> Fixed {
        Fixed { raw: 52707179 }
    }

    open spec fn plus(self, other: Fixed) -> Fixed {
        self.sum(other)
    }

    open spec fn minus(self, other: Fixed) -> Fixed {
        self.difference(other)
    }

    open spec fn times(self, other: Fixed) -> Fixed {
        self.product(other)
    }

    open spec fn over(self, other: Fixed) -> Fixed {
        self.ratio_to(other)
    }

    open spec fn opposite(self) -> Fixed {
        limited(-self.raw)
    }

    open spec fn inverse(self) -> Fixed {
        whole(1).ratio_to(self)
    }

    open spec fn magnitude(self) -> Fixed {
        limited(magnitude_of(self.raw as int))
    }

    open spec fn root(self) -> Fixed {
        limited(
            root_between(
                if self.raw < 0 {
                    0
                } else {
                    self.raw * UNIT
                },
                0,
                0x1_0000_0000_0000,
            ),
        )
    }

    open spec fn exponential(self) -> Fixed {
        exp_halved(self, 6)
    }

    open spec fn logarithm(self) -> Fixed {
        if self.raw <= 0 {
            Self::bottom()
        } else {
            log_from(self, whole(0), 20)
        }
    }

    open spec fn error_function(self) -> Fixed {
        if self.raw >= 3 * UNIT {
            whole(1)
        } else if self.raw <= -3 * UNIT {
            whole(-1)
        } else {
            Fixed { raw: ERF_FACTOR }.product(
                self.product(whole(1).sum(erf_series(self.product(self), whole(1), 1))),
            )
        }
    }

    open spec fn larger(self, other: Fixed) -> Fixed {
        if self.raw < other.raw {
            other
        } else {
            self
        }
    }

    open spec fn smaller(self, other: Fixed) -> Fixed {
        if other.raw < self.raw {
            other
        } else {
            self
        }
    }

    open spec fn less(self, other: Fixed) -> bool {
        self.raw < other.raw
    }

    open spec fn at_most(self, other: Fixed) -> bool {
        self.raw <= other.raw
    }

    open spec fn same(self, other: Fixed) -> bool {
        self.raw == other.raw
    }

    open spec fn before(self, other: Fixed) -> bool {
        self.raw < other.raw
    }

    fn from_ratio(num: i128, den: u128) -> (r: Fixed) {
        let n: i128 = if num > REACH {
            REACH
        } else if num < -REACH {
            -REACH
        } else {
            num
        };
        let d: i128 = if den > REACH as u128 {
            REACH
        } else {
            den as i128
        };
        limit(divide(n * UNIT, d))
    }

    fn infinity() -> (r: Fixed) {
        Fixed { raw: i64::MAX }
    }

    fn neg_infinity() -> (r: Fixed) {
        Fixed { raw: i64::MIN }
    }

    fn pi() -> (r: Fixed) {
        Fixed { raw: 52707179 }
    }

    fn add(self, other: Fixed) -> (r: Fixed) {
        plus(self, other)
    }

    fn sub(self, other: Fixed) -> (r: Fixed) {
        minus(self, other)
    }

    fn mul(self, other: Fixed) -> (r: Fixed) {
        times(self, other)
    }

    fn div(self, other: Fixed) -> (r: Fixed) {
        over(self, other)
    }

    fn neg(self) -> (r: Fixed) {
        limit(-(self.raw as i128))
    }

    fn recip(self) -> (r: Fixed) {
        over(integer(1), self)
    }

    fn abs(self) -> (r: Fixed) {
        limit(size(self.raw as i128) as i128)
    }

    fn sqrt(self) -> (r: Fixed) {
        let n: i128 = if self.raw < 0 {
            0
        } else {
            self.raw as i128 * UNIT
        };
        limit(root_of(n))
    }

    fn exp(self) -> (r: Fixed) {
        exp_of(self, 6)
    }

    fn ln(self) -> (r: Fixed) {
        if self.raw <= 0 {
            Fixed { raw: i64::MIN }
        } else {
            log_steps(self, integer(0), 20)
        }
    }

    fn erf(self) -> (r: Fixed) {
        if self.raw as i128 >= 3 * UNIT {
            integer(1)
        } else if self.raw as i128 <= -3 * UNIT {
            integer(-1)
        } else {
            let series = plus(integer(1), erf_terms(times(self, self), integer(1), 1));
            times(Fixed { raw: ERF_FACTOR }, times(self, series))
        }
    }

    fn max_of(self, other: Fixed) -> (r: Fixed) {
        if self.raw < other.raw {
            other
        } else {
            self
        }
    }

    fn min_of(self, other: Fixed) -> (r: Fixed) {
        if other.raw < self.raw {
            other
        } else {
            self
        }
    }

    fn is_lt(self, other: Fixed) -> (r: bool) {
        self.raw < other.raw
    }

    fn is_le(self, other: Fixed) -> (r: bool) {
        self.raw <= other.raw
    }

    fn is_eq(self, other: Fixed) -> (r: bool) {
        self.raw == other.raw
    }

    fn is_before(self, other: Fixed) -> (r: bool) {
        self.raw < other.raw
    }
}

} // verus!
