//! Finite sums of real numbers.

use vstd::prelude::*;

verus! {

/// The sum of `f(0)` to `f(n - 1)`.
pub open spec fn sum(f: spec_fn(int) -> real, n: nat) -> real
    decreases n,
{
    if n == 0 {
        0real
    } else {
        sum(f, (n - 1) as nat) + f(n - 1)
    }
}

/// Equal terms have equal sums.
pub proof fn lemma_sum_same(f: spec_fn(int) -> real, g: spec_fn(int) -> real, n: nat)
    requires
        forall|k: int| 0 <= k < n ==> #[trigger] f(k) == g(k),
    ensures
        sum(f, n) == sum(g, n),
    decreases n,
{
    if n > 0 {
        lemma_sum_same(f, g, (n - 1) as nat);
    }
}

/// Smaller terms have a smaller sum.
pub proof fn lemma_sum_le(f: spec_fn(int) -> real, g: spec_fn(int) -> real, n: nat)
    requires
        forall|k: int| 0 <= k < n ==> #[trigger] f(k) <= g(k),
    ensures
        sum(f, n) <= sum(g, n),
    decreases n,
{
    if n > 0 {
        lemma_sum_le(f, g, (n - 1) as nat);
    }
}

/// The sum of sums.
pub proof fn lemma_sum_plus(
    f: spec_fn(int) -> real,
    g: spec_fn(int) -> real,
    h: spec_fn(int) -> real,
    n: nat,
)
    requires
        forall|k: int| 0 <= k < n ==> #[trigger] h(k) == f(k) + g(k),
    ensures
        sum(h, n) == sum(f, n) + sum(g, n),
    decreases n,
{
    if n > 0 {
        lemma_sum_plus(f, g, h, (n - 1) as nat);
    }
}

/// A common factor.
pub proof fn lemma_sum_scale(c: real, f: spec_fn(int) -> real, h: spec_fn(int) -> real, n: nat)
    requires
        forall|k: int| 0 <= k < n ==> #[trigger] h(k) == c * f(k),
    ensures
        sum(h, n) == c * sum(f, n),
    decreases n,
{
    if n > 0 {
        lemma_sum_scale(c, f, h, (n - 1) as nat);
        let (a, b) = (sum(f, (n - 1) as nat), f(n - 1));
        assert(c * (a + b) == c * a + c * b) by (nonlinear_arith);
    } else {
        assert(c * 0real == 0real) by (nonlinear_arith);
    }
}

/// A sum of zeros.
pub proof fn lemma_sum_zero(f: spec_fn(int) -> real, n: nat)
    requires
        forall|k: int| 0 <= k < n ==> #[trigger] f(k) == 0real,
    ensures
        sum(f, n) == 0real,
    decreases n,
{
    if n > 0 {
        lemma_sum_zero(f, (n - 1) as nat);
    }
}

/// A sum with at most one term that is not zero.
pub proof fn lemma_sum_one(f: spec_fn(int) -> real, n: nat, i: int)
    requires
        0 <= i < n,
        forall|k: int| 0 <= k < n && k != i ==> #[trigger] f(k) == 0real,
    ensures
        sum(f, n) == f(i),
    decreases n,
{
    if i == n - 1 {
        lemma_sum_zero(f, (n - 1) as nat);
    } else {
        lemma_sum_one(f, (n - 1) as nat, i);
    }
}

/// A double sum in either order.
pub proof fn lemma_sum_swap(f: spec_fn(int, int) -> real, m: nat, n: nat)
    ensures
        sum(|i: int| sum(|j: int| f(i, j), n), m) == sum(|j: int| sum(|i: int| f(i, j), m), n),
    decreases m,
{
    let lhs = |i: int| sum(|j: int| f(i, j), n);
    let rhs = |j: int| sum(|i: int| f(i, j), m);
    if m == 0 {
        assert forall|j: int| 0 <= j < n implies #[trigger] rhs(j) == 0real by {}
        lemma_sum_zero(rhs, n);
    } else {
        let p = (m - 1) as nat;
        lemma_sum_swap(f, p, n);
        let before = |j: int| sum(|i: int| f(i, j), p);
        let last = |j: int| f(m - 1, j);
        assert forall|j: int| 0 <= j < n implies #[trigger] rhs(j) == before(j) + last(j) by {}
        lemma_sum_plus(before, last, rhs, n);
    }
}

/// A sum taken in blocks of length `q`.
pub proof fn lemma_sum_blocks(f: spec_fn(int) -> real, p: nat, q: nat)
    ensures
        sum(f, p * q) == sum(|i: int| sum(|j: int| f(i * q + j), q), p),
    decreases p,
{
    let g = |i: int| sum(|j: int| f(i * q + j), q);
    if p > 0 {
        let b = (p - 1) as nat;
        lemma_sum_blocks(f, b, q);
        assert(p * q == b * q + q) by (nonlinear_arith)
            requires
                p == b + 1,
        ;
        lemma_sum_append(f, |j: int| f(b * q + j), b * q, q);
    } else {
        assert(p * q == 0) by (nonlinear_arith)
            requires
                p == 0,
        ;
    }
}

/// A sum that continues another.
pub proof fn lemma_sum_append(
    f: spec_fn(int) -> real,
    g: spec_fn(int) -> real,
    m: nat,
    n: nat,
)
    requires
        forall|k: int| 0 <= k < n ==> #[trigger] g(k) == f(m + k),
    ensures
        sum(f, m + n) == sum(f, m) + sum(g, n),
    decreases n,
{
    if n > 0 {
        lemma_sum_append(f, g, m, (n - 1) as nat);
        assert(g(n - 1) == f(m + n - 1));
    }
}

} // verus!
