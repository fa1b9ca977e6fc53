//! Sums over three indices, and planes below products of matrices.

use vstd::prelude::*;
use crate::carry_products;
use crate::exact;
use crate::slopes;
use crate::sums;

verus! {

/// The sum of `f(i, j, k)` over all `i < l`, `j < m` and `k < n`.
pub open spec fn cube(f: spec_fn(int, int, int) -> real, l: nat, m: nat, n: nat) -> real {
    sums::sum(|i: int| sums::sum(|j: int| sums::sum(|k: int| f(i, j, k), n), m), l)
}

/// Smaller terms.
proof fn lemma_cube_le(
    f: spec_fn(int, int, int) -> real,
    g: spec_fn(int, int, int) -> real,
    l: nat,
    m: nat,
    n: nat,
)
    requires
        forall|i: int, j: int, k: int|
            0 <= i < l && 0 <= j < m && 0 <= k < n ==> #[trigger] f(i, j, k) <= g(i, j, k),
    ensures
        cube(f, l, m, n) <= cube(g, l, m, n),
{
    let (p, q) = (
        |i: int| sums::sum(|j: int| sums::sum(|k: int| f(i, j, k), n), m),
        |i: int| sums::sum(|j: int| sums::sum(|k: int| g(i, j, k), n), m),
    );
    assert forall|i: int| 0 <= i < l implies #[trigger] p(i) <= q(i) by {
        let (a, b) = (
            |j: int| sums::sum(|k: int| f(i, j, k), n),
            |j: int| sums::sum(|k: int| g(i, j, k), n),
        );
        assert forall|j: int| 0 <= j < m implies #[trigger] a(j) <= b(j) by {
            sums::lemma_sum_le(|k: int| f(i, j, k), |k: int| g(i, j, k), n);
        }
        sums::lemma_sum_le(a, b, m);
    }
    sums::lemma_sum_le(p, q, l);
}

/// Sums of terms.
proof fn lemma_cube_plus(
    f: spec_fn(int, int, int) -> real,
    g: spec_fn(int, int, int) -> real,
    l: nat,
    m: nat,
    n: nat,
)
    ensures
        cube(|i: int, j: int, k: int| f(i, j, k) + g(i, j, k), l, m, n) == cube(f, l, m, n) + cube(
            g,
            l,
            m,
            n,
        ),
{
    let h = |i: int, j: int, k: int| f(i, j, k) + g(i, j, k);
    let (p, q, r) = (
        |i: int| sums::sum(|j: int| sums::sum(|k: int| f(i, j, k), n), m),
        |i: int| sums::sum(|j: int| sums::sum(|k: int| g(i, j, k), n), m),
        |i: int| sums::sum(|j: int| sums::sum(|k: int| h(i, j, k), n), m),
    );
    assert forall|i: int| 0 <= i < l implies #[trigger] r(i) == p(i) + q(i) by {
        let (a, b, c) = (
            |j: int| sums::sum(|k: int| f(i, j, k), n),
            |j: int| sums::sum(|k: int| g(i, j, k), n),
            |j: int| sums::sum(|k: int| h(i, j, k), n),
        );
        assert forall|j: int| 0 <= j < m implies #[trigger] c(j) == a(j) + b(j) by {
            sums::lemma_sum_plus(
                |k: int| f(i, j, k),
                |k: int| g(i, j, k),
                |k: int| h(i, j, k),
                n,
            );
        }
        sums::lemma_sum_plus(a, b, c, m);
    }
    sums::lemma_sum_plus(p, q, r, l);
}

/// The last two indices in the other order.
proof fn lemma_cube_swap(f: spec_fn(int, int, int) -> real, l: nat, m: nat, n: nat)
    ensures
        cube(f, l, m, n) == cube(|i: int, k: int, j: int| f(i, j, k), l, n, m),
{
    let g = |i: int, k: int, j: int| f(i, j, k);
    let (p, q) = (
        |i: int| sums::sum(|j: int| sums::sum(|k: int| f(i, j, k), n), m),
        |i: int| sums::sum(|k: int| sums::sum(|j: int| g(i, k, j), m), n),
    );
    assert forall|i: int| 0 <= i < l implies #[trigger] p(i) == q(i) by {
        let h = |j: int, k: int| f(i, j, k);
        sums::lemma_sum_swap(h, m, n);
        let (a, b) = (
            |j: int| sums::sum(|k: int| f(i, j, k), n),
            |j: int| sums::sum(|k: int| h(j, k), n),
        );
        assert forall|j: int| 0 <= j < m implies #[trigger] a(j) == b(j) by {
            sums::lemma_sum_same(|k: int| f(i, j, k), |k: int| h(j, k), n);
        }
        sums::lemma_sum_same(a, b, m);
        let (c, d) = (
            |k: int| sums::sum(|j: int| h(j, k), m),
            |k: int| sums::sum(|j: int| g(i, k, j), m),
        );
        assert forall|k: int| 0 <= k < n implies #[trigger] c(k) == d(k) by {
            sums::lemma_sum_same(|j: int| h(j, k), |j: int| g(i, k, j), m);
        }
        sums::lemma_sum_same(c, d, n);
    }
    sums::lemma_sum_same(p, q, l);
}

/// The first two indices in the other order.
proof fn lemma_cube_turn(f: spec_fn(int, int, int) -> real, l: nat, m: nat, n: nat)
    ensures
        cube(f, l, m, n) == cube(|j: int, i: int, k: int| f(i, j, k), m, l, n),
{
    let g = |j: int, i: int, k: int| f(i, j, k);
    let h = |i: int, j: int| sums::sum(|k: int| f(i, j, k), n);
    sums::lemma_sum_swap(h, l, m);
    let (p, q) = (
        |i: int| sums::sum(|j: int| sums::sum(|k: int| f(i, j, k), n), m),
        |i: int| sums::sum(|j: int| h(i, j), m),
    );
    assert forall|i: int| 0 <= i < l implies #[trigger] p(i) == q(i) by {
        sums::lemma_sum_same(
            |j: int| sums::sum(|k: int| f(i, j, k), n),
            |j: int| h(i, j),
            m,
        );
    }
    sums::lemma_sum_same(p, q, l);
    let (c, d) = (
        |j: int| sums::sum(|i: int| h(i, j), l),
        |j: int| sums::sum(|i: int| sums::sum(|k: int| g(j, i, k), n), l),
    );
    assert forall|j: int| 0 <= j < m implies #[trigger] c(j) == d(j) by {
        let (a, b) = (
            |i: int| h(i, j),
            |i: int| sums::sum(|k: int| g(j, i, k), n),
        );
        assert forall|i: int| 0 <= i < l implies #[trigger] a(i) == b(i) by {
            sums::lemma_sum_same(|k: int| f(i, j, k), |k: int| g(j, i, k), n);
        }
        sums::lemma_sum_same(a, b, l);
    }
    sums::lemma_sum_same(c, d, m);
}

/// The sum of `f(i, j)` over all `i < l` and `j < m`.
pub open spec fn square(f: spec_fn(int, int) -> real, l: nat, m: nat) -> real {
    sums::sum(|i: int| sums::sum(|j: int| f(i, j), m), l)
}

/// A sum of weighed sums, as a sum over three indices.
proof fn lemma_weighed_cube(
    h: spec_fn(int, int) -> real,
    c: spec_fn(int, int) -> real,
    f: spec_fn(int, int, int) -> real,
    g: spec_fn(int, int, int) -> real,
    l: nat,
    m: nat,
    n: nat,
)
    requires
        forall|i: int, j: int|
            0 <= i < l && 0 <= j < m ==> #[trigger] h(i, j) == c(i, j) * sums::sum(
                |k: int| f(i, j, k),
                n,
            ),
        forall|i: int, j: int, k: int|
            0 <= i < l && 0 <= j < m && 0 <= k < n ==> #[trigger] g(i, j, k) == c(i, j) * f(
                i,
                j,
                k,
            ),
    ensures
        square(h, l, m) == cube(g, l, m, n),
{
    let (p, q) = (
        |i: int| sums::sum(|j: int| h(i, j), m),
        |i: int| sums::sum(|j: int| sums::sum(|k: int| g(i, j, k), n), m),
    );
    assert forall|i: int| 0 <= i < l implies #[trigger] p(i) == q(i) by {
        let (a, b) = (|j: int| h(i, j), |j: int| sums::sum(|k: int| g(i, j, k), n));
        assert forall|j: int| 0 <= j < m implies #[trigger] a(j) == b(j) by {
            sums::lemma_sum_scale(c(i, j), |k: int| f(i, j, k), |k: int| g(i, j, k), n);
            assert(h(i, j) == c(i, j) * sums::sum(|k: int| f(i, j, k), n));
        }
        sums::lemma_sum_same(a, b, m);
    }
    sums::lemma_sum_same(p, q, l);
}

/// A matrix of weighed sums that is the same, up to the order of factors.
proof fn lemma_square_same(
    f: spec_fn(int, int) -> real,
    g: spec_fn(int, int) -> real,
    l: nat,
    m: nat,
)
    requires
        forall|i: int, j: int|
            0 <= i < l && 0 <= j < m ==> #[trigger] f(i, j) == g(i, j),
    ensures
        square(f, l, m) == square(g, l, m),
{
    let (p, q) = (
        |i: int| sums::sum(|j: int| f(i, j), m),
        |i: int| sums::sum(|j: int| g(i, j), m),
    );
    assert forall|i: int| 0 <= i < l implies #[trigger] p(i) == q(i) by {
        sums::lemma_sum_same(|j: int| f(i, j), |j: int| g(i, j), m);
    }
    sums::lemma_sum_same(p, q, l);
}

/// What stands at each place of a product of matrices with bounds, and in its planes: the weights
/// `a` of the left operand and `b` of the right one, the products `lo` and `hi` of the ends, and
/// the product `z` itself.
pub struct Planes {
    pub a: spec_fn(int, int) -> real,
    pub b: spec_fn(int, int) -> real,
    pub lo: spec_fn(int, int) -> real,
    pub hi: spec_fn(int, int) -> real,
    pub z: spec_fn(int, int) -> real,
}

/// Matrices with bounds and weights: an `l` by `n` matrix `x` above `xl`, an `n` by `m` matrix `y`
/// between `yl` and `yu`, and the weights `w` of their product.
pub struct Bounded {
    pub w: spec_fn(int, int) -> real,
    pub x: spec_fn(int, int) -> real,
    pub y: spec_fn(int, int) -> real,
    pub xl: spec_fn(int, int) -> real,
    pub yl: spec_fn(int, int) -> real,
    pub yu: spec_fn(int, int) -> real,
    pub l: nat,
    pub m: nat,
    pub n: nat,
}

/// Whether the matrices lie in their bounds.
pub open spec fn in_bounds(t: Bounded) -> bool {
    &&& forall|i: int, k: int|
        0 <= i < t.l && 0 <= k < t.n ==> (t.xl)(i, k) <= #[trigger] (t.x)(i, k)
    &&& forall|k: int, j: int|
        0 <= k < t.n && 0 <= j < t.m ==> (t.yl)(k, j) <= #[trigger] (t.y)(k, j) <= (t.yu)(k, j)
}

/// Whether the planes are those of the matrices.
pub open spec fn are_planes(t: Bounded, s: Planes) -> bool {
    &&& forall|i: int, k: int|
        0 <= i < t.l && 0 <= k < t.n ==> #[trigger] (s.a)(i, k) == sums::sum(
            |j: int|
                slopes::positive((t.w)(i, j)) * (t.yl)(k, j) + slopes::negative((t.w)(i, j))
                    * (t.yu)(k, j),
            t.m,
        )
    &&& forall|k: int, j: int|
        0 <= k < t.n && 0 <= j < t.m ==> #[trigger] (s.b)(k, j) == sums::sum(
            |i: int| (t.w)(i, j) * (t.xl)(i, k),
            t.l,
        )
    &&& forall|i: int, j: int|
        0 <= i < t.l && 0 <= j < t.m ==> #[trigger] (s.lo)(i, j) == sums::sum(
            |k: int| (t.xl)(i, k) * (t.yl)(k, j),
            t.n,
        )
    &&& forall|i: int, j: int|
        0 <= i < t.l && 0 <= j < t.m ==> #[trigger] (s.hi)(i, j) == sums::sum(
            |k: int| (t.xl)(i, k) * (t.yu)(k, j),
            t.n,
        )
    &&& forall|i: int, j: int|
        0 <= i < t.l && 0 <= j < t.m ==> #[trigger] (s.z)(i, j) == sums::sum(
            |k: int| (t.x)(i, k) * (t.y)(k, j),
            t.n,
        )
}

/// The planes below a product of matrices, summed up, stay below the weighed product.
pub proof fn lemma_matrix_planes(t: Bounded, s: Planes)
    requires
        in_bounds(t),
        are_planes(t, s),
    ensures
        square(|i: int, k: int| (s.a)(i, k) * (t.x)(i, k), t.l, t.n) + square(
            |k: int, j: int| (s.b)(k, j) * (t.y)(k, j),
            t.n,
            t.m,
        ) + (square(
            |i: int, j: int| slopes::positive((t.w)(i, j)) * (-(s.lo)(i, j)),
            t.l,
            t.m,
        ) + square(
            |i: int, j: int| slopes::negative((t.w)(i, j)) * (-(s.hi)(i, j)),
            t.l,
            t.m,
        )) <= square(|i: int, j: int| (t.w)(i, j) * (s.z)(i, j), t.l, t.m),
{
    let (w, x, y, xl, yl, yu) = (t.w, t.x, t.y, t.xl, t.yl, t.yu);
    let (l, m, n) = (t.l, t.m, t.n);
    let p = |i: int, j: int| slopes::positive(w(i, j));
    let q = |i: int, j: int| slopes::negative(w(i, j));
    // each of the sums, over three indices in the order i, j, k
    let c1 = |i: int, k: int| (s.a)(i, k) * x(i, k);
    let f1 = |i: int, k: int, j: int|
        slopes::positive(w(i, j)) * yl(k, j) + slopes::negative(w(i, j)) * yu(k, j);
    let g1 = |i: int, k: int, j: int| x(i, k) * f1(i, k, j);
    assert forall|i: int, k: int| 0 <= i < l && 0 <= k < n implies #[trigger] c1(i, k) == x(i, k)
        * sums::sum(|j: int| f1(i, k, j), m) by {
        let u = |j: int|
            slopes::positive(w(i, j)) * yl(k, j) + slopes::negative(w(i, j)) * yu(k, j);
        sums::lemma_sum_same(u, |j: int| f1(i, k, j), m);
        assert((s.a)(i, k) == sums::sum(u, m));
        exact::lemma_units((s.a)(i, k), x(i, k));
    }
    lemma_weighed_cube(c1, x, f1, g1, l, n, m);
    lemma_cube_swap(g1, l, n, m);
    let h1 = |i: int, j: int, k: int| g1(i, k, j);

    let c2 = |k: int, j: int| (s.b)(k, j) * y(k, j);
    let f2 = |k: int, j: int, i: int| w(i, j) * xl(i, k);
    let g2 = |k: int, j: int, i: int| y(k, j) * f2(k, j, i);
    assert forall|k: int, j: int| 0 <= k < n && 0 <= j < m implies #[trigger] c2(k, j) == y(k, j)
        * sums::sum(|i: int| f2(k, j, i), l) by {
        let u = |i: int| w(i, j) * xl(i, k);
        sums::lemma_sum_same(u, |i: int| f2(k, j, i), l);
        assert((s.b)(k, j) == sums::sum(u, l));
        exact::lemma_units((s.b)(k, j), y(k, j));
    }
    lemma_weighed_cube(c2, y, f2, g2, n, m, l);
    lemma_cube_turn(g2, n, m, l);
    let t2 = |j: int, k: int, i: int| g2(k, j, i);
    lemma_cube_swap(t2, m, n, l);
    let s2 = |j: int, i: int, k: int| t2(j, k, i);
    lemma_cube_turn(s2, m, l, n);
    let h2 = |i: int, j: int, k: int| s2(j, i, k);

    let c3 = |i: int, j: int| slopes::positive(w(i, j)) * (-(s.lo)(i, j));
    let f3 = |i: int, j: int, k: int| xl(i, k) * yl(k, j);
    let np = |i: int, j: int| -p(i, j);
    let h3 = |i: int, j: int, k: int| np(i, j) * f3(i, j, k);
    assert forall|i: int, j: int| 0 <= i < l && 0 <= j < m implies #[trigger] c3(i, j) == np(i, j)
        * sums::sum(|k: int| f3(i, j, k), n) by {
        let u = |k: int| xl(i, k) * yl(k, j);
        sums::lemma_sum_same(u, |k: int| f3(i, j, k), n);
        assert((s.lo)(i, j) == sums::sum(u, n));
        exact::lemma_units(p(i, j), (s.lo)(i, j));
    }
    lemma_weighed_cube(c3, np, f3, h3, l, m, n);

    let c4 = |i: int, j: int| slopes::negative(w(i, j)) * (-(s.hi)(i, j));
    let f4 = |i: int, j: int, k: int| xl(i, k) * yu(k, j);
    let nq = |i: int, j: int| -q(i, j);
    let h4 = |i: int, j: int, k: int| nq(i, j) * f4(i, j, k);
    assert forall|i: int, j: int| 0 <= i < l && 0 <= j < m implies #[trigger] c4(i, j) == nq(i, j)
        * sums::sum(|k: int| f4(i, j, k), n) by {
        let u = |k: int| xl(i, k) * yu(k, j);
        sums::lemma_sum_same(u, |k: int| f4(i, j, k), n);
        assert((s.hi)(i, j) == sums::sum(u, n));
        exact::lemma_units(q(i, j), (s.hi)(i, j));
    }
    lemma_weighed_cube(c4, nq, f4, h4, l, m, n);

    let c5 = |i: int, j: int| w(i, j) * (s.z)(i, j);
    let f5 = |i: int, j: int, k: int| x(i, k) * y(k, j);
    let h5 = |i: int, j: int, k: int| w(i, j) * f5(i, j, k);
    assert forall|i: int, j: int| 0 <= i < l && 0 <= j < m implies #[trigger] c5(i, j) == w(i, j)
        * sums::sum(|k: int| f5(i, j, k), n) by {
        let u = |k: int| x(i, k) * y(k, j);
        sums::lemma_sum_same(u, |k: int| f5(i, j, k), n);
        assert((s.z)(i, j) == sums::sum(u, n));
    }
    lemma_weighed_cube(c5, w, f5, h5, l, m, n);

    let a = |i: int, j: int, k: int| h1(i, j, k) + h2(i, j, k);
    let b = |i: int, j: int, k: int| h3(i, j, k) + h4(i, j, k);
    let c = |i: int, j: int, k: int| a(i, j, k) + b(i, j, k);
    lemma_cube_plus(h1, h2, l, m, n);
    lemma_cube_plus(h3, h4, l, m, n);
    lemma_cube_plus(a, b, l, m, n);
    assert forall|i: int, j: int, k: int|
        0 <= i < l && 0 <= j < m && 0 <= k < n implies #[trigger] c(i, j, k) <= h5(i, j, k) by {
        let (ww, xx, yy, a1, b1, b2) = (w(i, j), x(i, k), y(k, j), xl(i, k), yl(k, j), yu(k, j));
        assert(a1 <= xx && b1 <= yy && yy <= b2);
        carry_products::lemma_planes(ww, xx, yy, a1, b1, b2);
        let (pp, qq) = (slopes::positive(ww), slopes::negative(ww));
        exact::lemma_units(xx, pp * b1 + qq * b2);
        exact::lemma_units(yy, ww * a1);
        exact::lemma_units(pp, a1 * b1);
        exact::lemma_units(qq, a1 * b2);
        exact::lemma_units(a1, b1);
        exact::lemma_units(a1, b2);
    }
    lemma_cube_le(c, h5, l, m, n);
    // the sums of the statement
    lemma_square_same(|i: int, k: int| (s.a)(i, k) * (t.x)(i, k), c1, l, n);
    lemma_square_same(|k: int, j: int| (s.b)(k, j) * (t.y)(k, j), c2, n, m);
    lemma_square_same(
        |i: int, j: int| slopes::positive((t.w)(i, j)) * (-(s.lo)(i, j)),
        c3,
        l,
        m,
    );
    lemma_square_same(
        |i: int, j: int| slopes::negative((t.w)(i, j)) * (-(s.hi)(i, j)),
        c4,
        l,
        m,
    );
    lemma_square_same(|i: int, j: int| (t.w)(i, j) * (s.z)(i, j), c5, l, m);
}

} // verus!
