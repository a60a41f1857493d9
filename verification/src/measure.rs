//! Whole-number lengths: the rounded-up square root and the inequalities that
//! make rounded-up Euclidean distance a metric.

use vstd::prelude::*;

verus! {

/// `r` is the least natural number whose square is at least `n`.
pub open spec fn is_root_up(n: nat, r: nat) -> bool {
    &&& r * r >= n
    &&& (r == 0 || (r - 1) * (r - 1) < n)
}

/// The square root of `n`, rounded up to a whole number.
pub open spec fn root_up(n: nat) -> nat {
    choose|r: nat| is_root_up(n, r)
}

/// Squaring is monotone on the natural numbers.
pub proof fn lemma_square_monotone(a: nat, b: nat)
    requires
        a <= b,
    ensures
        a * a <= b * b,
{
    assert(a * a <= b * b) by (nonlinear_arith)
        requires
            a <= b,
    ;
}

/// At most one number is the rounded-up root of `n`.
pub proof fn lemma_root_up_unique(n: nat, r: nat, s: nat)
    requires
        is_root_up(n, r),
        is_root_up(n, s),
    ensures
        r == s,
{
    if r < s {
        lemma_square_monotone(r, (s - 1) as nat);
    } else if s < r {
        lemma_square_monotone(s, (r - 1) as nat);
    }
}

/// Every number has a rounded-up root, found by counting up from zero.
proof fn lemma_root_up_search(n: nat, r: nat)
    requires
        r == 0 || (r - 1) * (r - 1) < n,
        r <= n,
    ensures
        exists|s: nat| is_root_up(n, s),
    decreases n - r,
{
    if r * r >= n {
        assert(is_root_up(n, r));
    } else {
        assert(r < n) by (nonlinear_arith)
            requires
                r * r < n,
                r <= n,
        ;
        lemma_root_up_search(n, r + 1);
    }
}

/// `root_up(n)` is the rounded-up root of `n`.
pub proof fn lemma_root_up_is_root(n: nat)
    ensures
        is_root_up(n, root_up(n)),
{
    lemma_root_up_search(n, 0);
}

/// A number that satisfies the defining property is `root_up(n)`.
pub proof fn lemma_root_up_from(n: nat, r: nat)
    requires
        is_root_up(n, r),
    ensures
        root_up(n) == r,
{
    lemma_root_up_is_root(n);
    lemma_root_up_unique(n, r, root_up(n));
}

/// `root_up(n)` is below every number whose square reaches `n`.
pub proof fn lemma_root_up_least(n: nat, r: nat)
    requires
        r * r >= n,
    ensures
        root_up(n) <= r,
{
    lemma_root_up_is_root(n);
    let s = root_up(n);
    if r < s {
        lemma_square_monotone(r, (s - 1) as nat);
    }
}

/// Squared length of the vector `(a1, a2, a3)`.
pub open spec fn norm2(a1: int, a2: int, a3: int) -> nat {
    (a1 * a1 + a2 * a2 + a3 * a3) as nat
}

/// Inner product of two vectors.
pub open spec fn dot(a1: int, a2: int, a3: int, b1: int, b2: int, b3: int) -> int {
    a1 * b1 + a2 * b2 + a3 * b3
}

/// `(x * x) * (y * y)` is the square of `x * y`.
proof fn lemma_square_of_product(x: int, y: int)
    ensures
        (x * x) * (y * y) == (x * y) * (x * y),
{
    assert((x * x) * (y * y) == (x * y) * (x * y)) by (nonlinear_arith);
}

/// The two ways of pairing four factors crosswise agree.
proof fn lemma_cross_products(x: int, y: int, u: int, v: int)
    ensures
        (x * v) * (y * u) == (x * u) * (y * v),
{
    assert((x * v) * (y * u) == (x * u) * (y * v)) by (nonlinear_arith);
}

/// The square of a difference, written out.
proof fn lemma_square_of_difference(s: int, t: int)
    ensures
        (s - t) * (s - t) == s * s + t * t - 2 * (s * t),
        (s - t) * (s - t) >= 0,
{
    assert((s - t) * (s - t) == s * s + t * t - 2 * (s * t)) by (nonlinear_arith);
    assert((s - t) * (s - t) >= 0) by (nonlinear_arith);
}

/// The product of two sums of three terms, written out.
proof fn lemma_product_of_sums(x1: int, x2: int, x3: int, y1: int, y2: int, y3: int)
    ensures
        (x1 + x2 + x3) * (y1 + y2 + y3) == x1 * y1 + x1 * y2 + x1 * y3 + x2 * y1 + x2 * y2 + x2
            * y3 + x3 * y1 + x3 * y2 + x3 * y3,
{
    assert((x1 + x2 + x3) * (y1 + y2 + y3) == x1 * y1 + x1 * y2 + x1 * y3 + x2 * y1 + x2 * y2
        + x2 * y3 + x3 * y1 + x3 * y2 + x3 * y3) by (nonlinear_arith);
}

/// Cauchy-Schwarz in three dimensions, from Lagrange's identity.
pub proof fn lemma_cauchy_schwarz(a1: int, a2: int, a3: int, b1: int, b2: int, b3: int)
    ensures
        dot(a1, a2, a3, b1, b2, b3) * dot(a1, a2, a3, b1, b2, b3) <= norm2(a1, a2, a3) * norm2(
            b1,
            b2,
            b3,
        ),
{
    let p11 = a1 * b1;
    let p12 = a1 * b2;
    let p13 = a1 * b3;
    let p21 = a2 * b1;
    let p22 = a2 * b2;
    let p23 = a2 * b3;
    let p31 = a3 * b1;
    let p32 = a3 * b2;
    let p33 = a3 * b3;
    let d = p11 + p22 + p33;
    let na = a1 * a1 + a2 * a2 + a3 * a3;
    let nb = b1 * b1 + b2 * b2 + b3 * b3;
    lemma_product_of_sums(a1 * a1, a2 * a2, a3 * a3, b1 * b1, b2 * b2, b3 * b3);
    lemma_square_of_product(a1, b1);
    lemma_square_of_product(a1, b2);
    lemma_square_of_product(a1, b3);
    lemma_square_of_product(a2, b1);
    lemma_square_of_product(a2, b2);
    lemma_square_of_product(a2, b3);
    lemma_square_of_product(a3, b1);
    lemma_square_of_product(a3, b2);
    lemma_square_of_product(a3, b3);
    assert(na * nb == p11 * p11 + p12 * p12 + p13 * p13 + p21 * p21 + p22 * p22 + p23 * p23 + p31
        * p31 + p32 * p32 + p33 * p33);
    lemma_product_of_sums(p11, p22, p33, p11, p22, p33);
    assert(p22 * p11 == p11 * p22 && p33 * p11 == p11 * p33 && p33 * p22 == p22 * p33)
        by (nonlinear_arith);
    assert(d * d == p11 * p11 + p22 * p22 + p33 * p33 + 2 * (p11 * p22) + 2 * (p11 * p33) + 2 * (
    p22 * p33));
    lemma_square_of_difference(p12, p21);
    lemma_square_of_difference(p13, p31);
    lemma_square_of_difference(p23, p32);
    lemma_cross_products(a1, a2, b1, b2);
    lemma_cross_products(a1, a3, b1, b3);
    lemma_cross_products(a2, a3, b2, b3);
    assert(p12 * p21 == p11 * p22);
    assert(p13 * p31 == p11 * p33);
    assert(p23 * p32 == p22 * p33);
    assert(na * nb - d * d == (p12 - p21) * (p12 - p21) + (p13 - p31) * (p13 - p31) + (p23 - p32)
        * (p23 - p32));
    assert(a1 * a1 >= 0 && a2 * a2 >= 0 && a3 * a3 >= 0) by (nonlinear_arith);
    assert(b1 * b1 >= 0 && b2 * b2 >= 0 && b3 * b3 >= 0) by (nonlinear_arith);
}

/// Minkowski's inequality on whole-number bounds: if `p` bounds the length of
/// `a` and `q` bounds the length of `b`, then `p + q` bounds the length of
/// `a + b`.
pub proof fn lemma_minkowski(
    a1: int,
    a2: int,
    a3: int,
    b1: int,
    b2: int,
    b3: int,
    p: nat,
    q: nat,
)
    requires
        p * p >= norm2(a1, a2, a3),
        q * q >= norm2(b1, b2, b3),
    ensures
        (p + q) * (p + q) >= norm2(a1 + b1, a2 + b2, a3 + b3),
{
    lemma_cauchy_schwarz(a1, a2, a3, b1, b2, b3);
    let d = dot(a1, a2, a3, b1, b2, b3);
    let na = norm2(a1, a2, a3) as int;
    let nb = norm2(b1, b2, b3) as int;
    assert(a1 * a1 >= 0 && a2 * a2 >= 0 && a3 * a3 >= 0) by (nonlinear_arith);
    assert(b1 * b1 >= 0 && b2 * b2 >= 0 && b3 * b3 >= 0) by (nonlinear_arith);
    let pq = p * q;
    assert(d * d <= pq * pq) by (nonlinear_arith)
        requires
            d * d <= na * nb,
            0 <= na <= p * p,
            0 <= nb <= q * q,
            pq == p * q,
    ;
    assert(d <= pq) by (nonlinear_arith)
        requires
            d * d <= pq * pq,
            pq >= 0,
    ;
    let s1 = a1 + b1;
    let s2 = a2 + b2;
    let s3 = a3 + b3;
    assert(s1 * s1 + s2 * s2 + s3 * s3 == na + 2 * d + nb) by (nonlinear_arith)
        requires
            s1 == a1 + b1,
            s2 == a2 + b2,
            s3 == a3 + b3,
            na == a1 * a1 + a2 * a2 + a3 * a3,
            nb == b1 * b1 + b2 * b2 + b3 * b3,
            d == a1 * b1 + a2 * b2 + a3 * b3,
    ;
    assert(s1 * s1 >= 0 && s2 * s2 >= 0 && s3 * s3 >= 0) by (nonlinear_arith);
    assert((p + q) * (p + q) == p * p + 2 * pq + q * q) by (nonlinear_arith)
        requires
            pq == p * q,
    ;
}

/// Scaling a vector by `s` scales its squared length by `s * s`.
pub proof fn lemma_scaled_norm(d1: int, d2: int, d3: int, s: nat)
    ensures
        norm2(s * d1, s * d2, s * d3) == norm2(d1, d2, d3) * s * s,
{
    assert((s * d1) * (s * d1) == (d1 * d1) * s * s) by (nonlinear_arith);
    assert((s * d2) * (s * d2) == (d2 * d2) * s * s) by (nonlinear_arith);
    assert((s * d3) * (s * d3) == (d3 * d3) * s * s) by (nonlinear_arith);
    assert(d1 * d1 >= 0 && d2 * d2 >= 0 && d3 * d3 >= 0) by (nonlinear_arith);
    assert((d1 * d1 + d2 * d2 + d3 * d3) * s * s == (d1 * d1) * s * s + (d2 * d2) * s * s + (d3
        * d3) * s * s) by (nonlinear_arith);
    assert((d1 * d1) * s * s >= 0 && (d2 * d2) * s * s >= 0 && (d3 * d3) * s * s >= 0)
        by (nonlinear_arith)
        requires
            d1 * d1 >= 0 && d2 * d2 >= 0 && d3 * d3 >= 0,
    ;
}

/// Rounded-up square root of `n`.
pub fn root_up_of(n: u128) -> (r: u64)
    requires
        n <= 0x2_0000_0000_0000_0000_0000_0000_0000,
    ensures
        r == root_up(n as nat),
        r <= 0x200_0000_0000_0000,
{
    let mut lo: u64 = 0;
    let mut hi: u64 = 0x200_0000_0000_0000;
    assert(0x200_0000_0000_0000u64 * 0x200_0000_0000_0000u64 >= n) by (nonlinear_arith)
        requires
            n <= 0x2_0000_0000_0000_0000_0000_0000_0000u128,
    ;
    while lo < hi
        invariant
            lo <= hi <= 0x200_0000_0000_0000,
            hi * hi >= n,
            lo == 0 || (lo - 1) * (lo - 1) < n,
        decreases hi - lo,
    {
        let mid: u64 = lo + (hi - lo) / 2;
        assert(mid * mid <= 0x4_0000_0000_0000_0000_0000_0000_0000u128) by (nonlinear_arith)
            requires
                mid <= 0x200_0000_0000_0000u64,
        ;
        let wide: u128 = mid as u128;
        if wide * wide >= n {
            hi = mid;
        } else {
            lo = mid + 1;
        }
    }
    proof {
        lemma_root_up_from(n as nat, lo as nat);
    }
    lo
}

} // verus!
