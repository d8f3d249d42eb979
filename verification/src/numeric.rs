//! Exact integer arithmetic shared by the geometry and routing code: integer
//! square roots and floor division, each with the mathematical function it
//! computes.

use vstd::prelude::*;

verus! {

/// `r` is the integer square root of `n`: the largest natural number whose
/// square does not exceed `n`.
pub open spec fn is_int_sqrt(n: int, r: int) -> bool {
    0 <= r && r * r <= n < (r + 1) * (r + 1)
}

/// The integer square root of `n`, rounded down. Meaningful for `n >= 0`.
pub open spec fn int_sqrt(n: int) -> int {
    choose|r: int| is_int_sqrt(n, r)
}

/// The absolute value of `x`.
pub open spec fn abs(x: int) -> int {
    if x < 0 {
        -x
    } else {
        x
    }
}

/// Squares grow with their argument.
pub proof fn lemma_square_monotone(a: int, b: int)
    requires
        0 <= a <= b,
    ensures
        a * a <= b * b,
{
    assert(a * a <= b * b) by (nonlinear_arith)
        requires
            0 <= a <= b,
    ;
}

/// Squares grow strictly with their argument.
pub proof fn lemma_square_strictly_monotone(a: int, b: int)
    requires
        0 <= a < b,
    ensures
        a * a < b * b,
{
    assert(a * a < b * b) by (nonlinear_arith)
        requires
            0 <= a < b,
    ;
}

/// A product is bounded by the product of the bounds of its factors.
pub proof fn lemma_mul_bounds(a: int, b: int, x: int, y: int)
    requires
        -x <= a <= x,
        -y <= b <= y,
    ensures
        -(x * y) <= a * b <= x * y,
{
    assert(-(x * y) <= a * b <= x * y) by (nonlinear_arith)
        requires
            -x <= a <= x,
            -y <= b <= y,
    ;
}

/// Every natural number has an integer square root.
pub proof fn lemma_int_sqrt_exists(n: int)
    requires
        n >= 0,
    ensures
        is_int_sqrt(n, int_sqrt(n)),
    decreases n,
{
    if n == 0 {
        assert(is_int_sqrt(0, 0));
    } else {
        lemma_int_sqrt_exists(n - 1);
        let r = int_sqrt(n - 1);
        assert((r + 2) * (r + 2) > (r + 1) * (r + 1)) by (nonlinear_arith)
            requires
                r >= 0,
        ;
        if n < (r + 1) * (r + 1) {
            assert(is_int_sqrt(n, r));
        } else {
            assert(is_int_sqrt(n, r + 1));
        }
    }
}

/// The integer square root is unique.
pub proof fn lemma_int_sqrt_unique(n: int, r1: int, r2: int)
    requires
        is_int_sqrt(n, r1),
        is_int_sqrt(n, r2),
    ensures
        r1 == r2,
{
    if r1 < r2 {
        lemma_square_monotone(r1 + 1, r2);
    }
    if r2 < r1 {
        lemma_square_monotone(r2 + 1, r1);
    }
}

/// Any `r` that satisfies the defining inequalities is the integer square root.
pub proof fn lemma_int_sqrt_is(n: int, r: int)
    requires
        is_int_sqrt(n, r),
    ensures
        int_sqrt(n) == r,
{
    lemma_int_sqrt_unique(n, r, int_sqrt(n));
}

/// The integer square root grows with its argument.
pub proof fn lemma_int_sqrt_monotone(a: int, b: int)
    requires
        0 <= a <= b,
    ensures
        int_sqrt(a) <= int_sqrt(b),
{
    lemma_int_sqrt_exists(a);
    lemma_int_sqrt_exists(b);
    let ra = int_sqrt(a);
    let rb = int_sqrt(b);
    if rb < ra {
        lemma_square_monotone(rb + 1, ra);
    }
}

/// The integer square root of a perfect square is its root.
pub proof fn lemma_int_sqrt_of_square(r: int)
    requires
        r >= 0,
    ensures
        int_sqrt(r * r) == r,
{
    lemma_square_strictly_monotone(r, r + 1);
    lemma_int_sqrt_is(r * r, r);
}

/// The integer square root is zero exactly for zero.
pub proof fn lemma_int_sqrt_zero(n: int)
    requires
        n >= 0,
    ensures
        int_sqrt(n) == 0 <==> n == 0,
{
    lemma_int_sqrt_exists(n);
    let r = int_sqrt(n);
    if r > 0 {
        lemma_square_monotone(1, r);
    } else {
        assert((r + 1) * (r + 1) == 1);
    }
}

/// Computes the integer square root of `n` by bisection.
pub fn isqrt(n: u128) -> (r: u64)
    ensures
        r == int_sqrt(n as int),
        is_int_sqrt(n as int, r as int),
{
    let mut lo: u128 = 0;
    let mut hi: u128 = 0x1_0000_0000_0000_0000;
    assert(0x1_0000_0000_0000_0000int * 0x1_0000_0000_0000_0000int
        == 0x1_0000_0000_0000_0000_0000_0000_0000_0000int) by (nonlinear_arith);
    while hi - lo > 1
        invariant
            lo < hi <= 0x1_0000_0000_0000_0000,
            lo * lo <= n < hi * hi,
        decreases hi - lo,
    {
        let mid: u128 = lo + (hi - lo) / 2;
        proof {
            lemma_square_monotone(mid as int, 0xffff_ffff_ffff_ffffint);
            assert(0xffff_ffff_ffff_ffffint * 0xffff_ffff_ffff_ffffint
                < 0x1_0000_0000_0000_0000_0000_0000_0000_0000int) by (nonlinear_arith);
        }
        if mid * mid <= n {
            lo = mid;
        } else {
            hi = mid;
        }
    }
    proof {
        assert(hi == lo + 1);
        lemma_int_sqrt_is(n as int, lo as int);
    }
    lo as u64
}

/// Divides `n` by a positive `d`, rounding toward negative infinity.
pub fn div_floor(n: i128, d: i128) -> (q: i128)
    requires
        d > 0,
        n > i128::MIN,
    ensures
        q == n / d,
        d * q <= n < d * q + d,
{
    if n >= 0 {
        let q: i128 = n / d;
        proof {
            vstd::arithmetic::div_mod::lemma_fundamental_div_mod(n as int, d as int);
            vstd::arithmetic::div_mod::lemma_mod_pos_bound(n as int, d as int);
        }
        q
    } else {
        let m: i128 = -n;
        let q0: i128 = m / d;
        let r0: i128 = m % d;
        proof {
            vstd::arithmetic::div_mod::lemma_fundamental_div_mod(m as int, d as int);
            vstd::arithmetic::div_mod::lemma_mod_pos_bound(m as int, d as int);
            assert(d * q0 <= m) by (nonlinear_arith)
                requires
                    m == d * q0 + r0,
                    r0 >= 0,
            ;
            assert(q0 <= m) by (nonlinear_arith)
                requires
                    d * q0 <= m,
                    d >= 1,
                    q0 >= 0,
            ;
        }
        let q: i128 = if r0 == 0 {
            -q0
        } else {
            -q0 - 1
        };
        proof {
            let nn = n as int;
            let dd = d as int;
            assert(dd * (q as int) <= nn < dd * (q as int) + dd) by (nonlinear_arith)
                requires
                    -nn == dd * q0 + r0,
                    0 <= r0 < dd,
                    q == if r0 == 0 {
                        -q0
                    } else {
                        -q0 - 1
                    },
            ;
            lemma_floor_div_is(nn, dd, q as int);
        }
        q
    }
}

/// Any `q` with `d * q <= n < d * q + d` is the floor of `n / d`.
pub proof fn lemma_floor_div_is(n: int, d: int, q: int)
    requires
        d > 0,
        d * q <= n < d * q + d,
    ensures
        q == n / d,
{
    assert(q * d == d * q) by (nonlinear_arith);
    vstd::arithmetic::div_mod::lemma_fundamental_div_mod_converse(n, d, q, n - d * q);
}

} // verus!
