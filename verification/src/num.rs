//! Integer division helpers shared by the geometry and curve modules.
//!
//! `rdiv` is division rounded to the nearest integer, halves rounding up
//! (towards positive infinity).  It is exactly `(2n + d) / (2d)` with
//! mathematical (Euclidean) division, which makes it translation
//! invariant: adding a multiple of the divisor to the numerator shifts
//! the result by the same multiple.  That invariance is what lets the
//! scaling operation promise an exact bounding size.

use vstd::arithmetic::div_mod::{
    lemma_div_is_ordered, lemma_div_nonincreasing, lemma_div_pos_is_pos,
    lemma_fundamental_div_mod, lemma_fundamental_div_mod_converse,
};
use vstd::arithmetic::mul::lemma_mul_inequality;
use vstd::prelude::*;

verus! {

/// Division of `n` by `d > 0` rounded to the nearest integer, halves up.
pub open spec fn rdiv(n: int, d: int) -> int
    recommends
        d > 0,
{
    (2 * n + d) / (2 * d)
}

/// Mathematical division `n / d` (floor for positive `d`), computed with
/// machine integers.
pub fn floor_div_i128(n: i128, d: i128) -> (q: i128)
    requires
        d > 0,
    ensures
        q == n as int / d as int,
{
    match n.checked_div_euclid(d) {
        Some(q) => q,
        None => {
            proof {
                let x = n as int;
                let dd = d as int;
                if x >= 0 {
                    lemma_div_pos_is_pos(x, dd);
                    lemma_div_nonincreasing(x, dd);
                } else {
                    lemma_fundamental_div_mod(x, dd);
                    let q = x / dd;
                    let r = x % dd;
                    assert(x <= q <= 0) by (nonlinear_arith)
                        requires
                            x < 0,
                            dd > 0,
                            x == dd * q + r,
                            0 <= r < dd,
                    ;
                }
                assert(false);
            }
            0
        },
    }
}

/// `rdiv` on machine integers.
pub fn rdiv_i128(n: i128, d: i128) -> (q: i128)
    requires
        0 < d <= 0x1_0000_0000_0000_0000_0000_0000,
        -0x1_0000_0000_0000_0000_0000_0000_0000_000 <= n
            <= 0x1_0000_0000_0000_0000_0000_0000_0000_000,
    ensures
        q == rdiv(n as int, d as int),
{
    floor_div_i128(2 * n + d, 2 * d)
}

/// The result of `rdiv` is within half a divisor of the exact quotient:
/// `|rdiv(n, d) * d - n| <= d / 2`, stated without division.
pub proof fn lemma_rdiv_nearest(n: int, d: int)
    requires
        d > 0,
    ensures
        2 * (rdiv(n, d) * d - n) <= d,
        2 * (n - rdiv(n, d) * d) < d,
{
    let q = rdiv(n, d);
    lemma_fundamental_div_mod(2 * n + d, 2 * d);
    let r = (2 * n + d) % (2 * d);
    assert(2 * n + d == 2 * d * q + r);
    assert(2 * d * q == 2 * (q * d)) by (nonlinear_arith);
}

/// Adding `k` divisors to the numerator adds `k` to the rounded quotient.
pub proof fn lemma_rdiv_shift(n: int, d: int, k: int)
    requires
        d > 0,
    ensures
        rdiv(n + k * d, d) == rdiv(n, d) + k,
{
    let q = rdiv(n, d);
    lemma_fundamental_div_mod(2 * n + d, 2 * d);
    let r = (2 * n + d) % (2 * d);
    assert(2 * (n + k * d) + d == (q + k) * (2 * d) + r) by (nonlinear_arith)
        requires
            2 * n + d == 2 * d * q + r,
    ;
    lemma_fundamental_div_mod_converse(2 * (n + k * d) + d, 2 * d, q + k, r);
}

/// `rdiv` is monotone in the numerator.
pub proof fn lemma_rdiv_ordered(a: int, b: int, d: int)
    requires
        d > 0,
        a <= b,
    ensures
        rdiv(a, d) <= rdiv(b, d),
{
    lemma_div_is_ordered(2 * a + d, 2 * b + d, 2 * d);
}

/// A numerator between two multiples of the divisor keeps the rounded
/// quotient between the corresponding integers.
pub proof fn lemma_rdiv_between(n: int, d: int, lo: int, hi: int)
    requires
        d > 0,
        lo * d <= n <= hi * d,
    ensures
        lo <= rdiv(n, d) <= hi,
{
    lemma_rdiv_ordered(lo * d, n, d);
    lemma_rdiv_ordered(n, hi * d, d);
    assert(rdiv(0, d) == 0) by {
        lemma_fundamental_div_mod_converse(d, 2 * d, 0, d);
    }
    lemma_rdiv_shift(0, d, lo);
    lemma_rdiv_shift(0, d, hi);
}

/// Bound on a product from bounds on its factors.
pub proof fn lemma_mul_bound(x: int, y: int, bx: int, by: int)
    by (nonlinear_arith)
    requires
        -bx <= x <= bx,
        -by <= y <= by,
        0 <= bx,
        0 <= by,
    ensures
        -(bx * by) <= x * y <= bx * by,
{
}

/// Multiplying both sides of an inequality by a positive factor.
pub proof fn lemma_mul_le_mono(a: int, b: int, c: int)
    requires
        a <= b,
        c > 0,
    ensures
        a * c <= b * c,
{
    lemma_mul_inequality(a, b, c);
}

} // verus!
