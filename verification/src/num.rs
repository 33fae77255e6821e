//! Exact integer arithmetic that the fixed-point geometry is built on:
//! an integer square root, wide multiplication, and division that
//! truncates toward zero (the rounding every scaled quantity uses).

use vstd::prelude::*;

verus! {

/// `r` is the integer square root of `n`: the largest integer whose
/// square does not exceed `n`.
pub open spec fn is_sqrt(n: nat, r: nat) -> bool {
    r * r <= n < (r + 1) * (r + 1)
}

/// The integer square root of `n`, as a specification-level value.
pub open spec fn sqrt_floor(n: nat) -> nat {
    choose|r: nat| is_sqrt(n, r)
}

/// No two distinct values satisfy `is_sqrt` for the same `n`.
pub proof fn lemma_sqrt_unique(n: nat, a: nat, b: nat)
    requires
        is_sqrt(n, a),
        is_sqrt(n, b),
    ensures
        a == b,
{
    if a < b {
        assert((a + 1) * (a + 1) <= b * b) by (nonlinear_arith)
            requires a + 1 <= b,
        ;
    }
    if b < a {
        assert((b + 1) * (b + 1) <= a * a) by (nonlinear_arith)
            requires b + 1 <= a,
        ;
    }
}

/// Any witness of `is_sqrt(n, r)` pins `sqrt_floor(n)` down to `r`.
pub proof fn lemma_sqrt_is(n: nat, r: nat)
    requires
        is_sqrt(n, r),
    ensures
        sqrt_floor(n) == r,
{
    assert(is_sqrt(n, sqrt_floor(n)));
    lemma_sqrt_unique(n, r, sqrt_floor(n));
}

/// Integer square root by bisection.
pub fn isqrt(n: u128) -> (r: u128)
    ensures
        is_sqrt(n as nat, r as nat),
        r == sqrt_floor(n as nat),
{
    let mut lo: u128 = 0;
    let mut hi: u128 = 0x1_0000_0000_0000_0000;
    assert(hi * hi > n) by (nonlinear_arith)
        requires hi == 0x1_0000_0000_0000_0000u128 && n < hi * hi,
    ;
    while lo + 1 < hi
        invariant
            lo < hi,
            hi <= 0x1_0000_0000_0000_0000,
            lo * lo <= n,
            n < hi * hi,
        decreases hi - lo,
    {
        let mid: u128 = lo + (hi - lo) / 2;
        assert(mid * mid <= u128::MAX) by (nonlinear_arith)
            requires mid < 0x1_0000_0000_0000_0000u128,
        ;
        if mid * mid <= n {
            lo = mid;
        } else {
            hi = mid;
        }
    }
    proof {
        lemma_sqrt_is(n as nat, lo as nat);
    }
    lo
}

/// Division of `n` by a positive `d`, truncated toward zero; this is the
/// quotient Rust's `/` computes, stated over Euclidean division on the
/// magnitudes.
pub open spec fn tdiv(n: int, d: int) -> int
    recommends d > 0,
{
    if n >= 0 {
        n / d
    } else {
        -((-n) / d)
    }
}

/// Widening product of two machine integers; never overflows.
pub fn mul_wide(a: i64, b: i64) -> (r: i128)
    ensures
        r == a * b,
{
    proof {
        assert(-(0x8000_0000_0000_0000 * 0x8000_0000_0000_0000) <= a as int * b as int
            <= 0x8000_0000_0000_0000 * 0x8000_0000_0000_0000) by (nonlinear_arith)
            requires
                -0x8000_0000_0000_0000 <= a as int <= 0x7fff_ffff_ffff_ffff,
                -0x8000_0000_0000_0000 <= b as int <= 0x7fff_ffff_ffff_ffff,
        ;
    }
    (a as i128) * (b as i128)
}

/// Truncating division of a wide value by a positive divisor, computed on
/// magnitudes so that the rounding direction is explicit.
pub fn div_trunc(n: i128, d: i128) -> (q: i128)
    requires
        d > 0,
        n > i128::MIN,
    ensures
        q == tdiv(n as int, d as int),
        vstd::math::abs(q as int) <= vstd::math::abs(n as int),
{
    if n >= 0 {
        let q: u128 = (n as u128) / (d as u128);
        proof {
            vstd::arithmetic::div_mod::lemma_div_nonincreasing(n as int, d as int);
            vstd::arithmetic::div_mod::lemma_div_pos_is_pos(n as int, d as int);
        }
        q as i128
    } else {
        let m: u128 = ((-n) as i128) as u128;
        let q: u128 = m / (d as u128);
        proof {
            vstd::arithmetic::div_mod::lemma_div_nonincreasing(m as int, d as int);
            vstd::arithmetic::div_mod::lemma_div_pos_is_pos(m as int, d as int);
        }
        -(q as i128)
    }
}

/// Widening product of two wide values whose magnitudes are known to
/// stay in machine range.
pub fn mul_wide128(a: i128, b: i128) -> (r: i128)
    requires
        vstd::math::abs(a as int) * vstd::math::abs(b as int) < 0x8000_0000_0000_0000_0000_0000_0000_0000,
    ensures
        r == a * b,
{
    proof {
        assert(-(vstd::math::abs(a as int) * vstd::math::abs(b as int)) <= a as int * b as int
            <= vstd::math::abs(a as int) * vstd::math::abs(b as int)) by (nonlinear_arith);
    }
    a * b
}

/// A magnitude bound on each factor bounds the product.
pub proof fn lemma_mul_abs(a: int, b: int, ba: int, bb: int)
    requires
        vstd::math::abs(a) <= ba,
        vstd::math::abs(b) <= bb,
    ensures
        vstd::math::abs(a * b) <= ba * bb,
        vstd::math::abs(a) * vstd::math::abs(b) <= ba * bb,
{
    assert(vstd::math::abs(a * b) <= ba * bb && vstd::math::abs(a) * vstd::math::abs(b) <= ba
        * bb) by (nonlinear_arith)
        requires
            vstd::math::abs(a) <= ba,
            vstd::math::abs(b) <= bb,
    ;
}

/// A bound on the radicand bounds the square root.
pub proof fn lemma_sqrt_le(n: nat, r: nat, b: nat)
    requires
        is_sqrt(n, r),
        n <= b * b,
    ensures
        r <= b,
{
    assert(r <= b) by (nonlinear_arith)
        requires
            r * r <= n,
            n <= b * b,
    ;
}

/// Truncating division by a divisor at least `db` of a numerator no
/// larger than `nb` in magnitude is bounded by `nb / db`.
pub proof fn lemma_tdiv_frac_bound(n: int, d: int, nb: int, db: int)
    requires
        d >= db,
        db > 0,
        vstd::math::abs(n) <= nb,
    ensures
        vstd::math::abs(tdiv(n, d)) <= nb / db,
{
    let m = vstd::math::abs(n) as int;
    vstd::arithmetic::div_mod::lemma_div_pos_is_pos(m, d);
    if d > db {
        vstd::arithmetic::div_mod::lemma_div_is_ordered_by_denominator(m, db, d);
    }
    vstd::arithmetic::div_mod::lemma_div_is_ordered(m, nb, db);
    vstd::arithmetic::div_mod::lemma_div_pos_is_pos(nb, db);
}

/// Truncating division keeps the numerator's sign (for a positive
/// divisor).
pub proof fn lemma_tdiv_sign(n: int, d: int)
    requires
        d > 0,
    ensures
        n >= 0 ==> tdiv(n, d) >= 0,
        n < 0 ==> tdiv(n, d) <= 0,
{
    if n >= 0 {
        vstd::arithmetic::div_mod::lemma_div_pos_is_pos(n, d);
    } else {
        vstd::arithmetic::div_mod::lemma_div_pos_is_pos(-n, d);
    }
}

/// Truncation toward zero is symmetric: negating the numerator
/// negates the quotient.
pub proof fn lemma_tdiv_neg(n: int, d: int)
    requires
        d > 0,
    ensures
        tdiv(-n, d) == -tdiv(n, d),
{
}

/// `tdiv` never grows a magnitude: `|n / d| <= |n|` for positive `d`.
pub proof fn lemma_tdiv_bound(n: int, d: int)
    requires
        d > 0,
    ensures
        vstd::math::abs(tdiv(n, d)) <= vstd::math::abs(n),
{
    if n >= 0 {
        vstd::arithmetic::div_mod::lemma_div_nonincreasing(n, d);
        vstd::arithmetic::div_mod::lemma_div_pos_is_pos(n, d);
    } else {
        vstd::arithmetic::div_mod::lemma_div_nonincreasing(-n, d);
        vstd::arithmetic::div_mod::lemma_div_pos_is_pos(-n, d);
    }
}

} // verus!
