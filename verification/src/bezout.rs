//! Bezout coefficients by the extended Euclidean algorithm.

use vstd::prelude::*;
use crate::arith::{abs, gcd, gcd_nat, lemma_trunc_div_exact, lemma_trunc_rem, trunc_div, trunc_rem};
use crate::bigint::{big_div, big_eq, big_mul, big_sub, BigInt};

verus! {

/// The run of the extended Euclidean algorithm from the remainders
/// `(old_r, r)` and the coefficients `(old_s, s)`: the last non-zero
/// remainder and the coefficient that goes with it.
pub open spec fn euclid(old_r: int, r: int, old_s: int, s: int) -> (int, int)
    decreases abs(r),
    via euclid_descends
{
    if r == 0 {
        (old_r, old_s)
    } else {
        let q = trunc_div(old_r, r);
        euclid(r, old_r - q * r, s, old_s - q * s)
    }
}

/// Each remainder of the algorithm is smaller in magnitude than the one
/// before it.
#[via_fn]
proof fn euclid_descends(old_r: int, r: int, old_s: int, s: int) {
    if r != 0 {
        lemma_trunc_rem(old_r, r);
        let q = trunc_div(old_r, r);
        assert(q * r == r * q) by (nonlinear_arith);
    }
}

/// The last non-zero remainder of Euclid's algorithm on `(a, b)`: their
/// greatest common divisor, up to sign.
pub open spec fn last_remainder(a: int, b: int) -> int {
    euclid(a, b, 1, 0).0
}

/// The pair of coefficients that the algorithm yields for `(a, b)`.
pub open spec fn bezout(a: int, b: int) -> (int, int) {
    let (g, s) = euclid(a, b, 1, 0);
    if b == 0 {
        (s, 0)
    } else {
        (s, trunc_div(g - s * a, b))
    }
}

/// One step of the algorithm leaves the outcome unchanged.
proof fn lemma_euclid_step(old_r: int, r: int, old_s: int, s: int)
    requires
        r != 0,
    ensures
        abs(old_r - trunc_div(old_r, r) * r) < abs(r),
        euclid(old_r, r, old_s, s) == euclid(
            r,
            old_r - trunc_div(old_r, r) * r,
            s,
            old_s - trunc_div(old_r, r) * s,
        ),
{
    lemma_trunc_rem(old_r, r);
    let q = trunc_div(old_r, r);
    assert(q * r == r * q) by (nonlinear_arith);
}

/// The last remainder has the magnitude of the greatest common divisor, and
/// is not negative where the two starting remainders are not.
pub proof fn lemma_euclid_gcd(old_r: int, r: int, old_s: int, s: int)
    ensures
        abs(euclid(old_r, r, old_s, s).0) == gcd(old_r, r),
        old_r >= 0 && r >= 0 ==> euclid(old_r, r, old_s, s).0 >= 0,
    decreases abs(r),
{
    if r != 0 {
        let q = trunc_div(old_r, r);
        lemma_euclid_step(old_r, r, old_s, s);
        lemma_trunc_rem(old_r, r);
        assert(q * r == r * q) by (nonlinear_arith);
        lemma_euclid_gcd(r, old_r - q * r, s, old_s - q * s);
        assert(gcd_nat(abs(old_r), abs(r)) == gcd_nat(abs(r), abs(old_r) % abs(r)));
    } else {
        assert(gcd_nat(abs(old_r), 0) == abs(old_r));
    }
}

/// The coefficients `(s, t)` of the extended Euclidean algorithm on `(a, b)`,
/// with `a * s + b * t` equal to the algorithm's last non-zero remainder:
/// the greatest common divisor of `a` and `b`, up to sign, and the divisor
/// itself where neither `a` nor `b` is negative.
pub fn bezout_coeffs(a: &BigInt, b: &BigInt) -> (r: (BigInt, BigInt))
    ensures
        (r.0@, r.1@) == bezout(a@, b@),
        a@ * r.0@ + b@ * r.1@ == last_remainder(a@, b@),
        abs(last_remainder(a@, b@)) == gcd(a@, b@),
        a@ >= 0 && b@ >= 0 ==> a@ * r.0@ + b@ * r.1@ == gcd(a@, b@),
{
    let zero = BigInt::from_i64(0);
    let mut s = BigInt::from_i64(0);
    let mut old_s = BigInt::from_i64(1);
    let mut r = b.copy();
    let mut old_r = a.copy();
    let ghost mut t: int = 1;
    let ghost mut old_t: int = 0;
    while !big_eq(&r, &zero)
        invariant
            zero@ == 0,
            euclid(old_r@, r@, old_s@, s@) == euclid(a@, b@, 1, 0),
            old_r@ == a@ * old_s@ + b@ * old_t,
            r@ == a@ * s@ + b@ * t,
        decreases abs(r@),
    {
        let quotient = big_div(&old_r, &r);
        proof {
            lemma_euclid_step(old_r@, r@, old_s@, s@);
            let q = quotient@;
            assert(old_r@ - q * r@ == a@ * (old_s@ - q * s@) + b@ * (old_t - q * t))
                by (nonlinear_arith)
                requires
                    old_r@ == a@ * old_s@ + b@ * old_t,
                    r@ == a@ * s@ + b@ * t,
            ;
            let next_t = old_t - q * t;
            old_t = t;
            t = next_t;
        }
        let next_r = big_sub(&old_r, &big_mul(&quotient, &r));
        old_r = r;
        r = next_r;
        let next_s = big_sub(&old_s, &big_mul(&quotient, &s));
        old_s = s;
        s = next_s;
    }
    proof {
        lemma_euclid_gcd(a@, b@, 1, 0);
    }
    if big_eq(b, &zero) {
        (old_s, zero)
    } else {
        let rest = big_sub(&old_r, &big_mul(&old_s, a));
        proof {
            assert(old_r@ - old_s@ * a@ == b@ * old_t) by (nonlinear_arith)
                requires
                    old_r@ == a@ * old_s@ + b@ * old_t,
            ;
            lemma_trunc_div_exact(b@, old_t);
        }
        let t_coeff = big_div(&rest, b);
        (old_s, t_coeff)
    }
}

/// Bezout's identity: for `a` and `b` on which the algorithm's last remainder
/// is not negative, the coefficients combine `a` and `b` to their greatest
/// common divisor.
pub proof fn lemma_bezout_identity(a: int, b: int)
    requires
        last_remainder(a, b) >= 0,
    ensures
        a * bezout(a, b).0 + b * bezout(a, b).1 == gcd(a, b),
{
    lemma_euclid_gcd(a, b, 1, 0);
    let t = lemma_euclid_combination(a, b, a, b, 1, 0, 0, 1);
    let (g, s) = euclid(a, b, 1, 0);
    if b != 0 {
        assert(g - s * a == b * t) by (nonlinear_arith)
            requires
                g == a * s + b * t,
        ;
        lemma_trunc_div_exact(b, t);
    }
}

/// On operands that are not negative, the last remainder is not negative
/// either, so Bezout's identity holds of them.
pub proof fn lemma_last_remainder_nonnegative(a: int, b: int)
    requires
        a >= 0,
        b >= 0,
    ensures
        last_remainder(a, b) >= 0,
        last_remainder(a, b) == gcd(a, b),
{
    lemma_euclid_gcd(a, b, 1, 0);
}

/// The last remainder is an integer combination of `a` and `b` in which the
/// coefficient of `a` is the one that the run yields; the result is the
/// coefficient of `b`.
proof fn lemma_euclid_combination(
    a: int,
    b: int,
    old_r: int,
    r: int,
    old_s: int,
    s: int,
    old_t: int,
    t: int,
) -> (k: int)
    requires
        old_r == a * old_s + b * old_t,
        r == a * s + b * t,
    ensures
        euclid(old_r, r, old_s, s).0 == a * euclid(old_r, r, old_s, s).1 + b * k,
    decreases abs(r),
{
    if r != 0 {
        let q = trunc_div(old_r, r);
        lemma_euclid_step(old_r, r, old_s, s);
        assert(old_r - q * r == a * (old_s - q * s) + b * (old_t - q * t)) by (nonlinear_arith)
            requires
                old_r == a * old_s + b * old_t,
                r == a * s + b * t,
        ;
        lemma_euclid_combination(a, b, r, old_r - q * r, s, old_s - q * s, t, old_t - q * t)
    } else {
        old_t
    }
}

} // verus!
