//! The integer arithmetic that the contracts of this crate speak of:
//! truncating division, the greatest common divisor, and the value of a
//! little-endian two's-complement byte string.

use vstd::prelude::*;
use vstd::arithmetic::div_mod::*;

verus! {

/// The magnitude of `x`.
pub open spec fn abs(x: int) -> nat {
    if x < 0 {
        (-x) as nat
    } else {
        x as nat
    }
}

/// Division that rounds toward zero. Meaningful for `b != 0`.
pub open spec fn trunc_div(a: int, b: int) -> int {
    if a >= 0 && b > 0 {
        a / b
    } else if a >= 0 {
        -(a / (-b))
    } else if b > 0 {
        -((-a) / b)
    } else {
        (-a) / (-b)
    }
}

/// The remainder that goes with `trunc_div`: its sign follows the dividend.
pub open spec fn trunc_rem(a: int, b: int) -> int {
    a - b * trunc_div(a, b)
}

/// Whether `a` is a multiple of `b`; only zero is a multiple of zero.
pub open spec fn is_multiple(a: int, b: int) -> bool {
    if b == 0 {
        a == 0
    } else {
        abs(a) % abs(b) == 0
    }
}

/// The greatest common divisor of two naturals, by Euclid's recursion.
pub open spec fn gcd_nat(a: nat, b: nat) -> nat
    decreases b,
{
    if b == 0 {
        a
    } else {
        gcd_nat(b, a % b)
    }
}

/// The greatest common divisor of two integers; never negative.
pub open spec fn gcd(a: int, b: int) -> nat {
    gcd_nat(abs(a), abs(b))
}

/// The integer that a little-endian two's-complement byte string denotes.
/// The empty string denotes zero.
pub open spec fn signed_le(bytes: Seq<u8>) -> int
    decreases bytes.len(),
{
    if bytes.len() == 0 {
        0
    } else if bytes.len() == 1 {
        if bytes[0] >= 128 {
            bytes[0] - 256
        } else {
            bytes[0] as int
        }
    } else {
        bytes[0] + 256 * signed_le(bytes.drop_first())
    }
}

/// The truncating remainder has the magnitude of the remainder of the
/// magnitudes and the sign of the dividend.
pub proof fn lemma_trunc_rem(a: int, b: int)
    requires
        b != 0,
    ensures
        abs(trunc_rem(a, b)) == abs(a) % abs(b),
        abs(trunc_rem(a, b)) < abs(b),
        a >= 0 ==> trunc_rem(a, b) >= 0,
        a <= 0 ==> trunc_rem(a, b) <= 0,
{
    let x = abs(a) as int;
    let y = abs(b) as int;
    let q = x / y;
    lemma_fundamental_div_mod(x, y);
    lemma_mod_bound(x, y);
    assert(b * (-q) == -(b * q)) by (nonlinear_arith);
    assert((-b) * q == -(b * q)) by (nonlinear_arith);
}

/// On a non-negative dividend and a positive divisor, truncating and flooring
/// division agree.
pub proof fn lemma_trunc_is_floor(a: int, b: int)
    requires
        a >= 0,
        b > 0,
    ensures
        trunc_div(a, b) == a / b,
        trunc_rem(a, b) == a % b,
{
    lemma_fundamental_div_mod(a, b);
}

/// Dividing an exact multiple of `b` by `b` gives the other factor back.
pub proof fn lemma_trunc_div_exact(b: int, k: int)
    requires
        b != 0,
    ensures
        trunc_div(b * k, b) == k,
        trunc_rem(b * k, b) == 0,
{
    let y = abs(b) as int;
    let m = abs(k) as int;
    assert(abs(b * k) == y * m) by (nonlinear_arith)
        requires
            y == abs(b),
            m == abs(k),
    ;
    lemma_div_multiples_vanish(m, y);
    assert(y * m == m * y) by (nonlinear_arith);
    assert((b * k < 0) == ((b < 0) != (k < 0)) || k == 0) by (nonlinear_arith)
        requires
            b != 0,
    ;
    assert(b * k - b * k == 0);
}

} // verus!
