//! An arbitrary-precision signed integer, held as bytes, whose arithmetic is
//! carried out by the `num` crate.
//!
//! Each operation here is a call into `num` whose contract is taken on
//! trust. It rebuilds its operands with `num::BigInt::from_signed_bytes_le`
//! and keeps what `num::BigInt::to_signed_bytes_le` makes of the result, so
//! every contract also rests on those two reading and writing the two's
//! complement form that `signed_le` spells out.

use vstd::prelude::*;
use crate::arith::{abs, gcd, is_multiple, signed_le, trunc_div, trunc_rem};

verus! {

/// A signed integer of any size, held as its two's-complement bytes, least
/// significant first. Every byte string is a valid value; the empty one is
/// zero.
#[derive(Debug, Clone)]
pub struct BigInt {
    bytes: Vec<u8>,
}

impl View for BigInt {
    type V = int;

    open spec fn view(&self) -> int {
        signed_le(self.bytes_view())
    }
}

impl PartialEq for BigInt {
    /// Whether the two are the same integer, whatever bytes hold them.
    fn eq(&self, other: &BigInt) -> (r: bool) {
        big_eq(self, other)
    }
}

impl vstd::std_specs::cmp::PartialEqSpecImpl for BigInt {
    open spec fn obeys_eq_spec() -> bool {
        true
    }

    open spec fn eq_spec(&self, other: &BigInt) -> bool {
        self@ == other@
    }
}

/// The values of a sequence of integers, in order.
pub open spec fn values(v: Seq<BigInt>) -> Seq<int> {
    v.map_values(|b: BigInt| b@)
}

impl BigInt {
    /// The bytes that this integer is held as.
    pub closed spec fn bytes_view(&self) -> Seq<u8> {
        self.bytes@
    }

    /// The integer that `bytes` denote in two's complement, least significant
    /// byte first.
    pub fn from_signed_bytes_le(bytes: Vec<u8>) -> (r: BigInt)
        ensures
            r.bytes_view() == bytes@,
            r@ == signed_le(bytes@),
    {
        BigInt { bytes }
    }

    /// The integer of the value `v`.
    pub fn from_i64(v: i64) -> (r: BigInt)
        ensures
            r@ == v,
    {
        BigInt { bytes: signed_bytes_of(v) }
    }

    /// A second integer with the same value.
    pub fn copy(&self) -> (r: BigInt)
        ensures
            r@ == self@,
            r.bytes_view() == self.bytes_view(),
    {
        BigInt { bytes: self.bytes.clone() }
    }

    /// The bytes of this integer in two's complement, least significant first.
    pub fn as_signed_bytes_le(&self) -> (r: &[u8])
        ensures
            r@ == self.bytes_view(),
            signed_le(r@) == self@,
    {
        self.bytes.as_slice()
    }
}

/// What `num`'s decimal parser makes of a text: the integer it reads, or
/// `None` where it rejects the text.
pub uninterp spec fn decimal_value(text: Seq<char>) -> Option<int>;

/// The bytes of `v` in two's complement, least significant first.
fn signed_bytes_of(v: i64) -> (r: Vec<u8>)
    ensures
        r@.len() >= 1,
        signed_le(r@) == v,
    decreases abs(v as int),
{
    if -128 <= v && v <= 127 {
        let top: u8 = if v >= 0 {
            v as u8
        } else {
            (v + 256) as u8
        };
        let r = vec![top];
        assert(r@.len() == 1 && r@[0] == top);
        r
    } else {
        let (high, low): (i64, u8) = if v >= 0 {
            (v / 256, (v % 256) as u8)
        } else {
            let m: i64 = -(v + 1);
            (-(m / 256) - 1, (255 - m % 256) as u8)
        };
        assert(v == 256 * high + low);
        let mut r = signed_bytes_of(high);
        let ghost rest = r@;
        r.insert(0, low);
        assert(r@.drop_first() =~= rest);
        r
    }
}

/// `num::BigInt`'s `+`: the sum.
#[verifier::external_body]
pub(crate) fn big_add(a: &BigInt, b: &BigInt) -> (r: BigInt)
    ensures
        r@ == a@ + b@,
{
    let x = num::BigInt::from_signed_bytes_le(&a.bytes);
    let y = num::BigInt::from_signed_bytes_le(&b.bytes);
    BigInt { bytes: (x + y).to_signed_bytes_le() }
}

/// `num::BigInt`'s `-`: the difference.
#[verifier::external_body]
pub(crate) fn big_sub(a: &BigInt, b: &BigInt) -> (r: BigInt)
    ensures
        r@ == a@ - b@,
{
    let x = num::BigInt::from_signed_bytes_le(&a.bytes);
    let y = num::BigInt::from_signed_bytes_le(&b.bytes);
    BigInt { bytes: (x - y).to_signed_bytes_le() }
}

/// `num::BigInt`'s `*`: the product.
#[verifier::external_body]
pub(crate) fn big_mul(a: &BigInt, b: &BigInt) -> (r: BigInt)
    ensures
        r@ == a@ * b@,
{
    let x = num::BigInt::from_signed_bytes_le(&a.bytes);
    let y = num::BigInt::from_signed_bytes_le(&b.bytes);
    BigInt { bytes: (x * y).to_signed_bytes_le() }
}

/// `num::BigInt`'s `/`: the quotient rounded toward zero. It panics on a
/// zero divisor, which the precondition leaves out.
#[verifier::external_body]
pub(crate) fn big_div(a: &BigInt, b: &BigInt) -> (r: BigInt)
    requires
        b@ != 0,
    ensures
        r@ == trunc_div(a@, b@),
{
    let x = num::BigInt::from_signed_bytes_le(&a.bytes);
    let y = num::BigInt::from_signed_bytes_le(&b.bytes);
    BigInt { bytes: (x / y).to_signed_bytes_le() }
}

/// `num::BigInt`'s `%`: the remainder of the division rounded toward zero,
/// with the sign of the dividend. It panics on a zero divisor, which the
/// precondition leaves out.
#[verifier::external_body]
pub(crate) fn big_rem(a: &BigInt, b: &BigInt) -> (r: BigInt)
    requires
        b@ != 0,
    ensures
        r@ == trunc_rem(a@, b@),
{
    let x = num::BigInt::from_signed_bytes_le(&a.bytes);
    let y = num::BigInt::from_signed_bytes_le(&b.bytes);
    BigInt { bytes: (x % y).to_signed_bytes_le() }
}

/// `num::Signed::abs` on a `num::BigInt`: the magnitude.
#[verifier::external_body]
pub(crate) fn big_abs(a: &BigInt) -> (r: BigInt)
    ensures
        r@ == abs(a@),
{
    let x = num::BigInt::from_signed_bytes_le(&a.bytes);
    BigInt { bytes: num::Signed::abs(&x).to_signed_bytes_le() }
}

/// `num::Integer::gcd` on two `num::BigInt`s: the greatest common divisor of
/// the magnitudes, never negative.
#[verifier::external_body]
pub(crate) fn big_gcd(a: &BigInt, b: &BigInt) -> (r: BigInt)
    ensures
        r@ == gcd(a@, b@),
{
    let x = num::BigInt::from_signed_bytes_le(&a.bytes);
    let y = num::BigInt::from_signed_bytes_le(&b.bytes);
    BigInt { bytes: num::Integer::gcd(&x, &y).to_signed_bytes_le() }
}

/// `num::Integer::is_multiple_of` on two `num::BigInt`s: whether the
/// magnitude of `b` divides that of `a`, where only zero is a multiple of
/// zero.
#[verifier::external_body]
pub(crate) fn big_is_multiple_of(a: &BigInt, b: &BigInt) -> (r: bool)
    ensures
        r == is_multiple(a@, b@),
{
    let x = num::BigInt::from_signed_bytes_le(&a.bytes);
    let y = num::BigInt::from_signed_bytes_le(&b.bytes);
    num::Integer::is_multiple_of(&x, &y)
}

/// `num::BigInt`'s `==`: whether the two values are the same integer.
#[verifier::external_body]
pub(crate) fn big_eq(a: &BigInt, b: &BigInt) -> (r: bool)
    ensures
        r == (a@ == b@),
{
    let x = num::BigInt::from_signed_bytes_le(&a.bytes);
    let y = num::BigInt::from_signed_bytes_le(&b.bytes);
    x == y
}

/// `num::BigInt`'s `<`: whether the first integer is the smaller one.
#[verifier::external_body]
pub(crate) fn big_lt(a: &BigInt, b: &BigInt) -> (r: bool)
    ensures
        r == (a@ < b@),
{
    let x = num::BigInt::from_signed_bytes_le(&a.bytes);
    let y = num::BigInt::from_signed_bytes_le(&b.bytes);
    x < y
}

/// `num::BigInt`'s `FromStr`: the integer that a decimal text denotes, where
/// the parser accepts the text.
#[verifier::external_body]
pub(crate) fn big_parse(text: &str) -> (r: Option<BigInt>)
    ensures
        r matches Some(v) ==> decimal_value(text@) == Some(v@),
        r is None ==> decimal_value(text@) is None,
{
    match text.parse::<num::BigInt>() {
        Ok(x) => Some(BigInt { bytes: x.to_signed_bytes_le() }),
        Err(_) => None,
    }
}

} // verus!
