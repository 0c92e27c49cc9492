//! Arbitrary-precision integers held as a sign and base-2^32 digits. The
//! arithmetic is done by `num_bigint`; each call is a trusted wrapper whose
//! contract states the integer it returns.

use num_bigint::{BigInt, Sign};
use num_integer::Integer;
use num_traits::ToPrimitive;
use vstd::prelude::*;

verus! {

/// The base of one digit.
pub open spec fn digit_base() -> nat {
    0x1_0000_0000
}

/// The value of little-endian base-2^32 digits.
pub open spec fn digits_value(d: Seq<u32>) -> nat
    decreases d.len(),
{
    if d.len() == 0 {
        0
    } else {
        d[0] as nat + digit_base() * digits_value(d.skip(1))
    }
}

/// The floored remainder of `a` by a non-zero `m`: it has the sign of `m`
/// and `a - r` is a multiple of `m`.
pub open spec fn floor_mod(a: int, m: int) -> int {
    if m > 0 {
        a % m
    } else if a % m == 0 {
        0
    } else {
        a % m + m
    }
}

/// An integer as a sign and a magnitude of base-2^32 digits, least
/// significant first.
#[derive(Debug, Clone, PartialEq, Eq)]
pub struct BigNum {
    pub negative: bool,
    pub magnitude: Vec<u32>,
}

impl View for BigNum {
    type V = int;

    open spec fn view(&self) -> int {
        if self.negative {
            -(digits_value(self.magnitude@) as int)
        } else {
            digits_value(self.magnitude@) as int
        }
    }
}

impl BigNum {
    /// The representation is the one `num_bigint` gives out: no leading zero
    /// digit, and zero is not negative.
    pub open spec fn canonical(&self) -> bool {
        &&& self.magnitude@.len() == 0 ==> !self.negative
        &&& self.magnitude@.len() > 0 ==> self.magnitude@.last() != 0
    }

    /// Zero.
    pub fn zero() -> (r: BigNum)
        ensures
            r@ == 0,
            r.canonical(),
    {
        BigNum { negative: false, magnitude: Vec::new() }
    }

    /// One.
    pub fn one() -> (r: BigNum)
        ensures
            r@ == 1,
            r.canonical(),
    {
        let mut magnitude: Vec<u32> = Vec::new();
        magnitude.push(1);
        proof {
            reveal_with_fuel(digits_value, 2);
            assert(magnitude@.skip(1) =~= Seq::<u32>::empty());
        }
        BigNum { negative: false, magnitude }
    }

    /// A copy with the same sign and digits.
    pub fn copy(&self) -> (r: BigNum)
        ensures
            r.negative == self.negative,
            r.magnitude@ == self.magnitude@,
            r@ == self@,
    {
        let magnitude = self.magnitude.clone();
        assert(magnitude@ =~= self.magnitude@);
        BigNum { negative: self.negative, magnitude }
    }

    /// The integer `v`.
    pub fn from_u64(v: u64) -> (r: BigNum)
        ensures
            r@ == v,
            r.canonical(),
    {
        let lo = (v & 0xFFFF_FFFF) as u32;
        let hi = (v >> 32u64) as u32;
        assert(v == lo + 0x1_0000_0000 * hi && (v == 0 <==> (lo == 0 && hi == 0))) by (bit_vector)
            requires
                lo == (v & 0xFFFF_FFFF) as u32,
                hi == (v >> 32u64) as u32,
        ;
        let mut magnitude: Vec<u32> = Vec::new();
        if hi != 0 {
            magnitude.push(lo);
            magnitude.push(hi);
            proof {
                assert(magnitude@.skip(1) =~= seq![hi]);
                assert(magnitude@.skip(1).skip(1) =~= Seq::<u32>::empty());
                reveal_with_fuel(digits_value, 3);
            }
        } else if lo != 0 {
            magnitude.push(lo);
            proof {
                assert(magnitude@.skip(1) =~= Seq::<u32>::empty());
                reveal_with_fuel(digits_value, 2);
            }
        }
        BigNum { negative: false, magnitude }
    }

    /// The integer `v`.
    pub fn from_i64(v: i64) -> (r: BigNum)
        ensures
            r@ == v,
            r.canonical(),
    {
        if v >= 0 {
            BigNum::from_u64(v as u64)
        } else {
            let wide = -(v as i128);
            let m = BigNum::from_u64(wide as u64);
            BigNum { negative: true, magnitude: m.magnitude }
        }
    }

    /// The value as a `u64` when it is one (`ToPrimitive::to_u64`).
    #[verifier::external_body]
    pub(crate) fn to_u64(&self) -> (r: Option<u64>)
        ensures
            r == (if 0 <= self@ < 0x1_0000_0000_0000_0000 { Some(self@ as u64) } else { None }),
    {
        let sign = match self.negative { true => Sign::Minus, false => Sign::Plus };
        BigInt::from_slice(sign, &self.magnitude).to_u64()
    }

    /// The sum (`BigInt + BigInt`).
    #[verifier::external_body]
    pub(crate) fn plus(&self, other: &BigNum) -> (r: BigNum)
        ensures
            r@ == self@ + other@,
            r.canonical(),
    {
        let a = BigInt::from_slice(match self.negative { true => Sign::Minus, false => Sign::Plus }, &self.magnitude);
        let b = BigInt::from_slice(match other.negative { true => Sign::Minus, false => Sign::Plus }, &other.magnitude);
        let (sign, magnitude) = (a + b).to_u32_digits();
        BigNum { negative: match sign { Sign::Minus => true, Sign::NoSign => false, Sign::Plus => false }, magnitude }
    }

    /// The product (`BigInt * BigInt`).
    #[verifier::external_body]
    pub(crate) fn times(&self, other: &BigNum) -> (r: BigNum)
        ensures
            r@ == self@ * other@,
            r.canonical(),
    {
        let a = BigInt::from_slice(match self.negative { true => Sign::Minus, false => Sign::Plus }, &self.magnitude);
        let b = BigInt::from_slice(match other.negative { true => Sign::Minus, false => Sign::Plus }, &other.magnitude);
        let (sign, magnitude) = (a * b).to_u32_digits();
        BigNum { negative: match sign { Sign::Minus => true, Sign::NoSign => false, Sign::Plus => false }, magnitude }
    }

    /// The floored remainder by a non-zero modulus (`Integer::mod_floor`,
    /// which panics on a zero modulus).
    #[verifier::external_body]
    pub(crate) fn mod_floor(&self, modulus: &BigNum) -> (r: BigNum)
        requires
            modulus@ != 0,
        ensures
            r@ == floor_mod(self@, modulus@),
            r.canonical(),
    {
        let a = BigInt::from_slice(match self.negative { true => Sign::Minus, false => Sign::Plus }, &self.magnitude);
        let m = BigInt::from_slice(match modulus.negative { true => Sign::Minus, false => Sign::Plus }, &modulus.magnitude);
        let (sign, magnitude) = a.mod_floor(&m).to_u32_digits();
        BigNum { negative: match sign { Sign::Minus => true, Sign::NoSign => false, Sign::Plus => false }, magnitude }
    }

    /// Whether the two integers are equal (`BigInt == BigInt`).
    #[verifier::external_body]
    pub(crate) fn value_eq(&self, other: &BigNum) -> (r: bool)
        ensures
            r == (self@ == other@),
    {
        let a = BigInt::from_slice(match self.negative { true => Sign::Minus, false => Sign::Plus }, &self.magnitude);
        let b = BigInt::from_slice(match other.negative { true => Sign::Minus, false => Sign::Plus }, &other.magnitude);
        a == b
    }
}

} // verus!
