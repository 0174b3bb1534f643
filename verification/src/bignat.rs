//! Arbitrary-size natural numbers, held as base 2^32 digits (least
//! significant first). The arithmetic on them is done by `num_bigint`'s
//! `BigUint`: each operation below converts its arguments to `BigUint`,
//! makes one call, and converts the result back.

use num_bigint::BigUint;
use num_traits::Zero;
use vstd::arithmetic::power::pow;
use vstd::prelude::*;

verus! {

/// The value of base 2^32 digits, least significant first.
pub open spec fn digits_value(s: Seq<u32>) -> nat
    decreases s.len(),
{
    if s.len() == 0 {
        0
    } else {
        s[0] as nat + 4294967296 * digits_value(s.skip(1))
    }
}

/// The value of bytes read little-endian.
pub open spec fn le_value(s: Seq<u8>) -> nat
    decreases s.len(),
{
    if s.len() == 0 {
        0
    } else {
        s[0] as nat + 256 * le_value(s.skip(1))
    }
}

/// The value of the first `n` characters of `s` read as decimal digits,
/// or `None` when one of them is not a decimal digit.
pub open spec fn decimal_prefix(s: Seq<char>, n: int) -> Option<nat>
    decreases n,
{
    if n <= 0 {
        Some(0nat)
    } else {
        match decimal_prefix(s, n - 1) {
            Some(v) => if '0' <= s[n - 1] <= '9' {
                Some(v * 10 + ((s[n - 1] as nat) - ('0' as nat)) as nat)
            } else {
                None
            },
            None => None,
        }
    }
}

/// A natural number of any size.
#[derive(Debug, Clone)]
pub struct BigNat {
    digits: Vec<u32>,
}

impl View for BigNat {
    type V = nat;

    closed spec fn view(&self) -> nat {
        digits_value(self.digits@)
    }
}

/// The values of a sequence of numbers.
pub open spec fn nats(s: Seq<BigNat>) -> Seq<nat> {
    Seq::new(s.len(), |i: int| s[i]@)
}

/// Whether every value of `s` is below `bound`.
pub open spec fn all_below(s: Seq<nat>, bound: nat) -> bool {
    forall|i: int| 0 <= i < s.len() ==> #[trigger] s[i] < bound
}

impl BigNat {
    /// The number 0.
    pub fn zero() -> (r: BigNat)
        ensures
            r@ == 0,
    {
        BigNat { digits: Vec::new() }
    }

    /// The number 1.
    pub fn one() -> (r: BigNat)
        ensures
            r@ == 1,
    {
        let mut digits: Vec<u32> = Vec::new();
        digits.push(1u32);
        proof {
            assert(digits@.skip(1) =~= Seq::<u32>::empty());
            assert(digits_value(digits@.skip(1)) == 0);
        }
        BigNat { digits }
    }

    /// The number `x`.
    pub fn from_u64(x: u64) -> (r: BigNat)
        ensures
            r@ == x,
    {
        let lo: u32 = (x % 4294967296) as u32;
        let hi: u32 = (x / 4294967296) as u32;
        let mut digits: Vec<u32> = Vec::new();
        digits.push(lo);
        digits.push(hi);
        proof {
            assert(digits@.skip(1).skip(1) =~= Seq::<u32>::empty());
            assert(digits_value(digits@.skip(1).skip(1)) == 0);
            assert(digits@.skip(1)[0] == hi);
            assert(digits_value(digits@.skip(1)) == hi);
        }
        BigNat { digits }
    }

    /// A second number with the same value.
    pub fn dup(&self) -> (r: BigNat)
        ensures
            r@ == self@,
    {
        let digits = self.digits.clone();
        proof {
            assert(digits@ =~= self.digits@);
        }
        BigNat { digits }
    }

    /// Whether the value is 0 (`num_traits::Zero::is_zero` on `BigUint`).
    pub fn is_zero(&self) -> (r: bool)
        ensures
            r == (self@ == 0),
    {
        big_is_zero(self)
    }

    /// Whether the two values are equal (`==` on `BigUint`).
    pub fn equals(&self, other: &BigNat) -> (r: bool)
        ensures
            r == (self@ == other@),
    {
        big_eq(self, other)
    }

    /// The base 2^32 digits, least significant first.
    pub fn digits(&self) -> (r: &Vec<u32>)
        ensures
            digits_value(r@) == self@,
    {
        &self.digits
    }

    /// The number whose little-endian bytes are `bytes`.
    pub fn from_bytes_le(bytes: &[u8]) -> (r: BigNat)
        ensures
            r@ == le_value(bytes@),
    {
        big_from_bytes_le(bytes)
    }
}

/// `BigUint`'s `+`: the sum of the two values.
#[verifier::external_body]
pub(crate) fn big_add(a: &BigNat, b: &BigNat) -> (r: BigNat)
    ensures
        r@ == a@ + b@,
{
    let x = BigUint::from_slice(&a.digits) + BigUint::from_slice(&b.digits);
    BigNat { digits: x.to_u32_digits() }
}

/// `BigUint`'s `-`: the difference, which it computes when `b <= a` (it
/// panics otherwise).
#[verifier::external_body]
pub(crate) fn big_sub(a: &BigNat, b: &BigNat) -> (r: BigNat)
    requires
        b@ <= a@,
    ensures
        r@ == a@ - b@,
{
    let x = BigUint::from_slice(&a.digits) - BigUint::from_slice(&b.digits);
    BigNat { digits: x.to_u32_digits() }
}

/// `BigUint`'s `*`: the product of the two values.
#[verifier::external_body]
pub(crate) fn big_mul(a: &BigNat, b: &BigNat) -> (r: BigNat)
    ensures
        r@ == a@ * b@,
{
    let x = BigUint::from_slice(&a.digits) * BigUint::from_slice(&b.digits);
    BigNat { digits: x.to_u32_digits() }
}

/// `BigUint`'s `/`: the quotient rounded down; it panics on a zero divisor.
#[verifier::external_body]
pub(crate) fn big_div(a: &BigNat, b: &BigNat) -> (r: BigNat)
    requires
        b@ > 0,
    ensures
        r@ == a@ / b@,
{
    let x = BigUint::from_slice(&a.digits) / BigUint::from_slice(&b.digits);
    BigNat { digits: x.to_u32_digits() }
}

/// `BigUint`'s `%`: the remainder; it panics on a zero divisor.
#[verifier::external_body]
pub(crate) fn big_rem(a: &BigNat, m: &BigNat) -> (r: BigNat)
    requires
        m@ > 0,
    ensures
        r@ == a@ % m@,
{
    let x = BigUint::from_slice(&a.digits) % BigUint::from_slice(&m.digits);
    BigNat { digits: x.to_u32_digits() }
}

/// `BigUint`'s `<`: whether the first value is smaller.
#[verifier::external_body]
pub(crate) fn big_lt(a: &BigNat, b: &BigNat) -> (r: bool)
    ensures
        r == (a@ < b@),
{
    BigUint::from_slice(&a.digits) < BigUint::from_slice(&b.digits)
}

/// `BigUint`'s `==`: whether the two values are equal.
#[verifier::external_body]
fn big_eq(a: &BigNat, b: &BigNat) -> (r: bool)
    ensures
        r == (a@ == b@),
{
    BigUint::from_slice(&a.digits) == BigUint::from_slice(&b.digits)
}

/// `BigUint`'s `is_zero` (of `num_traits::Zero`): whether the value is 0.
#[verifier::external_body]
fn big_is_zero(a: &BigNat) -> (r: bool)
    ensures
        r == (a@ == 0),
{
    BigUint::from_slice(&a.digits).is_zero()
}

/// `BigUint::modpow`: `a` to the power `e`, modulo `m`. It panics on a
/// zero modulus; this contract is stated for a modulus above 1 only.
#[verifier::external_body]
pub(crate) fn big_modpow(a: &BigNat, e: &BigNat, m: &BigNat) -> (r: BigNat)
    requires
        m@ > 1,
    ensures
        r@ == pow(a@ as int, e@) % (m@ as int),
{
    let x = BigUint::from_slice(&a.digits).modpow(
        &BigUint::from_slice(&e.digits),
        &BigUint::from_slice(&m.digits),
    );
    BigNat { digits: x.to_u32_digits() }
}

/// `BigUint::modinv`: the `x` in `[0, m)` with `a * x` congruent to 1
/// modulo `m`, and `None` exactly when there is no such `x`. It panics on
/// a zero modulus.
#[verifier::external_body]
pub(crate) fn big_modinv(a: &BigNat, m: &BigNat) -> (r: Option<BigNat>)
    requires
        m@ > 0,
    ensures
        r matches Some(x) ==> x@ < m@ && (a@ * x@) % m@ == 1nat % m@,
        r is None <==> !(exists|x: nat| x < m@ && #[trigger] ((a@ * x) % m@) == 1nat % m@),
{
    match BigUint::from_slice(&a.digits).modinv(&BigUint::from_slice(&m.digits)) {
        Some(x) => Some(BigNat { digits: x.to_u32_digits() }),
        None => None,
    }
}

/// `BigUint::from_bytes_le`: the number whose little-endian bytes are given.
#[verifier::external_body]
fn big_from_bytes_le(bytes: &[u8]) -> (r: BigNat)
    ensures
        r@ == le_value(bytes@),
{
    BigNat { digits: BigUint::from_bytes_le(bytes).to_u32_digits() }
}

/// `BigUint::parse_bytes` in radix 10, on a non-empty string of decimal
/// digits: it succeeds with the number they write. What it does on other
/// strings is not stated here.
#[verifier::external_body]
pub(crate) fn big_parse_decimal(s: &str) -> (r: Option<BigNat>)
    requires
        s@.len() > 0,
        decimal_prefix(s@, s@.len() as int) is Some,
    ensures
        r is Some,
        r.unwrap()@ == decimal_prefix(s@, s@.len() as int).unwrap(),
{
    match BigUint::parse_bytes(s.as_bytes(), 10) {
        Some(x) => Some(BigNat { digits: x.to_u32_digits() }),
        None => None,
    }
}

} // verus!
