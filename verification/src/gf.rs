//! Arithmetic in the prime field of the BN254 curve's scalars: numbers
//! modulo `modulus()`. Every operation goes through `num_bigint`.

use crate::bignat::{
    big_add, big_div, big_lt, big_modinv, big_modpow, big_mul, big_parse_decimal, big_rem,
    big_sub, decimal_prefix, BigNat,
};
use vstd::arithmetic::div_mod::*;
use vstd::arithmetic::mul::*;
use vstd::arithmetic::power;
use vstd::prelude::*;

verus! {

/// The field's prime modulus.
pub open spec fn modulus() -> nat {
    21888242871839275222246405745257275088548364400416034343698204186575808495617nat
}

/// What `sub` returns: `a - b`, with the modulus added first when `a < b`.
pub open spec fn sub_spec(a: nat, b: nat) -> nat {
    if a < b {
        (a + modulus() - b) as nat
    } else {
        (a - b) as nat
    }
}

/// Whether `x` is the inverse of `a` modulo the field's modulus.
pub open spec fn is_inverse(a: nat, x: nat) -> bool {
    x < modulus() && (a * x) % modulus() == 1
}

/// Whether `a` has an inverse modulo the field's modulus.
pub open spec fn has_inverse(a: nat) -> bool {
    exists|x: nat| #[trigger] is_inverse(a, x)
}

/// The inverse of `a` (meaningful when `has_inverse(a)`).
pub open spec fn inv_spec(a: nat) -> nat {
    choose|x: nat| #[trigger] is_inverse(a, x)
}

/// What `w` returns: 5 to the power `(modulus() - 1) / size`, reduced.
pub open spec fn w_spec(size: nat) -> nat {
    (power::pow(5, ((modulus() - 1) as nat / size) as nat) % (modulus() as int)) as nat
}

/// An inverse modulo the field's modulus is unique.
pub proof fn lemma_inverse_unique(a: nat, x: nat, y: nat)
    requires
        is_inverse(a, x),
        is_inverse(a, y),
    ensures
        x == y,
{
    let m = modulus() as int;
    lemma_mul_is_associative(x as int, a as int, y as int);
    lemma_mul_mod_noop_right(x as int, (a * y) as int, m);
    lemma_mul_mod_noop_left((x * a) as int, y as int, m);
    lemma_mul_is_commutative(x as int, a as int);
    lemma_small_mod(x, modulus());
    lemma_small_mod(y, modulus());
}

/// The inverse that `inv_spec` names is one, where there is one.
pub proof fn lemma_inv_spec(a: nat)
    requires
        has_inverse(a),
    ensures
        is_inverse(a, inv_spec(a)),
{
}

/// The field's modulus.
pub fn q() -> (r: BigNat)
    ensures
        r@ == modulus(),
{
    let s = "21888242871839275222246405745257275088548364400416034343698204186575808495617";
    proof {
        reveal_strlit("21888242871839275222246405745257275088548364400416034343698204186575808495617");
        reveal_with_fuel(decimal_prefix, 12);
            assert(decimal_prefix(s@, 11) == Some(21888242871nat));
            assert(decimal_prefix(s@, 22) == Some(2188824287183927522224nat));
            assert(decimal_prefix(s@, 33) == Some(218882428718392752222464057452572nat));
            assert(decimal_prefix(s@, 44) == Some(21888242871839275222246405745257275088548364nat));
            assert(decimal_prefix(s@, 55) == Some(2188824287183927522224640574525727508854836440041603434nat));
            assert(decimal_prefix(s@, 66) == Some(218882428718392752222464057452572750885483644004160343436982041865nat));
            assert(decimal_prefix(s@, 77) == Some(21888242871839275222246405745257275088548364400416034343698204186575808495617nat));
    }
    big_parse_decimal(s).unwrap()
}

/// A root of unity of order `size` when `size` is a power of two:
/// 5 to the power `(modulus() - 1) / size`, modulo the field's modulus.
pub fn w(size: usize) -> (r: BigNat)
    requires
        size > 0,
    ensures
        r@ == w_spec(size as nat),
{
    let e = big_div(&big_sub(&q(), &BigNat::one()), &BigNat::from_u64(size as u64));
    self::pow(&BigNat::from_u64(5), &e)
}

/// The sum modulo the field's modulus.
pub fn add(a: &BigNat, b: &BigNat) -> (r: BigNat)
    ensures
        r@ == (a@ + b@) % modulus(),
{
    big_rem(&big_add(a, b), &q())
}

/// `a - b`, with the modulus added first when `a < b`; the modulus is
/// added only once, so `b` may exceed `a` by at most the modulus.
pub fn sub(a: &BigNat, b: &BigNat) -> (r: BigNat)
    requires
        b@ <= a@ + modulus(),
    ensures
        r@ == sub_spec(a@, b@),
{
    if big_lt(a, b) {
        big_sub(&big_add(a, &q()), b)
    } else {
        big_sub(a, b)
    }
}

/// The modulus minus `a`, the negation of a reduced nonzero value.
pub fn opo(a: &BigNat) -> (r: BigNat)
    requires
        a@ <= modulus(),
    ensures
        r@ == modulus() - a@,
{
    big_sub(&q(), a)
}

/// The product modulo the field's modulus.
pub fn mul(a: &BigNat, b: &BigNat) -> (r: BigNat)
    ensures
        r@ == (a@ * b@) % modulus(),
{
    big_rem(&big_mul(a, b), &q())
}

/// The inverse modulo the field's modulus.
pub fn inv(a: &BigNat) -> (r: BigNat)
    requires
        has_inverse(a@),
    ensures
        is_inverse(a@, r@),
        r@ == inv_spec(a@),
{
    let m = q();
    let res = big_modinv(a, &m);
    proof {
        let x = inv_spec(a@);
        lemma_small_mod(1nat, modulus());
        assert(x < m@ && (a@ * x) % m@ == 1nat % m@);
    }
    let r = res.unwrap();
    proof {
        lemma_small_mod(1nat, modulus());
        lemma_inverse_unique(a@, r@, inv_spec(a@));
    }
    r
}

/// `a` divided by `b`: `a` times the inverse of `b`, modulo the field's modulus.
pub fn div(a: &BigNat, b: &BigNat) -> (r: BigNat)
    requires
        has_inverse(b@),
    ensures
        r@ == (a@ * inv_spec(b@)) % modulus(),
{
    self::mul(a, &self::inv(b))
}

/// `a` to the power `b`, modulo the field's modulus.
pub fn pow(a: &BigNat, b: &BigNat) -> (r: BigNat)
    ensures
        r@ == power::pow(a@ as int, b@) % (modulus() as int),
{
    big_modpow(a, b, &q())
}

/// Subtraction undoes addition: for reduced `a` and `b`,
/// `sub(add(a, b), b) == a`.
pub proof fn lemma_sub_undoes_add(a: nat, b: nat)
    requires
        a < modulus(),
        b < modulus(),
    ensures
        sub_spec((a + b) % modulus(), b) == a,
{
    let m = modulus() as int;
    if a + b < m {
        lemma_small_mod((a + b) as nat, modulus());
    } else {
        lemma_mod_sub_multiples_vanish((a + b) as int, m);
        lemma_small_mod((a + b - m) as nat, modulus());
    }
}

/// Addition undoes subtraction: for reduced `a` and `b`,
/// `add(sub(a, b), b) == a`.
pub proof fn lemma_add_undoes_sub(a: nat, b: nat)
    requires
        a < modulus(),
        b < modulus(),
    ensures
        (sub_spec(a, b) + b) % modulus() == a,
{
    let m = modulus() as int;
    lemma_small_mod(a, modulus());
    if a < b {
        lemma_mod_add_multiples_vanish(a as int, m);
    }
}

/// `opo` negates: a value up to the modulus plus its image is 0 modulo
/// the modulus, `add(a, opo(a)) == 0`.
pub proof fn lemma_opo_negates(a: nat)
    requires
        a <= modulus(),
    ensures
        (a + (modulus() - a)) % (modulus() as int) == 0,
{
    lemma_mod_self_0(modulus() as int);
}

/// Division undoes multiplication: for reduced `a` and invertible `b`,
/// `div(mul(a, b), b) == a`.
pub proof fn lemma_div_undoes_mul(a: nat, b: nat)
    requires
        a < modulus(),
        has_inverse(b),
    ensures
        (((a * b) % modulus()) * inv_spec(b)) % modulus() == a,
{
    let m = modulus() as int;
    let x = inv_spec(b);
    lemma_mul_mod_noop_left((a * b) as int, x as int, m);
    lemma_mul_is_associative(a as int, b as int, x as int);
    lemma_mul_mod_noop_right(a as int, (b * x) as int, m);
    lemma_small_mod(a, modulus());
}

} // verus!
