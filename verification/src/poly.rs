//! Dense polynomials over the field of `gf`, coefficients lowest degree
//! first.

use crate::bignat::{all_below, nats, BigNat};
use crate::fft::{fft, fft_len_ok, fft_spec, ifft, ifft_spec};
use crate::gf::{has_inverse, modulus, sub_spec, w_spec};
use crate::fft_laws::{
    dft, lemma_fft_is_dft, lemma_ifft_of_dft, lemma_pow2_fft_len_ok, lemma_rec_len, lemma_sub_spec_reduced,
    ntt_size,
};
use crate::poly_math::{
    add_row, conv, icoef, ints, lemma_conv_commutes, lemma_conv_congruent, lemma_eval_concat, lemma_product_coef, lemma_eval_congruent_coeffs, lemma_eval_last,
    lemma_eval_product, lemma_eval_shifted_sum, poly_eval, poly_product,
};
use vstd::arithmetic::power::{lemma_pow0, pow};
use vstd::arithmetic::power2::*;
use vstd::arithmetic::div_mod::*;
use vstd::prelude::*;

verus! {

/// The coefficient of `s` at `i`, 0 beyond its end.
pub open spec fn coef(s: Seq<nat>, i: int) -> nat {
    if 0 <= i < s.len() {
        s[i]
    } else {
        0
    }
}

/// `s` extended with zeros to length `n` (unchanged if already as long).
pub open spec fn pad(s: Seq<nat>, n: nat) -> Seq<nat> {
    Seq::new(if s.len() < n { n } else { s.len() }, |i: int| coef(s, i))
}

/// What `set` leaves: `s` extended with zeros to cover `i`, then `v` at `i`.
pub open spec fn set_spec(s: Seq<nat>, i: nat, v: nat) -> Seq<nat> {
    pad(s, i + 1).update(i as int, v)
}

/// What `sub` returns: `a` extended to the longer length, each coefficient
/// of `b` subtracted as `gf::sub` does.
pub open spec fn sub_poly(a: Seq<nat>, b: Seq<nat>) -> Seq<nat> {
    Seq::new(
        if a.len() < b.len() { b.len() } else { a.len() },
        |i: int| if i < b.len() { sub_spec(coef(a, i), b[i]) } else { coef(a, i) },
    )
}

/// `s` without its trailing zeros.
pub open spec fn norm(s: Seq<nat>) -> Seq<nat>
    decreases s.len(),
{
    if s.len() > 0 && s.last() == 0 {
        norm(s.drop_last())
    } else {
        s
    }
}

/// Each coefficient reduced modulo the field's modulus.
pub open spec fn reduce(s: Seq<int>) -> Seq<nat> {
    Seq::new(s.len(), |i: int| (s[i] % (modulus() as int)) as nat)
}

/// What `mul` returns: the product of the polynomials, reduced.
pub open spec fn mul_spec(a: Seq<nat>, b: Seq<nat>) -> Seq<nat> {
    reduce(poly_product(ints(a), ints(b)))
}

/// The first power of two at least `n`, doubling from `p`.
pub open spec fn pow2_at_least(n: nat, p: nat) -> nat
    decreases (if p < n { n - p } else { 0 }),
{
    if p >= n || p == 0 {
        p
    } else {
        pow2_at_least(n, 2 * p)
    }
}

/// The least power of two at least `n` (1 for 0).
pub open spec fn next_pow2(n: nat) -> nat {
    pow2_at_least(n, 1)
}

/// The least power of two at least `n` is a power of two, and at least `n`.
pub proof fn lemma_next_pow2(n: nat)
    ensures
        exists|k: nat| next_pow2(n) == #[trigger] pow2(k),
        next_pow2(n) >= n,
        next_pow2(n) >= 1,
{
    lemma2_to64();
    lemma_pow2_at_least(n, 0);
}

proof fn lemma_pow2_at_least(n: nat, i: nat)
    ensures
        exists|k: nat| pow2_at_least(n, pow2(i)) == #[trigger] pow2(k),
        pow2_at_least(n, pow2(i)) >= n,
        pow2_at_least(n, pow2(i)) >= pow2(i),
    decreases (if pow2(i) < n { n - pow2(i) } else { 0 }),
{
    lemma_pow2_pos(i);
    let p = pow2(i);
    if p >= n {
        assert(pow2_at_least(n, p) == pow2(i));
    } else {
        lemma_pow2_unfold(i + 1);
        assert(2 * p == pow2(i + 1));
        lemma_pow2_at_least(n, i + 1);
        assert(pow2_at_least(n, p) == pow2_at_least(n, pow2(i + 1)));
    }
}

/// The polynomial's values evaluated with zeros appended are unchanged.
pub proof fn lemma_eval_pad(s: Seq<nat>, n: nat, x: int)
    ensures
        poly_eval(ints(pad(s, n)), x) == poly_eval(ints(s), x),
{
    let l = pad(s, n).len();
    let e = Seq::<int>::empty();
    lemma_eval_shifted_sum(l, ints(s), e, 0, 0, x);
    assert(ints(pad(s, n)) =~= Seq::new(l, |k: int| icoef(ints(s), k) + 0 * icoef(e, k - 0nat)));
    assert(0 * pow(x, 0) * poly_eval(e, x) == 0);
}

/// What `mul_fast` returns: the pointwise product of the transforms of the
/// two polynomials, padded to `next_pow2` of their total length, transformed back.
pub open spec fn mul_fast_spec(a: Seq<nat>, b: Seq<nat>) -> Seq<nat> {
    let size = next_pow2(a.len() + b.len());
    let x = fft_spec(pad(a, size));
    let y = fft_spec(pad(b, size));
    ifft_spec(Seq::new(x.len(), |i: int| (x[i] * y[i]) % modulus()))
}

/// The least power of two at least `n`.
pub(crate) fn next_power_of_two(n: usize) -> (r: usize)
    requires
        n <= usize::MAX / 2 + 1,
    ensures
        r == next_pow2(n as nat),
{
    let mut p: usize = 1;
    while p < n
        invariant
            n <= usize::MAX / 2 + 1,
            1 <= p,
            pow2_at_least(n as nat, p as nat) == next_pow2(n as nat),
        decreases usize::MAX - p,
    {
        p = p * 2;
    }
    p
}

/// `v` with zeros appended up to length `n`.
pub(crate) fn padded(v: &Vec<BigNat>, n: usize) -> (r: Vec<BigNat>)
    ensures
        nats(r@) == pad(nats(v@), n as nat),
{
    let mut res: Vec<BigNat> = Vec::new();
    let mut i: usize = 0;
    let len = if v.len() < n { n } else { v.len() };
    while i < len
        invariant
            len == if v.len() < n { n } else { v.len() },
            i <= len,
            res.len() == i,
            forall|j: int| 0 <= j < i ==> #[trigger] res@[j]@ == coef(nats(v@), j),
        decreases len - i,
    {
        if i < v.len() {
            res.push(v[i].dup());
        } else {
            res.push(BigNat::zero());
        }
        i = i + 1;
    }
    proof {
        assert(nats(res@) =~= pad(nats(v@), n as nat));
    }
    res
}

/// What `div_t` returns: the polynomial without trailing zeros must split
/// at `size` into a low part `l` and a high part equal to `modulus() - l`
/// (coefficient by coefficient, both without trailing zeros); the quotient
/// is then `modulus() - l`. Zero divides to zero.
pub open spec fn div_t_spec(d: Seq<nat>, size: nat) -> Option<Seq<nat>> {
    let v = norm(d);
    if v.len() == 0 {
        Some(Seq::<nat>::empty())
    } else if v.len() <= size {
        None
    } else {
        let high = norm(v.subrange(size as int, v.len() as int));
        let low = norm(v.subrange(0, size as int));
        let neg = Seq::new(low.len(), |i: int| (modulus() - low[i]) as nat);
        if high == neg {
            Some(neg)
        } else {
            None
        }
    }
}

/// Removing trailing zeros leaves a prefix.
pub proof fn lemma_norm_prefix(s: Seq<nat>)
    ensures
        norm(s).len() <= s.len(),
        norm(s) == s.take(norm(s).len() as int),
        norm(s).len() == 0 || norm(s).last() != 0,
        forall|i: int| norm(s).len() <= i < s.len() ==> s[i] == 0,
    decreases s.len(),
{
    if s.len() > 0 && s.last() == 0 {
        lemma_norm_prefix(s.drop_last());
        assert(s.drop_last().take(norm(s).len() as int) =~= s.take(norm(s).len() as int));
        assert forall|i: int| norm(s).len() <= i < s.len() implies s[i] == 0 by {
            if i < s.len() - 1 {
                assert(s.drop_last()[i] == s[i]);
            }
        }
    } else {
        assert(s.take(s.len() as int) =~= s);
    }
}

/// Why a polynomial is not divided by `x^size - 1` as `div_t` divides.
#[derive(Debug, Clone, Copy, PartialEq, Eq, Structural)]
pub enum QuotientError {
    /// The polynomial is nonzero and has no coefficient at `size` or above.
    DegreeTooLow,
    /// The part at `size` and above is not the negation of the part below.
    NotDivisible,
}

/// A dense polynomial.
#[derive(Debug, Clone)]
pub struct Poly {
    pub data: Vec<BigNat>,
}

/// `v` without its trailing zeros.
fn vec_norm(v: &Vec<BigNat>) -> (r: Vec<BigNat>)
    ensures
        nats(r@) == norm(nats(v@)),
{
    let mut res: Vec<BigNat> = Vec::new();
    let mut i: usize = 0;
    while i < v.len()
        invariant
            i <= v.len(),
            res.len() == i,
            forall|j: int| 0 <= j < i ==> #[trigger] res@[j]@ == v@[j]@,
        decreases v.len() - i,
    {
        res.push(v[i].dup());
        i = i + 1;
    }
    proof {
        assert(nats(res@) =~= nats(v@));
    }
    while res.len() > 0 && res[res.len() - 1].is_zero()
        invariant
            norm(nats(res@)) == norm(nats(v@)),
        decreases res.len(),
    {
        let ghost before = nats(res@);
        res.pop();
        proof {
            assert(nats(res@) =~= before.drop_last());
        }
    }
    res
}

impl Poly {
    /// The zero polynomial, with no coefficients.
    pub fn zero() -> (r: Poly)
        ensures
            r.data@.len() == 0,
    {
        Poly { data: Vec::new() }
    }

    /// The constant polynomial 1.
    pub fn one() -> (r: Poly)
        ensures
            nats(r.data@) == seq![1nat],
    {
        let mut data: Vec<BigNat> = Vec::new();
        data.push(BigNat::one());
        proof {
            assert(nats(data@) =~= seq![1nat]);
        }
        Poly { data }
    }

    /// The coefficient at `index`, 0 beyond the end.
    pub fn get(&self, index: usize) -> (r: BigNat)
        ensures
            r@ == coef(nats(self.data@), index as int),
    {
        if index >= self.data.len() {
            return BigNat::zero();
        }
        self.data[index].dup()
    }

    /// Sets the coefficient at `index`, first extending with zeros if needed.
    pub fn set(&mut self, index: usize, value: BigNat)
        requires
            index < usize::MAX,
        ensures
            nats(final(self).data@) == set_spec(nats(old(self).data@), index as nat, value@),
    {
        let ghost s0 = nats(self.data@);
        while self.data.len() <= index
            invariant
                index < usize::MAX,
                s0.len() <= self.data.len(),
                self.data.len() <= index + 1 || self.data.len() == s0.len(),
                forall|j: int| 0 <= j < self.data.len() ==> #[trigger] self.data@[j]@ == coef(s0, j),
            decreases index + 1 - self.data.len(),
        {
            self.data.push(BigNat::zero());
        }
        self.data.set(index, value);
        proof {
            assert(nats(self.data@) =~= set_spec(s0, index as nat, value@));
        }
    }

    /// `self - b`, coefficient by coefficient with `gf::sub`, over the longer
    /// of the two lengths.
    pub fn sub(&self, b: &Poly) -> (r: Poly)
        requires
            forall|i: int| 0 <= i < b.data@.len() ==> #[trigger] b.data@[i]@ <= coef(nats(self.data@), i) + modulus(),
        ensures
            nats(r.data@) == sub_poly(nats(self.data@), nats(b.data@)),
    {
        let ghost a = nats(self.data@);
        let ghost bs = nats(b.data@);
        let size = if self.data.len() < b.data.len() { b.data.len() } else { self.data.len() };
        let mut res: Vec<BigNat> = Vec::new();
        let mut i: usize = 0;
        while i < size
            invariant
                a == nats(self.data@),
                bs == nats(b.data@),
                size == if self.data.len() < b.data.len() { b.data.len() } else { self.data.len() },
                forall|j: int| 0 <= j < b.data@.len() ==> #[trigger] b.data@[j]@ <= coef(a, j) + modulus(),
                i <= size,
                res.len() == i,
                forall|j: int| 0 <= j < i ==> #[trigger] res@[j]@ == sub_poly(a, bs)[j],
            decreases size - i,
        {
            let value = self.get(i);
            if i < b.data.len() {
                res.push(crate::gf::sub(&value, &b.data[i]));
            } else {
                res.push(value);
            }
            i = i + 1;
        }
        proof {
            assert(nats(res@) =~= sub_poly(a, bs));
        }
        Poly { data: res }
    }

    /// The product, coefficient by coefficient as in schoolbook
    /// multiplication, modulo the field's modulus.
    pub fn mul(&self, b: &Poly) -> (r: Poly)
        requires
            self.data.len() + b.data.len() <= usize::MAX,
        ensures
            nats(r.data@) == mul_spec(nats(self.data@), nats(b.data@)),
    {
        let ghost a_s = ints(nats(self.data@));
        let ghost b_s = ints(nats(b.data@));
        let mut res = Poly::zero();
        let mut i: usize = 0;
        proof {
            assert(a_s.take(0).len() == 0);
            assert(nats(res.data@) =~= reduce(poly_product(a_s.take(0), b_s)));
        }
        while i < self.data.len()
            invariant
                a_s == ints(nats(self.data@)),
                b_s == ints(nats(b.data@)),
                self.data.len() + b.data.len() <= usize::MAX,
                i <= self.data.len(),
                nats(res.data@) == reduce(poly_product(a_s.take(i as int), b_s)),
            decreases self.data.len() - i,
        {
            let val_a = self.get(i);
            let ghost p = poly_product(a_s.take(i as int), b_s);
            let mut j: usize = 0;
            proof {
                assert(b_s.take(0).len() == 0);
                assert(add_row(p, b_s.take(0), a_s[i as int], i as nat) =~= p);
            }
            while j < b.data.len()
                invariant
                    a_s == ints(nats(self.data@)),
                    b_s == ints(nats(b.data@)),
                    self.data.len() + b.data.len() <= usize::MAX,
                    i < self.data.len(),
                    val_a@ == a_s[i as int],
                    p == poly_product(a_s.take(i as int), b_s),
                    j <= b.data.len(),
                    nats(res.data@) == reduce(add_row(p, b_s.take(j as int), a_s[i as int], i as nat)),
                decreases b.data.len() - j,
            {
                let val_b = crate::gf::mul(&val_a, &b.get(j));
                let val_c = crate::gf::add(&res.get(i + j), &val_b);
                let ghost before = nats(res.data@);
                res.set(i + j, val_c);
                proof {
                    let m = modulus() as int;
                    let c = a_s[i as int];
                    let old_row = add_row(p, b_s.take(j as int), c, i as nat);
                    let new_row = add_row(p, b_s.take(j + 1), c, i as nat);
                    let k0 = (i + j) as int;
                    assert(icoef(b_s.take(j + 1), k0 - i) == b_s[j as int]);
                    assert(icoef(b_s.take(j as int), k0 - i) == 0);
                    lemma_add_mod_noop(icoef(p, k0), c * b_s[j as int], m);
                    lemma_mod_twice(icoef(p, k0), m);
                    lemma_mod_twice(c * b_s[j as int], m);
                    assert forall|k: int| 0 <= k < new_row.len() && k != k0 implies #[trigger] new_row[k]
                        == old_row[k] || k >= old_row.len() by {
                        assert(icoef(b_s.take(j + 1), k - i) == icoef(b_s.take(j as int), k - i));
                    }
                    assert(nats(res.data@) =~= reduce(new_row));
                }
                j = j + 1;
            }
            proof {
                assert(b_s.take(b.data.len() as int) =~= b_s);
                let a1 = a_s.take(i + 1);
                assert(a1.drop_last() =~= a_s.take(i as int));
                assert(a1.last() == a_s[i as int]);
                if b.data.len() == 0 {
                    assert(nats(res.data@) =~= reduce(poly_product(a1, b_s)));
                }
            }
            i = i + 1;
        }
        proof {
            assert(a_s.take(self.data.len() as int) =~= a_s);
        }
        res
    }

    /// The product through the transform: both polynomials padded to the
    /// least power of two covering their total length, transformed,
    /// multiplied pointwise, transformed back.
    pub fn mul_fast(self, b: Poly) -> (r: Poly)
        requires
            self.data.len() + b.data.len() <= usize::MAX / 2 + 1,
            ntt_size(next_pow2((self.data.len() + b.data.len()) as nat)) || (has_inverse(
                w_spec(next_pow2((self.data.len() + b.data.len()) as nat)),
            ) && has_inverse(next_pow2((self.data.len() + b.data.len()) as nat))),
        ensures
            nats(r.data@) == mul_fast_spec(nats(self.data@), nats(b.data@)),
            ntt_size(next_pow2((self.data.len() + b.data.len()) as nat)) ==> nats(r.data@) == pad(
                mul_spec(nats(self.data@), nats(b.data@)),
                next_pow2((self.data.len() + b.data.len()) as nat),
            ),
    {
        let ghost a_s = nats(self.data@);
        let ghost b_s = nats(b.data@);
        let size: usize = next_power_of_two(self.data.len() + b.data.len());
        proof {
            lemma_next_pow2((self.data.len() + b.data.len()) as nat);
        }
        let ghost k = choose|k: nat| size == #[trigger] pow2(k);
        proof {
            lemma_pow2_fft_len_ok(k);
        }
        let a_pad = padded(&self.data, size);
        let b_pad = padded(&b.data, size);
        assert(size >= self.data.len());
        assert(nats(a_pad@).len() == a_pad.len());
        assert(a_pad.len() == size);
        assert(size >= b.data.len());
        assert(nats(b_pad@).len() == b_pad.len());
        assert(b_pad.len() == size);
        let v1 = fft(&a_pad);
        let v2 = fft(&b_pad);
        proof {
            lemma_rec_len(crate::fft::shuffle_spec(nats(a_pad@)), 0, k, w_spec(size as nat));
            lemma_rec_len(crate::fft::shuffle_spec(nats(b_pad@)), 0, k, w_spec(size as nat));
        }
        let ghost x = nats(v1@);
        let ghost y = nats(v2@);
        let mut prod: Vec<BigNat> = Vec::new();
        let mut i: usize = 0;
        while i < size
            invariant
                x == nats(v1@),
                y == nats(v2@),
                v1.len() == size,
                v2.len() == size,
                i <= size,
                prod.len() == i,
                forall|j: int| 0 <= j < i ==> #[trigger] prod@[j]@ == (x[j] * y[j]) % modulus(),
            decreases size - i,
        {
            prod.push(crate::gf::mul(&v1[i], &v2[i]));
            i = i + 1;
        }
        proof {
            assert(nats(prod@) =~= Seq::new(x.len(), |i: int| (x[i] * y[i]) % modulus()));
        }
        let res = ifft(&prod);
        proof {
            if ntt_size(size as nat) {
                lemma_mul_fast_is_mul(a_s, b_s, size as nat);
            }
        }
        Poly { data: res }
    }

    /// Division by `x^size - 1` of a polynomial of the shape
    /// `l - x^size l` (with `-` the field's negation): the quotient `-l`
    /// exactly when the polynomial has that shape (or is zero), otherwise
    /// an error saying which part of the shape is missing.
    #[verifier::loop_isolation(false)]
    pub(crate) fn div_t(&self, size: usize) -> (r: Result<Poly, QuotientError>)
        requires
            forall|i: int| 0 <= i < size && i < self.data.len() ==> #[trigger] self.data@[i]@ <= modulus(),
        ensures
            match r {
                Ok(p) => div_t_spec(nats(self.data@), size as nat) == Some(nats(p.data@)),
                Err(QuotientError::DegreeTooLow) => div_t_spec(nats(self.data@), size as nat) is None
                    && 0 < norm(nats(self.data@)).len() <= size,
                Err(QuotientError::NotDivisible) => div_t_spec(nats(self.data@), size as nat) is None
                    && norm(nats(self.data@)).len() > size,
            },
    {
        let ghost d = nats(self.data@);
        let mut v = vec_norm(&self.data);
        proof {
            lemma_norm_prefix(d);
        }
        if v.len() == 0 {
            return Ok(Poly::zero());
        }
        if v.len() <= size {
            return Err(QuotientError::DegreeTooLow);
        }
        let ghost vs = nats(v@);
        let high = v.split_off(size);
        proof {
            assert(nats(high@) =~= vs.subrange(size as int, vs.len() as int));
            assert(nats(v@) =~= vs.subrange(0, size as int));
        }
        let high = vec_norm(&high);
        let low = vec_norm(&v);
        proof {
            lemma_norm_prefix(vs.subrange(0, size as int));
        }
        let mut neg: Vec<BigNat> = Vec::new();
        let mut i: usize = 0;
        while i < low.len()
            invariant
                forall|j: int| 0 <= j < size && j < self.data.len() ==> #[trigger] self.data@[j]@ <= modulus(),
                d == nats(self.data@),
                vs == norm(d),
                vs == d.take(vs.len() as int),
                vs.len() > size,
                nats(low@) == norm(vs.subrange(0, size as int)),
                nats(low@) == vs.subrange(0, size as int).take(nats(low@).len() as int),
                nats(low@).len() <= size,
                i <= low.len(),
                neg.len() == i,
                forall|j: int| 0 <= j < i ==> #[trigger] neg@[j]@ == modulus() - low@[j]@,
            decreases low.len() - i,
        {
            proof {
                let ii = i as int;
                assert(nats(low@)[ii] == vs.subrange(0, size as int)[ii]);
                assert(vs.subrange(0, size as int)[ii] == vs[ii]);
                assert(vs[ii] == d[ii]);
                assert(low@[ii]@ == self.data@[ii]@);
            }
            neg.push(crate::gf::opo(&low[i]));
            i = i + 1;
        }
        let ghost neg_s = Seq::new(nats(low@).len(), |j: int| (modulus() - nats(low@)[j]) as nat);
        proof {
            assert(nats(neg@) =~= neg_s);
        }
        if high.len() != neg.len() {
            proof {
                assert(nats(high@) != neg_s);
            }
            return Err(QuotientError::NotDivisible);
        }
        let mut k: usize = 0;
        while k < high.len()
            invariant
                high.len() == neg.len(),
                nats(neg@) == neg_s,
                k <= high.len(),
                forall|j: int| 0 <= j < k ==> #[trigger] high@[j]@ == neg@[j]@,
            decreases high.len() - k,
        {
            if !high[k].equals(&neg[k]) {
                proof {
                    assert(nats(high@)[k as int] != neg_s[k as int]);
                }
                return Err(QuotientError::NotDivisible);
            }
            k = k + 1;
        }
        proof {
            assert(nats(high@) =~= neg_s);
        }
        Ok(Poly { data: neg })
    }
}

/// The law behind `mul_fast`: for a transform length that is a power of
/// two up to 2^28, the pointwise product of the transforms, transformed
/// back, is the product polynomial padded.
pub proof fn lemma_mul_fast_is_mul(a: Seq<nat>, b: Seq<nat>, size: nat)
    requires
        size == next_pow2(a.len() + b.len()),
        ntt_size(size),
    ensures
        mul_fast_spec(a, b) == pad(mul_spec(a, b), size),
{
    let ra = reduce(ints(a));
    let rb = reduce(ints(b));
    lemma_products_of_reduced(a, b);
    assert(all_below(ra, modulus()));
    assert(all_below(rb, modulus()));
    lemma_mul_fast_is_mul_reduced(ra, rb, size);
}

/// Reducing the coefficients first changes neither product.
proof fn lemma_products_of_reduced(a: Seq<nat>, b: Seq<nat>)
    ensures
        mul_spec(a, b) == mul_spec(reduce(ints(a)), reduce(ints(b))),
        mul_fast_spec(a, b) == mul_fast_spec(reduce(ints(a)), reduce(ints(b))),
{
    let m = modulus() as int;
    let ra = reduce(ints(a));
    let rb = reduce(ints(b));
    assert forall|i: int| 0 <= i < a.len() implies #[trigger] ints(a)[i] % m == ints(ra)[i] % m by {
        lemma_mod_twice(a[i] as int, m);
    }
    assert forall|i: int| 0 <= i < b.len() implies #[trigger] ints(b)[i] % m == ints(rb)[i] % m by {
        lemma_mod_twice(b[i] as int, m);
    }
    // the schoolbook products
    let p = poly_product(ints(a), ints(b));
    let q = poly_product(ints(ra), ints(rb));
    lemma_product_len(ints(a), ints(b));
    lemma_product_len(ints(ra), ints(rb));
    assert forall|k: int| 0 <= k < p.len() implies #[trigger] p[k] % m == q[k] % m by {
        lemma_product_coef(ints(a), ints(b), k);
        lemma_product_coef(ints(ra), ints(rb), k);
        lemma_conv_congruent(ints(a), ints(b), ints(ra), ints(rb), k, m);
    }
    assert(mul_spec(a, b) =~= mul_spec(ra, rb));
    // the products through the transform
    let size = next_pow2(a.len() + b.len());
    lemma_next_pow2(a.len() + b.len());
    let k = choose|k: nat| size == #[trigger] pow2(k);
    let pa = pad(a, size);
    let pra = pad(ra, size);
    let pb = pad(b, size);
    let prb = pad(rb, size);
    assert forall|i: int| 0 <= i < pa.len() implies #[trigger] pa[i] % modulus() == pra[i] % modulus() by {
        if i < a.len() {
            assert(ints(a)[i] % m == ints(ra)[i] % m);
        }
    }
    assert forall|i: int| 0 <= i < pb.len() implies #[trigger] pb[i] % modulus() == prb[i] % modulus() by {
        if i < b.len() {
            assert(ints(b)[i] % m == ints(rb)[i] % m);
        }
    }
    crate::fft_laws::lemma_fft_congruent(pa, pra, k);
    crate::fft_laws::lemma_fft_congruent(pb, prb, k);
    let x = fft_spec(pa);
    let y = fft_spec(pb);
    let x2 = fft_spec(pra);
    let y2 = fft_spec(prb);
    let z = Seq::new(x.len(), |i: int| (x[i] * y[i]) % modulus());
    let z2 = Seq::new(x2.len(), |i: int| (x2[i] * y2[i]) % modulus());
    assert forall|i: int| 0 <= i < z.len() implies #[trigger] z[i] == z2[i] by {
        lemma_mul_mod_noop(x[i] as int, y[i] as int, m);
        lemma_mul_mod_noop(x2[i] as int, y2[i] as int, m);
    }
    assert(z =~= z2);
}

/// `lemma_mul_fast_is_mul` for reduced coefficients.
proof fn lemma_mul_fast_is_mul_reduced(a: Seq<nat>, b: Seq<nat>, size: nat)
    requires
        size == next_pow2(a.len() + b.len()),
        ntt_size(size),
        all_below(a, modulus()),
        all_below(b, modulus()),
    ensures
        mul_fast_spec(a, b) == pad(mul_spec(a, b), size),
{
    let m = modulus() as int;
    let k = choose|k: nat| k <= 28 && size == #[trigger] pow2(k);
    lemma_next_pow2(a.len() + b.len());
    let w = w_spec(size);
    let pa = pad(a, size);
    let pb = pad(b, size);
    assert forall|i: int| 0 <= i < pa.len() implies #[trigger] pa[i] < modulus() by {}
    assert forall|i: int| 0 <= i < pb.len() implies #[trigger] pb[i] < modulus() by {}
    lemma_fft_is_dft(pa, k);
    lemma_fft_is_dft(pb, k);
    let x = dft(pa, w);
    let y = dft(pb, w);
    let z = Seq::new(x.len(), |i: int| (x[i] * y[i]) % modulus());
    let p = poly_product(ints(a), ints(b));
    let ms = mul_spec(a, b);
    let c = pad(ms, size);
    // the product has at most size coefficients
    assert(ms.len() <= size) by {
        lemma_product_len(ints(a), ints(b));
    }
    assert(c.len() == size);
    assert forall|i: int| 0 <= i < c.len() implies #[trigger] c[i] < modulus() by {}
    assert forall|i: int| 0 <= i < size implies #[trigger] z[i] == dft(c, w)[i] by {
        let t = pow(w as int, i as nat);
        let ea = poly_eval(ints(pa), t);
        let eb = poly_eval(ints(pb), t);
        lemma_mul_mod_noop(ea, eb, m);
        lemma_eval_pad(a, size, t);
        lemma_eval_pad(b, size, t);
        lemma_eval_product(ints(a), ints(b), t);
        lemma_eval_pad(ms, size, t);
        assert forall|j: int| 0 <= j < ints(ms).len() implies #[trigger] ints(ms)[j] % m == p[j] % m by {
            lemma_mod_twice(p[j], m);
        }
        lemma_eval_congruent_coeffs(ints(ms), p, t, m);
    }
    assert(z =~= dft(c, w));
    lemma_ifft_of_dft(c, k);
}

/// The product of polynomials of lengths `la` and `lb` (both positive) has
/// length `la + lb - 1`.
pub proof fn lemma_product_len(a: Seq<int>, b: Seq<int>)
    ensures
        poly_product(a, b).len() == if a.len() == 0 || b.len() == 0 { 0 } else { (a.len() + b.len() - 1) as nat },
    decreases a.len(),
{
    if a.len() > 0 && b.len() > 0 {
        lemma_product_len(a.drop_last(), b);
    }
}


/// Removing trailing zeros does not change the polynomial's values.
pub proof fn lemma_eval_norm(s: Seq<nat>, x: int)
    ensures
        poly_eval(ints(norm(s)), x) == poly_eval(ints(s), x),
    decreases s.len(),
{
    if s.len() > 0 && s.last() == 0 {
        lemma_eval_norm(s.drop_last(), x);
        lemma_eval_last(ints(s), x);
        assert(ints(s).drop_last() =~= ints(s.drop_last()));
        assert(ints(s).last() == 0);
        assert(0 * pow(x, (s.len() - 1) as nat) == 0);
    }
}

/// The law behind `div_t`: what it returns is the quotient by `x^size - 1`,
/// modulo the field's modulus, at every point.
pub proof fn lemma_div_t_divides(d: Seq<nat>, size: nat, x: int)
    requires
        div_t_spec(d, size) is Some,
        forall|i: int| 0 <= i < d.len() && i < size ==> #[trigger] d[i] <= modulus(),
    ensures
        poly_eval(ints(d), x) % (modulus() as int) == (poly_eval(ints(div_t_spec(d, size).unwrap()), x) * (pow(x, size) - 1))
            % (modulus() as int),
{
    let m = modulus() as int;
    let v = norm(d);
    let h = div_t_spec(d, size).unwrap();
    lemma_eval_norm(d, x);
    if v.len() == 0 {
        assert(h.len() == 0);
        assert(poly_eval(ints(v), x) == 0);
        assert(poly_eval(ints(h), x) == 0);
        assert(0 * (pow(x, size) - 1) == 0);
    } else {
        let lf = v.subrange(0, size as int);
        let hf = v.subrange(size as int, v.len() as int);
        let low = norm(lf);
        let high = norm(hf);
        assert(ints(v) =~= ints(lf) + ints(hf));
        lemma_eval_concat(ints(lf), ints(hf), x);
        lemma_eval_norm(lf, x);
        lemma_eval_norm(hf, x);
        assert(high == h);
        // h[i] is congruent to -low[i]
        let negs = Seq::new(low.len(), |k: int| 0 + (-1) * pow(1, k as nat) * ints(low)[k]);
        lemma_norm_prefix(d);
        lemma_norm_prefix(lf);
        assert forall|k: int| 0 <= k < ints(h).len() implies #[trigger] ints(h)[k] % m == negs[k] % m by {
            vstd::arithmetic::power::lemma1_pow(k as nat);
            assert(low[k] == lf[k]);
            assert(lf[k] == v[k]);
            assert(v[k] == d[k]);
            assert(ints(h)[k] == m - low[k]);
            assert(negs[k] == -(low[k] as int));
            lemma_mod_add_multiples_vanish(-(low[k] as int), m);
        }
        lemma_eval_congruent_coeffs(ints(h), negs, x, m);
        crate::poly_math::lemma_eval_linear(ints(low), 0, -1, 1, x);
        let el = poly_eval(ints(low), x);
        let eh = poly_eval(ints(h), x);
        let p = pow(x, size);
        assert(lf.len() == size);
        assert(0 * crate::poly_math::geom(x, low.len()) + (-1) * el == -el);
        assert(1 * x == x);
        // v(x) = l(x) + x^size h(x), h(x) congruent to -l(x)
        lemma_mul_mod_noop_right(p, eh, m);
        lemma_mul_mod_noop_right(p, -el, m);
        lemma_add_mod_noop_right(el, p * eh, m);
        lemma_add_mod_noop_right(el, p * (-el), m);
        lemma_mul_mod_noop_left(eh, p - 1, m);
        lemma_mul_mod_noop_left(-el, p - 1, m);
        assert(el + p * (-el) == (-el) * (p - 1)) by (nonlinear_arith);
    }
}

/// Reading back what `set` wrote: the coefficient at `i` is `v`, and every
/// other coefficient is what it was.
pub proof fn lemma_get_after_set(s: Seq<nat>, i: nat, v: nat, j: int)
    ensures
        coef(set_spec(s, i, v), i as int) == v,
        j != i ==> coef(set_spec(s, i, v), j) == coef(s, j),
{
}

/// The product that `mul` returns evaluates, modulo the field's modulus,
/// to the product of the two polynomials' values.
pub proof fn lemma_mul_spec_eval(a: Seq<nat>, b: Seq<nat>, x: int)
    ensures
        poly_eval(ints(mul_spec(a, b)), x) % (modulus() as int)
            == (poly_eval(ints(a), x) * poly_eval(ints(b), x)) % (modulus() as int),
{
    let m = modulus() as int;
    let prod = poly_product(ints(a), ints(b));
    let ms = mul_spec(a, b);
    assert forall|j: int| 0 <= j < ints(ms).len() implies #[trigger] ints(ms)[j] % m == prod[j] % m by {
        lemma_mod_twice(prod[j], m);
    }
    lemma_eval_congruent_coeffs(ints(ms), prod, x, m);
    lemma_eval_product(ints(a), ints(b), x);
}

/// For reduced coefficients, the difference that `sub` returns evaluates,
/// modulo the field's modulus, to the difference of the two values.
pub proof fn lemma_sub_poly_eval(a: Seq<nat>, b: Seq<nat>, x: int)
    requires
        all_below(a, modulus()),
        all_below(b, modulus()),
    ensures
        poly_eval(ints(sub_poly(a, b)), x) % (modulus() as int)
            == (poly_eval(ints(a), x) - poly_eval(ints(b), x)) % (modulus() as int),
{
    let m = modulus() as int;
    let d = sub_poly(a, b);
    let n = d.len();
    let e = Seq::new(n, |j: int| icoef(ints(a), j) + (-1) * icoef(ints(b), j - 0nat));
    assert forall|j: int| 0 <= j < n implies #[trigger] coef(a, j) < modulus() by {
        if j < a.len() {
            assert(a[j] < modulus());
        }
    }
    assert forall|j: int| 0 <= j < ints(d).len() implies #[trigger] ints(d)[j] % m == e[j] % m by {
        if j < b.len() {
            assert(b[j] < modulus());
            lemma_sub_spec_reduced(coef(a, j), b[j]);
            lemma_mod_twice(coef(a, j) - b[j], m);
        }
    }
    lemma_eval_congruent_coeffs(ints(d), e, x, m);
    lemma_eval_shifted_sum(n, ints(a), ints(b), -1, 0, x);
    lemma_pow0(x);
    let ea = poly_eval(ints(a), x);
    let eb = poly_eval(ints(b), x);
    assert(poly_eval(Seq::new(n, |j: int| icoef(ints(a), j) + (-1) * icoef(ints(b), j - 0nat)), x) == ea + (-1) * pow(x, 0) * eb);
    assert((-1) * 1 * eb == -eb);
}

/// The product does not depend on the order of the factors.
pub proof fn lemma_mul_commutative(a: Seq<nat>, b: Seq<nat>)
    ensures
        mul_spec(a, b) == mul_spec(b, a),
{
    let p = poly_product(ints(a), ints(b));
    let q = poly_product(ints(b), ints(a));
    lemma_product_len(ints(a), ints(b));
    lemma_product_len(ints(b), ints(a));
    assert forall|k: int| 0 <= k < p.len() implies #[trigger] p[k] == q[k] by {
        lemma_product_coef(ints(a), ints(b), k);
        lemma_product_coef(ints(b), ints(a), k);
        lemma_conv_commutes(ints(a), ints(b), k);
    }
    assert(p =~= q);
}

/// The constant 1 is a unit of the product for reduced coefficients, and
/// the empty polynomial (zero) gives the empty product.
pub proof fn lemma_mul_one_zero(a: Seq<nat>)
    requires
        all_below(a, modulus()),
    ensures
        mul_spec(a, seq![1nat]) == a,
        mul_spec(seq![1nat], a) == a,
        mul_spec(a, Seq::<nat>::empty()) == Seq::<nat>::empty(),
        mul_spec(Seq::<nat>::empty(), a) == Seq::<nat>::empty(),
{
    let one = ints(seq![1nat]);
    let p = poly_product(one, ints(a));
    lemma_product_len(one, ints(a));
    assert forall|k: int| 0 <= k < p.len() implies #[trigger] p[k] == a[k] by {
        lemma_product_coef(one, ints(a), k);
        assert(one.len() == 1);
        assert(one.drop_last().len() == 0);
        assert(one.last() == 1);
        assert(conv(one.drop_last(), ints(a), k) == 0);
        assert(conv(one, ints(a), k) == conv(one.drop_last(), ints(a), k) + one.last() * icoef(ints(a), k - (one.len() - 1)));
        assert(k < a.len());
        assert(icoef(p, k) == p[k]);
        assert(1 * icoef(ints(a), k) == a[k]);
    }
    assert forall|k: int| 0 <= k < a.len() implies #[trigger] (a[k] as int) % (modulus() as int) == a[k] by {
        lemma_small_mod(a[k], modulus());
    }
    assert(mul_spec(seq![1nat], a) =~= a);
    lemma_mul_commutative(a, seq![1nat]);
    assert(mul_spec(a, Seq::<nat>::empty()) =~= Seq::<nat>::empty());
    assert(mul_spec(Seq::<nat>::empty(), a) =~= Seq::<nat>::empty());
}

} // verus!
