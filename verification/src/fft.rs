//! The radix-2 number-theoretic transform over the field of `gf`:
//! `fft` evaluates a polynomial at the powers of a root of unity, `ifft`
//! interpolates it back.

use crate::bignat::{all_below, nats, BigNat};
use crate::fft_laws::{dft, lemma_fft_is_dft, lemma_fft_of_ifft, lemma_w_inverse, ntt_size};
use crate::gf::{has_inverse, inv_spec, modulus, sub_spec, w_spec};
use vstd::arithmetic::div_mod::*;
use vstd::arithmetic::power::pow;
use vstd::arithmetic::power2::*;
use vstd::prelude::*;

verus! {

/// The low `k` bits of `x` in reverse order.
pub open spec fn rev_bits(x: nat, k: nat) -> nat
    decreases k,
{
    if k == 0 {
        0
    } else {
        rev_bits(x / 2, (k - 1) as nat) + (x % 2) * pow2((k - 1) as nat)
    }
}

/// The number of trailing zero bits of a positive `n` (0 for 0).
pub open spec fn trailing_zeros(n: nat) -> nat
    decreases n,
{
    if n == 0 || n % 2 == 1 {
        0
    } else {
        1 + trailing_zeros(n / 2)
    }
}

/// `s` permuted by reversing the low `trailing_zeros(|s|)` bits of each index.
pub open spec fn shuffle_spec(s: Seq<nat>) -> Seq<nat> {
    Seq::new(s.len(), |i: int| s[rev_bits(i as nat, trailing_zeros(s.len())) as int])
}

/// `r` to the power `i`, reduced modulo the field's modulus.
pub open spec fn pow_mod(r: nat, i: nat) -> nat {
    (pow(r as int, i) % (modulus() as int)) as nat
}

/// One combining step: `e[i] + r^i o[i]` followed by `e[i] - r^i o[i]`,
/// modulo the field's modulus, over the common length of `e` and `o`.
pub open spec fn butterfly(e: Seq<nat>, o: Seq<nat>, r: nat) -> Seq<nat> {
    let m = if e.len() < o.len() { e.len() } else { o.len() };
    Seq::new(m, |i: int| (e[i] + (o[i] * pow_mod(r, i as nat)) % modulus()) % modulus())
        + Seq::new(m, |i: int| sub_spec(e[i], (o[i] * pow_mod(r, i as nat)) % modulus()))
}

/// The recursive transform of `u[b .. b + s]` with the root `r`, whose two
/// halves are transformed with `r * r`.
pub open spec fn rec_spec(u: Seq<nat>, b: int, s: nat, r: nat) -> Seq<nat>
    decreases s,
{
    if s <= 1 {
        seq![u[b]]
    } else {
        let r2 = (r * r) % modulus();
        butterfly(
            rec_spec(u, b, s / 2, r2),
            rec_spec(u, b + s / 2, (s / 2) as nat, r2),
            r,
        )
    }
}

/// What `fft` returns.
pub open spec fn fft_spec(s: Seq<nat>) -> Seq<nat> {
    rec_spec(shuffle_spec(s), 0, s.len(), w_spec(s.len()))
}

/// What `ifft` returns.
pub open spec fn ifft_spec(s: Seq<nat>) -> Seq<nat> {
    let y = rec_spec(shuffle_spec(s), 0, s.len(), inv_spec(w_spec(s.len())));
    Seq::new(y.len(), |i: int| (y[i] * inv_spec(s.len())) % modulus())
}

/// The lengths that `fft` accepts: 1, or a positive even number (for any
/// other the bit length of the permutation is 0, which it cannot shift by).
pub open spec fn fft_len_ok(n: nat) -> bool {
    n == 1 || (n > 0 && n % 2 == 0)
}

/// The low `k` bits reversed fit in `k` bits.
pub proof fn lemma_rev_bits_bound(x: nat, k: nat)
    ensures
        rev_bits(x, k) < pow2(k),
    decreases k,
{
    reveal(pow);
    if k > 0 {
        lemma_rev_bits_bound(x / 2, (k - 1) as nat);
        lemma_pow2_unfold(k);
        if x % 2 == 0 {
            assert((x % 2) * pow2((k - 1) as nat) == 0);
        } else {
            assert((x % 2) * pow2((k - 1) as nat) == pow2((k - 1) as nat));
        }
    } else {
        lemma2_to64();
    }
}

/// Reversing `i + 1` bits puts bit `i` of `x` below the reversed lower bits.
pub proof fn lemma_rev_bits_step(x: nat, i: nat)
    ensures
        rev_bits(x, i + 1) == 2 * rev_bits(x, i) + (x / pow2(i)) % 2,
    decreases i,
{
    if i == 0 {
        lemma2_to64();
        assert(rev_bits(x / 2, 0) == 0);
        assert(rev_bits(x, 0) == 0);
        assert(rev_bits(x, 1) == rev_bits(x / 2, 0) + (x % 2) * pow2(0));
    } else {
        lemma_rev_bits_step(x / 2, (i - 1) as nat);
        lemma_pow2_unfold(i);
        lemma_pow2_pos((i - 1) as nat);
        lemma_div_denominator(x as int, 2, pow2((i - 1) as nat) as int);
        let p = pow2((i - 1) as nat);
        let b = x % 2;
        assert(b * pow2(i) == 2 * (b * p)) by (nonlinear_arith)
            requires pow2(i) == 2 * p;
        assert(rev_bits(x, i) == rev_bits(x / 2, (i - 1) as nat) + (x % 2) * pow2((i - 1) as nat));
        assert(rev_bits(x, i + 1) == rev_bits(x / 2, i) + (x % 2) * pow2(i));
    }
}

pub proof fn lemma_trailing_zeros_bound(n: nat)
    requires
        n > 0,
    ensures
        pow2(trailing_zeros(n)) <= n,
    decreases n,
{
    if n % 2 == 1 {
        lemma2_to64();
    } else {
        lemma_trailing_zeros_bound(n / 2);
        lemma_pow2_unfold(trailing_zeros(n));
    }
}

/// The low `bit_lenth` bits of `value` in reverse order.
pub fn bit_inv(value: usize, bit_lenth: usize) -> (r: usize)
    requires
        1 <= bit_lenth <= usize::BITS,
    ensures
        r == rev_bits(value as nat, bit_lenth as nat),
{
    let mut res: usize = 0;
    let mut x: usize = value;
    let mut i: usize = 0;
    proof {
        vstd::layout::unsigned_int_max_values();
        lemma2_to64();
    }
    while i < bit_lenth
        invariant
            i <= bit_lenth <= usize::BITS,
            usize::MAX as nat == pow2(usize::BITS as nat) - 1,
            x as nat == value as nat / pow2(i as nat),
            res as nat == rev_bits(value as nat, i as nat),
        decreases bit_lenth - i,
    {
        proof {
            lemma_rev_bits_step(value as nat, i as nat);
            lemma_rev_bits_bound(value as nat, (i + 1) as nat);
            if i + 1 < usize::BITS {
                lemma_pow2_strictly_increases((i + 1) as nat, usize::BITS as nat);
            } else {
                assert(pow2((i + 1) as nat) == pow2(usize::BITS as nat));
            }
            lemma_pow2_unfold((i + 1) as nat);
            lemma_pow2_pos(i as nat);
            lemma_div_denominator(value as int, pow2(i as nat) as int, 2);
        }
        res = res * 2 + x % 2;
        x = x / 2;
        i = i + 1;
    }
    res
}

/// The number of trailing zero bits of a positive `n`.
fn trailing_zero_count(n: usize) -> (r: usize)
    requires
        n > 0,
    ensures
        r == trailing_zeros(n as nat),
{
    let mut x: usize = n;
    let mut c: usize = 0;
    while x % 2 == 0
        invariant
            x > 0,
            c + trailing_zeros(x as nat) == trailing_zeros(n as nat),
            c <= n,
            x <= n,
            c + x <= n,
        decreases x,
    {
        x = x / 2;
        c = c + 1;
    }
    c
}

/// `v` permuted by bit reversal of its indices.
fn _shuffle(v: &Vec<BigNat>) -> (r: Vec<BigNat>)
    requires
        v.len() <= 1 || v.len() % 2 == 0,
    ensures
        nats(r@) == shuffle_spec(nats(v@)),
        forall|k: nat| v.len() == #[trigger] pow2(k) ==> shuffle_spec(nats(r@)) == nats(v@),
{
    let n = v.len();
    proof {
        assert forall|k: nat| v.len() == #[trigger] pow2(k) implies shuffle_spec(shuffle_spec(nats(v@))) == nats(v@) by {
            crate::fft_laws::lemma_shuffle_involution(nats(v@), k);
        }
    }
    let mut res: Vec<BigNat> = Vec::new();
    if n == 0 {
        proof {
            assert(nats(res@) =~= shuffle_spec(nats(v@)));
        }
        return res;
    }
    let bit_length = trailing_zero_count(n);
    if n == 1 {
        res.push(v[0].dup());
        proof {
            assert(rev_bits(0, 0) == 0);
            assert(nats(res@) =~= shuffle_spec(nats(v@)));
        }
        return res;
    }
    proof {
        lemma_trailing_zeros_bound(n as nat);
        vstd::layout::unsigned_int_max_values();
        if bit_length > usize::BITS {
            lemma_pow2_strictly_increases(usize::BITS as nat, bit_length as nat);
        }
    }
    let mut i: usize = 0;
    while i < n
        invariant
            n == v.len(),
            n >= 2,
            n % 2 == 0,
            bit_length == trailing_zeros(n as nat),
            1 <= bit_length <= usize::BITS,
            pow2(bit_length as nat) <= n,
            i <= n,
            res.len() == i,
            forall|j: int| 0 <= j < i ==> #[trigger] res@[j]@ == nats(v@)[rev_bits(j as nat, bit_length as nat) as int],
        decreases n - i,
    {
        let i_inv = bit_inv(i, bit_length);
        proof {
            lemma_rev_bits_bound(i as nat, bit_length as nat);
        }
        let value = v[i_inv].dup();
        res.push(value);
        i = i + 1;
    }
    proof {
        assert(nats(res@) =~= shuffle_spec(nats(v@)));
    }
    res
}

/// `r` to the power `i + 1` is `r` to the power `i` times `r`, modulo the
/// field's modulus.
pub proof fn lemma_pow_mod_step(r: nat, i: nat)
    ensures
        pow_mod(r, 0) == 1,
        pow_mod(r, i + 1) == (pow_mod(r, i) * r) % modulus(),
{
    let m = modulus() as int;
    vstd::arithmetic::power::lemma_pow0(r as int);
    lemma_small_mod(1, modulus());
    vstd::arithmetic::power::lemma_pow_adds(r as int, i, 1);
    vstd::arithmetic::power::lemma_pow1(r as int);
    lemma_mul_mod_noop_left(pow(r as int, i), r as int, m);
}

/// The transform of `v[begin .. begin + size]` (already permuted) with the
/// root `r`: the two halves are transformed with `r * r` and combined.
fn _fft_rec(v: &Vec<BigNat>, begin: usize, size: usize, r: &BigNat) -> (res: Vec<BigNat>)
    requires
        size >= 1,
        begin + size <= v.len(),
    ensures
        nats(res@) == rec_spec(nats(v@), begin as int, size as nat, r@),
    decreases size,
{
    if size == 1 {
        let mut out: Vec<BigNat> = Vec::new();
        out.push(v[begin].dup());
        proof {
            assert(nats(out@) =~= rec_spec(nats(v@), begin as int, 1, r@));
        }
        return out;
    }
    let w_next = crate::gf::mul(r, r);
    let half = size / 2;
    let v0_b = _fft_rec(v, begin, half, &w_next);
    let v1_b = _fft_rec(v, begin + half, half, &w_next);
    let ghost e = nats(v0_b@);
    let ghost o = nats(v1_b@);

    let mut v1_c: Vec<BigNat> = Vec::new();
    let mut w = BigNat::from_u64(1);
    let mut i: usize = 0;
    proof {
        lemma_pow_mod_step(r@, 0);
    }
    while i < v1_b.len()
        invariant
            o == nats(v1_b@),
            i <= v1_b.len(),
            v1_c.len() == i,
            w@ == pow_mod(r@, i as nat),
            forall|j: int| 0 <= j < i ==> #[trigger] v1_c@[j]@ == (o[j] * pow_mod(r@, j as nat)) % modulus(),
        decreases v1_b.len() - i,
    {
        let value = crate::gf::mul(&v1_b[i], &w);
        v1_c.push(value);
        proof {
            lemma_pow_mod_step(r@, i as nat);
        }
        w = crate::gf::mul(&w, r);
        i = i + 1;
    }

    let m = if v0_b.len() < v1_c.len() { v0_b.len() } else { v1_c.len() };
    let mut v0_d: Vec<BigNat> = Vec::new();
    let mut v1_d: Vec<BigNat> = Vec::new();
    let mut j: usize = 0;
    while j < m
        invariant
            e == nats(v0_b@),
            o == nats(v1_b@),
            m <= v0_b.len(),
            m <= v1_c.len(),
            v1_c.len() == v1_b.len(),
            forall|k: int| 0 <= k < v1_c.len() ==> #[trigger] v1_c@[k]@ == (o[k] * pow_mod(r@, k as nat)) % modulus(),
            j <= m,
            v0_d.len() == j,
            v1_d.len() == j,
            forall|k: int| 0 <= k < j ==> #[trigger] v0_d@[k]@ == (e[k] + (o[k] * pow_mod(r@, k as nat)) % modulus()) % modulus(),
            forall|k: int| 0 <= k < j ==> #[trigger] v1_d@[k]@ == sub_spec(e[k], (o[k] * pow_mod(r@, k as nat)) % modulus()),
        decreases m - j,
    {
        v0_d.push(crate::gf::add(&v0_b[j], &v1_c[j]));
        v1_d.push(crate::gf::sub(&v0_b[j], &v1_c[j]));
        j = j + 1;
    }
    v0_d.append(&mut v1_d);
    proof {
        assert(nats(v0_d@) =~= butterfly(e, o, r@));
    }
    v0_d
}

/// The transform of `v` with the root of unity `w(v.len())`: for a length
/// that is a power of two, `v` evaluated at the powers of that root.
pub fn fft(v: &Vec<BigNat>) -> (r: Vec<BigNat>)
    requires
        fft_len_ok(v.len() as nat),
    ensures
        nats(r@) == fft_spec(nats(v@)),
        ntt_size(v.len() as nat) && all_below(nats(v@), modulus()) ==> nats(r@) == dft(
            nats(v@),
            w_spec(v.len() as nat),
        ),
{
    proof {
        if ntt_size(v.len() as nat) && all_below(nats(v@), modulus()) {
            let k = choose|k: nat| k <= 28 && v.len() == #[trigger] pow2(k);
            lemma_fft_is_dft(nats(v@), k);
        }
    }
    let w = crate::gf::w(v.len());
    let v_sh = _shuffle(v);
    proof {
        assert(nats(v_sh@).len() == v.len());
    }
    _fft_rec(&v_sh, 0, v.len(), &w)
}

/// The inverse transform: the transform with the inverse root, scaled by
/// the inverse of the length.
pub fn ifft(v: &Vec<BigNat>) -> (r: Vec<BigNat>)
    requires
        fft_len_ok(v.len() as nat),
        ntt_size(v.len() as nat) || (has_inverse(w_spec(v.len() as nat)) && has_inverse(v.len() as nat)),
    ensures
        nats(r@) == ifft_spec(nats(v@)),
        ntt_size(v.len() as nat) && all_below(nats(v@), modulus()) ==> {
            &&& all_below(nats(r@), modulus())
            &&& dft(nats(r@), w_spec(v.len() as nat)) == nats(v@)
        },
{
    let n = v.len();
    proof {
        if ntt_size(n as nat) {
            let k = choose|k: nat| k <= 28 && n == #[trigger] pow2(k);
            lemma_w_inverse(k);
        }
    }
    let w = crate::gf::w(n);
    let w_inv = crate::gf::inv(&w);
    let v_sh = _shuffle(v);
    proof {
        assert(nats(v_sh@).len() == n);
    }
    let v_res = _fft_rec(&v_sh, 0, n, &w_inv);
    let i = crate::gf::inv(&BigNat::from_u64(n as u64));
    let ghost y = nats(v_res@);
    let mut out: Vec<BigNat> = Vec::new();
    let mut k: usize = 0;
    while k < v_res.len()
        invariant
            y == nats(v_res@),
            i@ == inv_spec(n as nat),
            k <= v_res.len(),
            out.len() == k,
            forall|j: int| 0 <= j < k ==> #[trigger] out@[j]@ == (y[j] * inv_spec(n as nat)) % modulus(),
        decreases v_res.len() - k,
    {
        out.push(crate::gf::mul(&v_res[k], &i));
        k = k + 1;
    }
    proof {
        assert(nats(out@) =~= ifft_spec(nats(v@)));
        if ntt_size(n as nat) && all_below(nats(v@), modulus()) {
            let k = choose|k: nat| k <= 28 && n == #[trigger] pow2(k);
            lemma_fft_of_ifft(nats(v@), k);
            lemma_fft_is_dft(nats(out@), k);
        }
    }
    out
}

} // verus!
