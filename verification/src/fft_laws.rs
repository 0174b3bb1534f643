//! What the transform computes: for a power-of-two length up to 2^28 and
//! reduced inputs, `fft` evaluates the input polynomial at the powers of
//! the root of unity `w(n)` (the discrete Fourier transform), and `ifft`
//! undoes it.

use crate::bignat::all_below;
use crate::fft::{
    butterfly, fft_spec, ifft_spec, lemma_rev_bits_step, pow_mod, rec_spec, rev_bits, shuffle_spec,
    trailing_zeros,
};
use crate::gf::{has_inverse, inv_spec, is_inverse, modulus, sub_spec, w_spec, lemma_inverse_unique};
use crate::roots::{lemma_five_half_order, odd_part as odd_factor};
use crate::poly_math::{
    evens, ints, lemma_eval_congruent_coeffs, lemma_eval_congruent_point, lemma_eval_split,
    lemma_eval_linear, lemma_interpolation, lemma_mod_neg_shift, lemma_pow_minus_one, lemma_mod_sum_prod, odds, poly_eval, root_pair,
};
use vstd::arithmetic::div_mod::*;
use vstd::arithmetic::mul::*;
use vstd::arithmetic::power::*;
use vstd::arithmetic::power2::*;
use vstd::prelude::*;

verus! {

/// The values of the polynomial `c` at `r^0, ..., r^(n-1)` (`n` the length
/// of `c`), reduced modulo the field's modulus.
pub open spec fn dft(c: Seq<nat>, r: nat) -> Seq<nat> {
    Seq::new(c.len(), |j: int| (poly_eval(ints(c), pow(r as int, j as nat)) % (modulus() as int)) as nat)
}

/// Reversing bits depends only on the bits reversed.
pub proof fn lemma_rev_bits_low(x: nat, k: nat)
    ensures
        rev_bits(x, k) == rev_bits(x % pow2(k), k),
    decreases k,
{
    if k > 0 {
        lemma_pow2_unfold(k);
        lemma_pow2_pos((k - 1) as nat);
        lemma_mod_breakdown(x as int, 2, pow2((k - 1) as nat) as int);
        let y = x % pow2(k);
        assert(y == 2 * ((x / 2) % pow2((k - 1) as nat)) + x % 2);
        assert(y / 2 == (x / 2) % pow2((k - 1) as nat));
        assert(y % 2 == x % 2);
        lemma_rev_bits_low(x / 2, (k - 1) as nat);
    } else {
        lemma2_to64();
    }
}

/// The top one of `k` bits becomes the lowest when reversed.
pub proof fn lemma_rev_bits_top(i: nat, k: nat)
    requires
        k >= 1,
        i < pow2((k - 1) as nat),
    ensures
        rev_bits(i, k) == 2 * rev_bits(i, (k - 1) as nat),
        rev_bits(pow2((k - 1) as nat) + i, k) == 2 * rev_bits(i, (k - 1) as nat) + 1,
{
    let h = pow2((k - 1) as nat);
    lemma_pow2_pos((k - 1) as nat);
    lemma_rev_bits_step(i, (k - 1) as nat);
    lemma_rev_bits_step(h + i, (k - 1) as nat);
    assert(i / h == 0) by {
        lemma_basic_div(i as int, h as int);
    }
    assert((h + i) / h == 1) by {
        lemma_div_multiples_vanish_fancy(1, i as int, h as int);
    }
    lemma_rev_bits_low(h + i, (k - 1) as nat);
    lemma_mod_multiples_vanish(1, i as int, h as int);
    lemma_small_mod(i, h);
}

/// `sub_spec` on reduced values is subtraction modulo the field's modulus.
pub proof fn lemma_sub_spec_reduced(e: nat, c: nat)
    requires
        e < modulus(),
        c < modulus(),
    ensures
        sub_spec(e, c) == (e - c) % (modulus() as int),
{
    let m = modulus() as int;
    if e < c {
        lemma_mod_add_multiples_vanish(e - c, m);
        lemma_small_mod((e - c + m) as nat, m as nat);
    } else {
        lemma_small_mod((e - c) as nat, m as nat);
    }
}

/// The coefficients of `y` at even positions.
pub open spec fn even_part(y: Seq<nat>) -> Seq<nat> {
    Seq::new(y.len() / 2, |i: int| y[2 * i])
}

/// The coefficients of `y` at odd positions.
pub open spec fn odd_part(y: Seq<nat>) -> Seq<nat> {
    Seq::new(y.len() / 2, |i: int| y[2 * i + 1])
}

/// `(r * r mod q)^j` is congruent to `(r^j)^2`.
proof fn lemma_square_root_power(r: nat, j: nat)
    ensures
        pow(((r * r) % modulus()) as int, j) % (modulus() as int) == (pow(r as int, j) * pow(r as int, j)) % (modulus() as int),
{
    let m = modulus() as int;
    lemma_pow_mod_noop((r * r) as int, j, m);
    lemma_square_is_pow2(r as int);
    lemma_pow_multiplies(r as int, 2, j);
    lemma_pow_adds(r as int, j, j);
    assert(2 * j == j + j);
}

/// The first half of a butterfly of the transforms of the even and odd
/// parts is the first half of the transform.
proof fn lemma_butterfly_low(y: Seq<nat>, r: nat, j: nat)
    requires
        y.len() % 2 == 0,
        j < y.len() / 2,
    ensures
        butterfly(dft(even_part(y), (r * r) % modulus()), dft(odd_part(y), (r * r) % modulus()), r)[j as int]
            == dft(y, r)[j as int],
{
    let m = modulus() as int;
    let r2 = (r * r) % modulus();
    let ev = even_part(y);
    let od = odd_part(y);
    let x = pow(r as int, j);
    assert(ints(ev) =~= evens(ints(y)));
    assert(ints(od) =~= odds(ints(y)));
    lemma_square_root_power(r, j);
    lemma_eval_congruent_point(ints(ev), pow(r2 as int, j), x * x, m);
    lemma_eval_congruent_point(ints(od), pow(r2 as int, j), x * x, m);
    lemma_eval_split(ints(y), x);
    let a = poly_eval(ints(ev), x * x);
    let b = poly_eval(ints(od), x * x);
    lemma_mod_sum_prod(a, b, x, m);
}

/// The second half of a butterfly is the second half of the transform,
/// when `r^(n/2)` is -1.
proof fn lemma_butterfly_high(y: Seq<nat>, r: nat, j: nat)
    requires
        y.len() % 2 == 0,
        j < y.len() / 2,
        pow(r as int, y.len() / 2) % (modulus() as int) == modulus() - 1,
    ensures
        butterfly(dft(even_part(y), (r * r) % modulus()), dft(odd_part(y), (r * r) % modulus()), r)[(y.len() / 2 + j) as int]
            == dft(y, r)[(y.len() / 2 + j) as int],
{
    let m = modulus() as int;
    let h = y.len() / 2;
    let r2 = (r * r) % modulus();
    let ev = even_part(y);
    let od = odd_part(y);
    let x = pow(r as int, j);
    let p = pow(r as int, h);
    let big_x = pow(r as int, h + j);
    lemma_pow_adds(r as int, h, j);
    assert(big_x == p * x);
    assert(ints(ev) =~= evens(ints(y)));
    assert(ints(od) =~= odds(ints(y)));
    // X^2 is congruent to x^2
    assert(big_x * big_x == (p * p) * (x * x)) by (nonlinear_arith)
        requires big_x == p * x;
    lemma_mul_mod_noop(p, p, m);
    assert((m - 1) * (m - 1) == m * (m - 2) + 1) by (nonlinear_arith);
    lemma_mod_multiples_vanish(m - 2, 1, m);
    lemma_small_mod(1, m as nat);
    assert((p * p) % m == 1);
    lemma_mul_mod_noop_left(p * p, x * x, m);
    assert((big_x * big_x) % m == (x * x) % m);
    // X is congruent to -x
    lemma_mul_mod_noop_left(p, x, m);
    assert(big_x % m == ((m - 1) * x) % m);
    lemma_square_root_power(r, j);
    lemma_eval_congruent_point(ints(ev), pow(r2 as int, j), x * x, m);
    lemma_eval_congruent_point(ints(od), pow(r2 as int, j), x * x, m);
    lemma_eval_congruent_point(ints(ev), big_x * big_x, x * x, m);
    lemma_eval_congruent_point(ints(od), big_x * big_x, x * x, m);
    lemma_eval_split(ints(y), big_x);
    let a = poly_eval(ints(ev), big_x * big_x);
    let b = poly_eval(ints(od), big_x * big_x);
    lemma_mod_neg_shift(a, b, big_x, x, m);
    let e = dft(ev, r2)[j as int];
    let c = (dft(od, r2)[j as int] * pow_mod(r, j)) % modulus();
    lemma_sub_spec_reduced(e, c);
}

/// The recursive transform of a bit-reversed block of length `2^k` is the
/// discrete Fourier transform of the block in natural order, when `r` is a
/// root of unity of order `2^k` (its half power being -1).
pub proof fn lemma_rec_is_dft(u: Seq<nat>, b: int, k: nat, y: Seq<nat>, r: nat)
    requires
        0 <= b,
        b + pow2(k) <= u.len(),
        y.len() == pow2(k),
        all_below(y, modulus()),
        forall|i: int| 0 <= i < pow2(k) ==> u[b + i] == y[#[trigger] rev_bits(i as nat, k) as int],
        k >= 1 ==> pow(r as int, pow2((k - 1) as nat)) % (modulus() as int) == modulus() - 1,
    ensures
        rec_spec(u, b, pow2(k), r) == dft(y, r),
    decreases k,
{
    let m = modulus() as int;
    let n = pow2(k);
    if k == 0 {
        lemma2_to64();
        assert(u[b] == y[0]) by {
            let z: int = 0;
            assert(rev_bits(z as nat, k) == 0);
            assert(u[b + z] == y[rev_bits(z as nat, k) as int]);
        }
        assert(poly_eval(ints(y), pow(r as int, 0)) == y[0]) by {
            lemma_pow0(r as int);
            assert(ints(y).skip(1).len() == 0);
            assert(poly_eval(ints(y).skip(1), 1) == 0);
        }
        lemma_small_mod(y[0], modulus());
        assert(rec_spec(u, b, 1, r) =~= dft(y, r));
    } else {
        let h = pow2((k - 1) as nat);
        lemma_pow2_unfold(k);
        lemma_pow2_pos((k - 1) as nat);
        assert(n / 2 == h);
        let r2 = (r * r) % modulus();
        let ev = even_part(y);
        let od = odd_part(y);
        assert forall|i: int| 0 <= i < h implies u[b + i] == ev[#[trigger] rev_bits(i as nat, (k - 1) as nat) as int] by {
            lemma_rev_bits_top(i as nat, k);
            crate::fft::lemma_rev_bits_bound(i as nat, (k - 1) as nat);
        }
        assert forall|i: int| 0 <= i < h implies u[b + h + i] == od[#[trigger] rev_bits(i as nat, (k - 1) as nat) as int] by {
            lemma_rev_bits_top(i as nat, k);
            crate::fft::lemma_rev_bits_bound(i as nat, (k - 1) as nat);
            assert(b + h + i == b + (h + i));
        }
        if k >= 2 {
            lemma_pow2_unfold((k - 1) as nat);
            let p = pow2((k - 2) as nat);
            lemma_square_root_power(r, p);
            lemma_pow_adds(r as int, p, p);
            lemma_pow_mod_noop((r * r) as int, p, m);
        }
        lemma_rec_is_dft(u, b, (k - 1) as nat, ev, r2);
        lemma_rec_is_dft(u, b + h, (k - 1) as nat, od, r2);
        let bf = butterfly(dft(ev, r2), dft(od, r2), r);
        assert(rec_spec(u, b, n, r) == bf);
        assert forall|j: int| 0 <= j < n implies #[trigger] bf[j] == dft(y, r)[j] by {
            if j < h {
                lemma_butterfly_low(y, r, j as nat);
            } else {
                lemma_butterfly_high(y, r, (j - h) as nat);
            }
        }
        assert(bf =~= dft(y, r));
    }
}

/// The lengths the transform is made for: powers of two up to 2^28, the
/// largest power of two dividing `modulus() - 1`.
pub open spec fn ntt_size(n: nat) -> bool {
    exists|k: nat| k <= 28 && n == #[trigger] pow2(k)
}

/// The trailing zeros of `2^k` number `k`.
pub proof fn lemma_trailing_zeros_pow2(k: nat)
    ensures
        trailing_zeros(pow2(k)) == k,
    decreases k,
{
    if k == 0 {
        lemma2_to64();
    } else {
        lemma_pow2_unfold(k);
        lemma_pow2_pos((k - 1) as nat);
        lemma_trailing_zeros_pow2((k - 1) as nat);
        assert(pow2(k) / 2 == pow2((k - 1) as nat));
    }
}

/// `w(2^k)` is a root of unity of order `2^k` whose half power is -1.
pub proof fn lemma_w_root(k: nat)
    requires
        k <= 28,
    ensures
        k >= 1 ==> pow(w_spec(pow2(k)) as int, pow2((k - 1) as nat)) % (modulus() as int) == modulus() - 1,
        pow(w_spec(pow2(k)) as int, pow2(k)) % (modulus() as int) == 1,
{
    let m = modulus() as int;
    let n = pow2(k);
    lemma_five_half_order();
    lemma_pow2_adds(k, (28 - k) as nat);
    assert(k + (28 - k) as nat == 28);
    let f = pow2((28 - k) as nat) * odd_factor();
    lemma_pow2_pos(k);
    assert((modulus() - 1) as nat == n * f) by {
        lemma_mul_is_associative(n as int, pow2((28 - k) as nat) as int, odd_factor() as int);
    }
    lemma_div_multiples_vanish(f as int, n as int);
    assert(((modulus() - 1) as nat / n) as nat == f);
    let e = f;
    let w = w_spec(n);
    assert(w == pow(5, e) % m);
    // (5^e)^(2^(k-1)) = 5^((q-1)/2), and its square is 1
    let half = ((modulus() - 1) / 2) as nat;
    lemma_mul_mod_noop(m - 1, m - 1, m);
    assert((m - 1) * (m - 1) == m * (m - 2) + 1) by (nonlinear_arith);
    lemma_mod_multiples_vanish(m - 2, 1, m);
    lemma_small_mod(1, m as nat);
    if k >= 1 {
        let h = pow2((k - 1) as nat);
        lemma_pow2_unfold(k);
        lemma_pow2_adds((k - 1) as nat, (28 - k) as nat);
        lemma_pow2_unfold(28);
        assert((k - 1) as nat + (28 - k) as nat == 27);
        assert(e * h == half) by {
            lemma_mul_is_associative(pow2((28 - k) as nat) as int, odd_factor() as int, h as int);
            lemma_mul_is_commutative(odd_factor() as int, h as int);
            lemma_mul_is_associative(pow2((28 - k) as nat) as int, h as int, odd_factor() as int);
            lemma_mul_is_commutative(pow2((28 - k) as nat) as int, h as int);
            lemma_mul_is_associative(2, pow2(27) as int, odd_factor() as int);
        }
        lemma_pow_mod_noop(pow(5, e), h, m);
        lemma_pow_multiplies(5, e, h);
        assert(pow(w as int, h) % m == m - 1);
        lemma_pow_adds(w as int, h, h);
        lemma_mul_mod_noop(pow(w as int, h), pow(w as int, h), m);
    } else {
        lemma2_to64();
        lemma_pow1(w as int);
        assert(e == (modulus() - 1) as nat);
        lemma_pow_adds(5, half, half);
        lemma_mul_mod_noop(pow(5, half), pow(5, half), m);
        assert(half + half == e);
        lemma_mod_twice(pow(5, e), m);
    }
}

/// `w(2^k)` has an inverse, its `(2^k - 1)`-th power; the length `2^k` has
/// one too.
pub proof fn lemma_w_inverse(k: nat)
    requires
        k <= 28,
    ensures
        has_inverse(w_spec(pow2(k))),
        inv_spec(w_spec(pow2(k))) == pow(w_spec(pow2(k)) as int, (pow2(k) - 1) as nat) % (modulus() as int),
        has_inverse(pow2(k)),
{
    let m = modulus() as int;
    let n = pow2(k);
    let w = w_spec(n);
    lemma_w_root(k);
    lemma_pow2_pos(k);
    let x = (pow(w as int, (n - 1) as nat) % m) as nat;
    lemma_pow_adds(w as int, 1, (n - 1) as nat);
    lemma_pow1(w as int);
    assert(1 + (n - 1) as nat == n);
    lemma_mul_mod_noop_right(w as int, pow(w as int, (n - 1) as nat), m);
    assert(is_inverse(w, x));
    assert(has_inverse(w));
    lemma_inverse_unique(w, x, inv_spec(w));
    // the inverse of 2^k is ((q + 1) / 2)^k
    let hinv = ((modulus() + 1) / 2) as int;
    assert(2 * hinv == m + 1);
    let y = (pow(hinv, k) % m) as nat;
    lemma_pow2(k);
    lemma_pow_distributes(2, hinv, k);
    lemma_pow_mod_noop(m + 1, k, m);
    lemma_mod_add_multiples_vanish(1, m);
    lemma_small_mod(1, m as nat);
    lemma1_pow(k);
    lemma_mul_mod_noop_right(n as int, pow(hinv, k), m);
    assert(is_inverse(n, y));
}

/// `w(2^k)` and its inverse form root pairs both ways.
pub proof fn lemma_w_root_pairs(k: nat)
    requires
        k <= 28,
    ensures
        root_pair(w_spec(pow2(k)) as int, inv_spec(w_spec(pow2(k))) as int, k, modulus() as int),
        root_pair(inv_spec(w_spec(pow2(k))) as int, w_spec(pow2(k)) as int, k, modulus() as int),
        k >= 1 ==> pow(inv_spec(w_spec(pow2(k))) as int, pow2((k - 1) as nat)) % (modulus() as int) == modulus() - 1,
{
    let m = modulus() as int;
    let n = pow2(k);
    let w = w_spec(n) as int;
    let wi = inv_spec(w_spec(n)) as int;
    lemma_w_root(k);
    lemma_w_inverse(k);
    lemma_pow2_pos(k);
    lemma_small_mod(wi as nat, m as nat);
    assert(wi % m == pow(w, (n - 1) as nat) % m) by {
        lemma_mod_twice(pow(w, (n - 1) as nat), m);
    }
    if k >= 1 {
        let h = pow2((k - 1) as nat);
        lemma_pow2_unfold(k);
        // wi^h is congruent to w^((n-1) h) = (w^h)^(n-1), that is (-1)^(n-1) = -1
        lemma_pow_mod_noop(wi, h, m);
        lemma_pow_mod_noop(pow(w, (n - 1) as nat), h, m);
        lemma_pow_multiplies(w, (n - 1) as nat, h);
        lemma_pow_multiplies(w, h, (n - 1) as nat);
        lemma_mul_is_commutative((n - 1) as int, h as int);
        lemma_pow_mod_noop(pow(w, h), (n - 1) as nat, m);
        lemma_pow_minus_one(m, (n - 1) as nat);
        assert((n - 1) as nat % 2 == 1);
        assert(pow(wi, h) % m == m - 1);
        // wi^(n-1) is congruent to w^((n-1)^2) = (w^n)^(n-2) * w, that is w
        lemma_pow_mod_noop(wi, (n - 1) as nat, m);
        lemma_pow_mod_noop(pow(w, (n - 1) as nat), (n - 1) as nat, m);
        lemma_pow_multiplies(w, (n - 1) as nat, (n - 1) as nat);
        let e2 = ((n - 1) * (n - 1)) as nat;
        assert(e2 == n * (n - 2) as nat + 1) by (nonlinear_arith)
            requires n >= 2, e2 == (n - 1) * (n - 1);
        lemma_pow_adds(w, n * (n - 2) as nat, 1);
        lemma_pow_multiplies(w, n, (n - 2) as nat);
        lemma_pow1(w);
        lemma_mul_mod_noop_left(pow(pow(w, n), (n - 2) as nat), w, m);
        lemma_pow_mod_noop(pow(w, n), (n - 2) as nat, m);
        lemma1_pow((n - 2) as nat);
        lemma_small_mod(1, m as nat);
        lemma_small_mod(w as nat, m as nat);
        assert(w % m == pow(wi, (n - 1) as nat) % m);
    } else {
        lemma2_to64();
        lemma_pow0(wi);
        lemma_pow1(w);
        lemma_small_mod(w as nat, m as nat);
        lemma_small_mod(1, m as nat);
    }
}

/// For a length `2^k` up to 2^28 and reduced values, `fft` is the discrete
/// Fourier transform at the root of unity `w(2^k)`.
pub proof fn lemma_fft_is_dft(s: Seq<nat>, k: nat)
    requires
        k <= 28,
        s.len() == pow2(k),
        all_below(s, modulus()),
    ensures
        fft_spec(s) == dft(s, w_spec(s.len())),
{
    lemma_trailing_zeros_pow2(k);
    lemma_w_root(k);
    let u = shuffle_spec(s);
    assert forall|i: int| 0 <= i < pow2(k) implies u[0 + i] == s[#[trigger] rev_bits(i as nat, k) as int] by {}
    lemma_rec_is_dft(u, 0, k, s, w_spec(s.len()));
}

/// `(y mod q) * z` is congruent to `(a * n) * z` when `y` is congruent to
/// `a * n`, and is `a` when `z` is the inverse of `n` and `a` is reduced.
proof fn lemma_scale_back(y: int, a: nat, n: nat, z: nat)
    requires
        y % (modulus() as int) == ((a * n) as int) % (modulus() as int),
        a < modulus(),
        is_inverse(n, z),
    ensures
        ((y % (modulus() as int)) * z) % (modulus() as int) == a,
{
    let m = modulus() as int;
    lemma_mul_mod_noop_left((a * n) as int, z as int, m);
    lemma_mul_is_associative(a as int, n as int, z as int);
    lemma_mul_mod_noop_right(a as int, (n * z) as int, m);
    lemma_small_mod(a, m as nat);
}

/// `ifft` recovers a polynomial of length `2^k` (up to 2^28, reduced) from
/// its values at the powers of `w(2^k)`.
pub proof fn lemma_ifft_of_dft(c: Seq<nat>, k: nat)
    requires
        k <= 28,
        c.len() == pow2(k),
        all_below(c, modulus()),
    ensures
        ifft_spec(dft(c, w_spec(c.len()))) == c,
{
    let m = modulus() as int;
    let n = pow2(k);
    let w = w_spec(n);
    let wi = inv_spec(w);
    let x = dft(c, w);
    lemma_w_inverse(k);
    lemma_w_root_pairs(k);
    lemma_trailing_zeros_pow2(k);
    assert forall|i: int| 0 <= i < x.len() implies #[trigger] x[i] < modulus() by {}
    let u = shuffle_spec(x);
    assert forall|i: int| 0 <= i < pow2(k) implies u[0 + i] == x[#[trigger] rev_bits(i as nat, k) as int] by {}
    lemma_rec_is_dft(u, 0, k, x, wi);
    let y = dft(x, wi);
    let ninv = inv_spec(n);
    let out = ifft_spec(x);
    assert forall|j: int| 0 <= j < n implies #[trigger] out[j] == c[j] by {
        assert forall|i: int| 0 <= i < ints(x).len() implies #[trigger] ints(x)[i] % m == poly_eval(ints(c), pow(w as int, i as nat)) % m by {
            lemma_mod_twice(poly_eval(ints(c), pow(w as int, i as nat)), m);
        }
        lemma_interpolation(ints(c), ints(x), w as int, wi as int, k, j as nat, m);
        lemma_scale_back(poly_eval(ints(x), pow(wi as int, j as nat)), c[j], n, ninv);
    }
    assert(out =~= c);
}

/// The transform of what `ifft` returns is its argument, for a length
/// `2^k` up to 2^28 and reduced values.
pub proof fn lemma_fft_of_ifft(x: Seq<nat>, k: nat)
    requires
        k <= 28,
        x.len() == pow2(k),
        all_below(x, modulus()),
    ensures
        ifft_spec(x).len() == x.len(),
        all_below(ifft_spec(x), modulus()),
        fft_spec(ifft_spec(x)) == x,
{
    let m = modulus() as int;
    let n = pow2(k);
    let w = w_spec(n);
    let wi = inv_spec(w);
    lemma_w_inverse(k);
    lemma_w_root_pairs(k);
    lemma_trailing_zeros_pow2(k);
    let u = shuffle_spec(x);
    assert forall|i: int| 0 <= i < pow2(k) implies u[0 + i] == x[#[trigger] rev_bits(i as nat, k) as int] by {}
    lemma_rec_is_dft(u, 0, k, x, wi);
    let y = dft(x, wi);
    let ninv = inv_spec(n);
    let c = ifft_spec(x);
    assert(c.len() == n);
    assert forall|i: int| 0 <= i < c.len() implies #[trigger] c[i] < modulus() by {}
    lemma_fft_is_dft(c, k);
    let scaled = Seq::new(n, |t: int| 0 + ninv * pow(1, t as nat) * ints(y)[t]);
    assert forall|t: int| 0 <= t < n implies #[trigger] ints(c)[t] % m == scaled[t] % m by {
        lemma1_pow(t as nat);
        lemma_mod_twice((y[t] * ninv) as int, m);
        lemma_mul_is_commutative(y[t] as int, ninv as int);
    }
    assert forall|i: int| 0 <= i < n implies #[trigger] dft(c, w)[i] == x[i] by {
        let t = pow(w as int, i as nat);
        lemma_eval_congruent_coeffs(ints(c), scaled, t, m);
        lemma_eval_linear(ints(y), 0, ninv as int, 1, t);
        assert(1 * t == t);
        assert forall|l: int| 0 <= l < ints(y).len() implies #[trigger] ints(y)[l] % m == poly_eval(ints(x), pow(wi as int, l as nat)) % m by {
            lemma_mod_twice(poly_eval(ints(x), pow(wi as int, l as nat)), m);
        }
        lemma_interpolation(ints(x), ints(y), wi as int, w as int, k, i as nat, m);
        let ey = poly_eval(ints(y), t);
        lemma_mul_mod_noop_right(ninv as int, ey, m);
        lemma_mul_mod_noop_right(ninv as int, (x[i] * n) as int, m);
        lemma_mul_is_commutative(ninv as int, (x[i] * n) as int);
        lemma_scale_back((x[i] * n) as int, x[i], n, ninv);
        lemma_small_mod((x[i] * n) as nat % m as nat, m as nat);
        lemma_mod_twice((x[i] * n) as int, m);
        lemma_mul_mod_noop_left((x[i] * n) as int, ninv as int, m);
    }
    assert(fft_spec(c) =~= x);
}

/// The recursive transform of a block of length `2^k` has length `2^k`.
pub proof fn lemma_rec_len(u: Seq<nat>, b: int, k: nat, r: nat)
    ensures
        rec_spec(u, b, pow2(k), r).len() == pow2(k),
    decreases k,
{
    if k == 0 {
        lemma2_to64();
    } else {
        lemma_pow2_unfold(k);
        lemma_pow2_pos((k - 1) as nat);
        let h = pow2((k - 1) as nat);
        assert(pow2(k) / 2 == h);
        lemma_rec_len(u, b, (k - 1) as nat, (r * r) % modulus());
        lemma_rec_len(u, b + h, (k - 1) as nat, (r * r) % modulus());
    }
}

/// Powers of two are lengths that `fft` accepts.
pub proof fn lemma_pow2_fft_len_ok(k: nat)
    ensures
        crate::fft::fft_len_ok(pow2(k)),
{
    if k == 0 {
        lemma2_to64();
    } else {
        lemma_pow2_unfold(k);
        lemma_pow2_pos((k - 1) as nat);
    }
}

/// Reversing the low `k` bits twice gives back a `k`-bit value: `bit_inv`
/// is its own inverse.
pub proof fn lemma_rev_bits_involution(x: nat, k: nat)
    requires
        x < pow2(k),
    ensures
        rev_bits(rev_bits(x, k), k) == x,
    decreases k,
{
    if k == 0 {
        lemma2_to64();
    } else {
        let h = pow2((k - 1) as nat);
        lemma_pow2_unfold(k);
        lemma_rev_bits_involution(x / 2, (k - 1) as nat);
        crate::fft::lemma_rev_bits_bound(x / 2, (k - 1) as nat);
        let r = rev_bits(x / 2, (k - 1) as nat);
        lemma_rev_bits_top(r, k);
        if x % 2 == 0 {
            assert((x % 2) * h == 0);
            assert(rev_bits(x, k) == r);
        } else {
            assert((x % 2) * h == h);
            assert(rev_bits(x, k) == h + r);
        }
    }
}

/// Shuffling twice gives back a sequence whose length is a power of two.
pub proof fn lemma_shuffle_involution(s: Seq<nat>, k: nat)
    requires
        s.len() == pow2(k),
    ensures
        shuffle_spec(shuffle_spec(s)) == s,
{
    lemma_trailing_zeros_pow2(k);
    assert forall|i: int| 0 <= i < s.len() implies #[trigger] shuffle_spec(shuffle_spec(s))[i] == s[i] by {
        crate::fft::lemma_rev_bits_bound(i as nat, k);
        lemma_rev_bits_involution(i as nat, k);
    }
    assert(shuffle_spec(shuffle_spec(s)) =~= s);
}

/// The all-zero polynomial is 0 everywhere.
pub proof fn lemma_eval_zeros(n: nat, x: int)
    ensures
        poly_eval(ints(Seq::new(n, |j: int| 0nat)), x) == 0,
    decreases n,
{
    let z = ints(Seq::new(n, |j: int| 0nat));
    if n > 0 {
        lemma_eval_zeros((n - 1) as nat, x);
        assert(z.skip(1) =~= ints(Seq::new((n - 1) as nat, |j: int| 0nat)));
        assert(x * 0 == 0);
    }
}

/// A reduced polynomial of length `2^k` (`k <= 28`) that vanishes at every
/// power of the root of unity `w(2^k)` is zero.
pub proof fn lemma_vanishing_is_zero(c: Seq<nat>, k: nat)
    requires
        k <= 28,
        c.len() == pow2(k),
        all_below(c, modulus()),
        forall|i: int| 0 <= i < c.len() ==> #[trigger] dft(c, w_spec(c.len()))[i] == 0,
    ensures
        c == Seq::new(c.len(), |j: int| 0nat),
{
    let n = c.len();
    let w = w_spec(n);
    let z = Seq::new(n, |j: int| 0nat);
    assert forall|i: int| 0 <= i < n implies #[trigger] dft(z, w)[i] == 0 by {
        lemma_eval_zeros(n, pow(w as int, i as nat));
    }
    assert(dft(c, w) =~= dft(z, w));
    lemma_ifft_of_dft(c, k);
    lemma_ifft_of_dft(z, k);
}

/// `sub_spec` is subtraction modulo the field's modulus, whatever its first
/// argument, when the second is reduced.
proof fn lemma_sub_spec_mod(e: nat, c: nat)
    requires
        c < modulus(),
    ensures
        sub_spec(e, c) % modulus() == (e - c) % (modulus() as int),
{
    let m = modulus() as int;
    if e < c {
        lemma_mod_add_multiples_vanish(e - c, m);
    }
}

/// The transform of inputs congruent modulo the field's modulus gives
/// outputs congruent modulo it, position by position.
pub proof fn lemma_rec_congruent(u: Seq<nat>, u2: Seq<nat>, b: int, k: nat, r: nat)
    requires
        0 <= b,
        b + pow2(k) <= u.len(),
        u2.len() == u.len(),
        forall|i: int| b <= i < b + pow2(k) ==> #[trigger] u[i] % modulus() == u2[i] % modulus(),
    ensures
        rec_spec(u, b, pow2(k), r).len() == pow2(k),
        rec_spec(u2, b, pow2(k), r).len() == pow2(k),
        forall|j: int| 0 <= j < pow2(k) ==> #[trigger] rec_spec(u, b, pow2(k), r)[j] % modulus()
            == rec_spec(u2, b, pow2(k), r)[j] % modulus(),
    decreases k,
{
    let m = modulus() as int;
    lemma_rec_len(u, b, k, r);
    lemma_rec_len(u2, b, k, r);
    if k == 0 {
        lemma2_to64();
        assert(u[b + 0] % modulus() == u2[b + 0] % modulus());
    } else {
        lemma_pow2_unfold(k);
        lemma_pow2_pos((k - 1) as nat);
        let h = pow2((k - 1) as nat);
        assert(pow2(k) / 2 == h);
        let r2 = (r * r) % modulus();
        lemma_rec_congruent(u, u2, b, (k - 1) as nat, r2);
        lemma_rec_congruent(u, u2, b + h, (k - 1) as nat, r2);
        let e = rec_spec(u, b, h, r2);
        let o = rec_spec(u, b + h, h, r2);
        let e2 = rec_spec(u2, b, h, r2);
        let o2 = rec_spec(u2, b + h, h, r2);
        let x = rec_spec(u, b, pow2(k), r);
        let x2 = rec_spec(u2, b, pow2(k), r);
        assert(x == butterfly(e, o, r));
        assert(x2 == butterfly(e2, o2, r));
        assert forall|j: int| 0 <= j < pow2(k) implies #[trigger] x[j] % modulus() == x2[j] % modulus() by {
            let i = if j < h { j } else { j - h };
            let p = pow_mod(r, i as nat);
            let c = (o[i] * p) % modulus();
            let c2 = (o2[i] * p) % modulus();
            lemma_mul_mod_noop_left(o[i] as int, p as int, m);
            lemma_mul_mod_noop_left(o2[i] as int, p as int, m);
            assert(c == c2);
            if j < h {
                lemma_add_mod_noop(e[i] as int, c as int, m);
                lemma_add_mod_noop(e2[i] as int, c as int, m);
                lemma_mod_twice((e[i] + c) as int, m);
                lemma_mod_twice((e2[i] + c) as int, m);
            } else {
                lemma_sub_spec_mod(e[i], c);
                lemma_sub_spec_mod(e2[i], c);
                lemma_sub_mod_noop(e[i] as int, c as int, m);
                lemma_sub_mod_noop(e2[i] as int, c as int, m);
            }
        }
    }
}

/// The transforms of sequences congruent modulo the field's modulus are
/// congruent, position by position.
pub proof fn lemma_fft_congruent(s: Seq<nat>, s2: Seq<nat>, k: nat)
    requires
        s.len() == pow2(k),
        s2.len() == s.len(),
        forall|i: int| 0 <= i < s.len() ==> #[trigger] s[i] % modulus() == s2[i] % modulus(),
    ensures
        fft_spec(s).len() == s.len(),
        fft_spec(s2).len() == s.len(),
        forall|j: int| 0 <= j < s.len() ==> #[trigger] fft_spec(s)[j] % modulus() == fft_spec(s2)[j] % modulus(),
{
    lemma_trailing_zeros_pow2(k);
    let u = shuffle_spec(s);
    let u2 = shuffle_spec(s2);
    assert forall|i: int| 0 <= i < pow2(k) implies #[trigger] u[i] % modulus() == u2[i] % modulus() by {
        crate::fft::lemma_rev_bits_bound(i as nat, k);
    }
    lemma_rec_congruent(u, u2, 0, k, w_spec(s.len()));
}

} // verus!
