//! Polynomials as coefficient sequences (lowest degree first), their
//! evaluation, and the facts about evaluation that the transform's laws
//! rest on.

use vstd::arithmetic::div_mod::*;
use vstd::arithmetic::mul::*;
use vstd::arithmetic::power::*;
use vstd::arithmetic::power2::*;
use vstd::prelude::*;

verus! {

/// The natural numbers of `s` as integers.
pub open spec fn ints(s: Seq<nat>) -> Seq<int> {
    Seq::new(s.len(), |i: int| s[i] as int)
}

/// The polynomial with coefficients `c` (lowest degree first) at `x`.
pub open spec fn poly_eval(c: Seq<int>, x: int) -> int
    decreases c.len(),
{
    if c.len() == 0 {
        0
    } else {
        c[0] + x * poly_eval(c.skip(1), x)
    }
}

/// `1 + x + ... + x^(n-1)`.
pub open spec fn geom(x: int, n: nat) -> int
    decreases n,
{
    if n == 0 {
        0
    } else {
        1 + x * geom(x, (n - 1) as nat)
    }
}

/// The coefficients at even positions.
pub open spec fn evens(y: Seq<int>) -> Seq<int> {
    Seq::new(y.len() / 2, |i: int| y[2 * i])
}

/// The coefficients at odd positions.
pub open spec fn odds(y: Seq<int>) -> Seq<int> {
    Seq::new(y.len() / 2, |i: int| y[2 * i + 1])
}

/// A polynomial of even length splits into its even and odd parts:
/// `y(x) = evens(y)(x^2) + x * odds(y)(x^2)`.
pub proof fn lemma_eval_split(y: Seq<int>, x: int)
    requires
        y.len() % 2 == 0,
    ensures
        poly_eval(y, x) == poly_eval(evens(y), x * x) + x * poly_eval(odds(y), x * x),
    decreases y.len(),
{
    if y.len() > 0 {
        let r = y.skip(2);
        lemma_eval_split(r, x);
        assert(evens(y).skip(1) =~= evens(r));
        assert(odds(y).skip(1) =~= odds(r));
        assert(y.skip(1).skip(1) =~= r);
        let er = poly_eval(evens(r), x * x);
        let or = poly_eval(odds(r), x * x);
        let y0 = y[0];
        let y1 = y[1];
        assert(poly_eval(y.skip(1), x) == y1 + x * poly_eval(r, x));
        assert(poly_eval(y, x) == y0 + x * (y1 + x * poly_eval(r, x)));
        assert(poly_eval(evens(y), x * x) == y0 + (x * x) * er);
        assert(poly_eval(odds(y), x * x) == y1 + (x * x) * or);
        assert(y0 + x * (y1 + x * (er + x * or)) == (y0 + (x * x) * er) + x * (y1 + (x * x) * or))
            by (nonlinear_arith);
    }
}

/// Evaluation respects congruence of the coefficients.
pub proof fn lemma_eval_congruent_coeffs(c: Seq<int>, d: Seq<int>, x: int, m: int)
    requires
        m > 0,
        c.len() == d.len(),
        forall|i: int| 0 <= i < c.len() ==> #[trigger] c[i] % m == d[i] % m,
    ensures
        poly_eval(c, x) % m == poly_eval(d, x) % m,
    decreases c.len(),
{
    if c.len() > 0 {
        lemma_eval_congruent_coeffs(c.skip(1), d.skip(1), x, m);
        let ec = poly_eval(c.skip(1), x);
        let ed = poly_eval(d.skip(1), x);
        lemma_mul_mod_noop_right(x, ec, m);
        lemma_mul_mod_noop_right(x, ed, m);
        lemma_add_mod_noop(c[0], x * ec, m);
        lemma_add_mod_noop(d[0], x * ed, m);
        assert(c[0] % m == d[0] % m);
    }
}

/// Evaluation respects congruence of the point.
pub proof fn lemma_eval_congruent_point(c: Seq<int>, x: int, y: int, m: int)
    requires
        m > 0,
        x % m == y % m,
    ensures
        poly_eval(c, x) % m == poly_eval(c, y) % m,
    decreases c.len(),
{
    if c.len() > 0 {
        lemma_eval_congruent_point(c.skip(1), x, y, m);
        let e = poly_eval(c.skip(1), x);
        let f = poly_eval(c.skip(1), y);
        lemma_mul_mod_noop_general(x, e, m);
        lemma_mul_mod_noop_general(y, f, m);
        lemma_add_mod_noop_right(c[0], x * e, m);
        lemma_add_mod_noop_right(c[0], y * f, m);
    }
}

/// `geom` respects congruence of the point.
pub proof fn lemma_geom_congruent(x: int, y: int, n: nat, m: int)
    requires
        m > 0,
        x % m == y % m,
    ensures
        geom(x, n) % m == geom(y, n) % m,
    decreases n,
{
    if n > 0 {
        lemma_geom_congruent(x, y, (n - 1) as nat, m);
        let e = geom(x, (n - 1) as nat);
        let f = geom(y, (n - 1) as nat);
        lemma_mul_mod_noop_general(x, e, m);
        lemma_mul_mod_noop_general(y, f, m);
        lemma_add_mod_noop_right(1, x * e, m);
        lemma_add_mod_noop_right(1, y * f, m);
    }
}

/// `geom(x, a + b) == geom(x, a) + x^a * geom(x, b)`.
pub proof fn lemma_geom_adds(x: int, a: nat, b: nat)
    ensures
        geom(x, a + b) == geom(x, a) + pow(x, a) * geom(x, b),
    decreases a,
{
    reveal(pow);
    if a == 0 {
        assert(pow(x, 0) == 1);
    } else {
        lemma_geom_adds(x, (a - 1) as nat, b);
        assert((a - 1 + b) as nat == (a + b - 1) as nat);
        let g = geom(x, (a - 1) as nat);
        let p = pow(x, (a - 1) as nat);
        let gb = geom(x, b);
        assert(pow(x, a) == x * p);
        assert(1 + x * (g + p * gb) == (1 + x * g) + (x * p) * gb) by (nonlinear_arith);
    }
}

/// Evaluating `c0 + d a^k H[k]` at `t` is `c0 geom(t, n)` plus `d` times
/// `H` evaluated at `a t`.
pub proof fn lemma_eval_linear(h: Seq<int>, c0: int, d: int, a: int, t: int)
    ensures
        poly_eval(Seq::new(h.len(), |k: int| c0 + d * pow(a, k as nat) * h[k]), t)
            == c0 * geom(t, h.len()) + d * poly_eval(h, a * t),
    decreases h.len(),
{
    let n = h.len();
    let s = Seq::new(n, |k: int| c0 + d * pow(a, k as nat) * h[k]);
    if n > 0 {
        let h1 = h.skip(1);
        let da = d * a;
        lemma_eval_linear(h1, c0, da, a, t);
        let s1 = Seq::new(h1.len(), |k: int| c0 + da * pow(a, k as nat) * h1[k]);
        assert forall|k: int| 0 <= k < s1.len() implies #[trigger] s.skip(1)[k] == s1[k] by {
            lemma_pow_adds(a, 1, k as nat);
            lemma_pow1(a);
            assert((1 + k) as nat == (k + 1) as nat);
            let p = pow(a, k as nat);
            assert(d * (a * p) * h[k + 1] == (d * a) * p * h[k + 1]) by (nonlinear_arith);
        }
        assert(s.skip(1) =~= s1);
        lemma_pow0(a);
        let g1 = geom(t, (n - 1) as nat);
        let e1 = poly_eval(h1, a * t);
        let h0 = h[0];
        assert(s[0] == c0 + d * h0) by {
            assert(d * 1 * h0 == d * h0) by (nonlinear_arith);
        }
        assert(poly_eval(s, t) == (c0 + d * h0) + t * (c0 * g1 + da * e1));
        assert(poly_eval(h, a * t) == h0 + (a * t) * e1);
        assert(t * (c0 * g1 + da * e1) == c0 * (t * g1) + d * ((a * t) * e1)) by {
            lemma_mul_is_distributive_add(t, c0 * g1, da * e1);
            lemma_mul_is_associative(t, c0, g1);
            lemma_mul_is_commutative(t, c0);
            lemma_mul_is_associative(c0, t, g1);
            lemma_mul_is_associative(t, da, e1);
            lemma_mul_is_associative(t, d, a);
            lemma_mul_is_commutative(t, d);
            lemma_mul_is_associative(d, t, a);
            lemma_mul_is_commutative(t, a);
            lemma_mul_is_associative(d, a * t, e1);
        }
        lemma_mul_is_distributive_add(c0, 1, t * g1);
        lemma_mul_is_distributive_add(d, h0, (a * t) * e1);
    } else {
        assert(poly_eval(s, t) == 0);
        assert(poly_eval(h, a * t) == 0);
    }
}

/// `sum over m of c[m] * geom(a^m t, n)`.
pub open spec fn weighted_geom(c: Seq<int>, a: int, t: int, n: nat) -> int
    decreases c.len(),
{
    if c.len() == 0 {
        0
    } else {
        c[0] * geom(t, n) + weighted_geom(c.skip(1), a, a * t, n)
    }
}

/// The values of `c` at `a^0, ..., a^(n-1)`, evaluated as a polynomial at
/// `t`, regroup into a weighted sum of geometric series.
pub proof fn lemma_eval_of_evals(c: Seq<int>, a: int, t: int, n: nat)
    ensures
        poly_eval(Seq::new(n, |k: int| poly_eval(c, pow(a, k as nat))), t) == weighted_geom(c, a, t, n),
    decreases c.len(),
{
    let x = Seq::new(n, |k: int| poly_eval(c, pow(a, k as nat)));
    if c.len() == 0 {
        let z = Seq::new(n, |k: int| 0int);
        lemma_eval_linear(z, 0, 0, a, t);
        assert(x =~= Seq::new(z.len(), |k: int| 0 + 0 * pow(a, k as nat) * z[k]));
    } else {
        let c1 = c.skip(1);
        let h = Seq::new(n, |k: int| poly_eval(c1, pow(a, k as nat)));
        lemma_eval_of_evals(c1, a, a * t, n);
        lemma_eval_linear(h, c[0], 1, a, t);
        assert(x =~= Seq::new(h.len(), |k: int| c[0] + 1 * pow(a, k as nat) * h[k]));
    }
}

/// `(m - 1)^d` modulo `m` is 1 for even `d` and `m - 1` for odd `d`.
pub proof fn lemma_pow_minus_one(m: int, d: nat)
    requires
        m > 1,
    ensures
        pow(m - 1, d) % m == (if d % 2 == 0 { 1 } else { m - 1 }),
    decreases d,
{
    reveal(pow);
    if d == 0 {
        lemma_small_mod(1, m as nat);
    } else {
        lemma_pow_minus_one(m, (d - 1) as nat);
        let p = pow(m - 1, (d - 1) as nat);
        lemma_mul_mod_noop_right(m - 1, p, m);
        if (d - 1) % 2 == 0 {
            lemma_small_mod((m - 1) as nat, m as nat);
        } else {
            assert((m - 1) * (m - 1) == m * (m - 2) + 1) by (nonlinear_arith);
            lemma_mod_multiples_vanish(m - 2, 1, m);
            lemma_small_mod(1, m as nat);
        }
    }
}

/// Orthogonality of the powers of a root of unity of order `2^k`: when
/// `a^(2^(k-1))` is -1 modulo `m`, the geometric series of `a^d` of length
/// `2^k` is `2^k` when `2^k` divides `d` and 0 otherwise, modulo `m`.
pub proof fn lemma_orthogonality(a: int, k: nat, d: nat, m: int)
    requires
        m > 2,
        k >= 1 ==> pow(a, pow2((k - 1) as nat)) % m == m - 1,
    ensures
        geom(pow(a, d), pow2(k)) % m
            == (if d % pow2(k) == 0 { pow2(k) as int } else { 0 }) % m,
    decreases k,
{
    let x = pow(a, d);
    if k == 0 {
        lemma2_to64();
        assert(geom(x, 1) == 1 + x * geom(x, 0));
    } else {
        let h = pow2((k - 1) as nat);
        lemma_pow2_unfold(k);
        lemma_pow2_pos((k - 1) as nat);
        lemma_geom_adds(x, h, h);
        assert(h + h == pow2(k));
        let g = geom(x, h);
        let px = pow(x, h);
        assert(geom(x, pow2(k)) == g * (1 + px)) by {
            lemma_mul_is_distributive_add(g, 1, px);
            lemma_mul_is_commutative(px, g);
        }
        lemma_pow_multiplies(a, d, h);
        lemma_pow_multiplies(a, h, d);
        lemma_mul_is_commutative(d as int, h as int);
        lemma_pow_mod_noop(pow(a, h), d, m);
        lemma_pow_minus_one(m, d);
        lemma_mul_mod_noop_right(g, 1 + px, m);
        lemma_add_mod_noop_right(1, px, m);
        lemma_mod_breakdown(d as int, 2, h as int);
        if d % 2 == 1 {
            lemma_mod_self_0(m);
            assert((1 + px) % m == 0);
            assert(g * 0 == 0);
            lemma_small_mod(0, m as nat);
        } else {
            lemma_small_mod(2, m as nat);
            if k >= 2 {
                lemma_pow2_unfold((k - 1) as nat);
                lemma_square_is_pow2(a);
                lemma_pow_multiplies(a, 2, pow2((k - 2) as nat));
            }
            lemma_square_is_pow2(a);
            lemma_pow_multiplies(a, 2, d / 2);
            assert(2 * (d / 2) == d);
            lemma_orthogonality(a * a, (k - 1) as nat, d / 2, m);
            lemma_mul_mod_noop_left(g, 2, m);
            let r = if (d / 2) % h == 0 { h as int } else { 0 };
            lemma_mul_mod_noop_left(r, 2, m);
        }
    }
}

/// Whether `a` is a root of unity of order `2^k` modulo `m` whose half
/// power is -1 (nothing is asked of it for `k == 0`), and `b` is congruent
/// to `a^(2^k - 1)`, its inverse.
pub open spec fn root_pair(a: int, b: int, k: nat, m: int) -> bool {
    &&& k >= 1 ==> pow(a, pow2((k - 1) as nat)) % m == m - 1
    &&& b % m == pow(a, (pow2(k) - 1) as nat) % m
}

/// In the weighted sum, the geometric series at `a^s b^j` vanishes modulo
/// `m` unless `s == j`, where it is `n`.
proof fn lemma_weighted_geom_pick(c: Seq<int>, a: int, b: int, k: nat, j: nat, s: nat, m: int)
    requires
        m > 2,
        root_pair(a, b, k, m),
        c.len() == pow2(k),
        j < c.len(),
        s <= c.len(),
    ensures
        weighted_geom(c.skip(s as int), a, pow(a, s) * pow(b, j), pow2(k)) % m
            == (if s <= j { c[j as int] * pow2(k) } else { 0 }) % m,
    decreases c.len() - s,
{
    let n = pow2(k);
    let t = pow(a, s) * pow(b, j);
    let rest = c.skip(s as int);
    if s == n {
        assert(rest.len() == 0);
        lemma_small_mod(0, m as nat);
    } else {
        lemma_weighted_geom_pick(c, a, b, k, j, s + 1, m);
        assert(rest.skip(1) =~= c.skip(s + 1int));
        lemma_pow_adds(a, s, 1);
        lemma_pow1(a);
        assert(a * t == pow(a, s + 1) * pow(b, j)) by {
            lemma_mul_is_associative(a, pow(a, s), pow(b, j));
            lemma_mul_is_commutative(a, pow(a, s));
        }
        let g_rest = weighted_geom(c.skip(s + 1int), a, pow(a, s + 1) * pow(b, j), n);
        assert(weighted_geom(rest, a, t, n) == c[s as int] * geom(t, n) + g_rest);
        // t is congruent to a^(s + (n - 1) j)
        lemma_pow2_pos(k);
        let e = (n - 1) as nat;
        let big_d = s + e * j;
        lemma_pow_mod_noop(b, j, m);
        lemma_pow_mod_noop(pow(a, e), j, m);
        lemma_pow_multiplies(a, e, j);
        lemma_mul_mod_noop_right(pow(a, s), pow(b, j), m);
        lemma_mul_mod_noop_right(pow(a, s), pow(a, e * j), m);
        lemma_pow_adds(a, s, e * j);
        assert(t % m == pow(a, big_d) % m);
        lemma_geom_congruent(t, pow(a, big_d), n, m);
        lemma_orthogonality(a, k, big_d, m);
        // n divides s + (n - 1) j exactly when s == j
        assert(big_d as int == n * j + (s - j)) by {
            lemma_mul_is_distributive_sub_other_way(j as int, n as int, 1);
            lemma_mul_is_commutative(j as int, n as int);
            lemma_mul_is_commutative(e as int, j as int);
        }
        lemma_mod_multiples_vanish(j as int, s - j, n as int);
        if s > j {
            lemma_small_mod((s - j) as nat, n);
        } else if s < j {
            lemma_mod_add_multiples_vanish(s - j, n as int);
            lemma_small_mod((s - j + n) as nat, n);
        } else {
            lemma_small_mod(0, n);
        }
        let g = geom(t, n);
        lemma_mul_mod_noop_right(c[s as int], g, m);
        lemma_add_mod_noop(c[s as int] * g, g_rest, m);
        if s == j {
            lemma_mul_mod_noop_right(c[s as int], n as int, m);
            lemma_small_mod(0, m as nat);
            lemma_mod_twice(c[j as int] * n, m);
        } else {
            lemma_small_mod(0, m as nat);
            assert(c[s as int] * 0 == 0);
            lemma_mod_twice(g_rest, m);
        }
    }
}

/// Interpolation: if `x` holds the values of `c` (of length `2^k`) at the
/// powers of a root of unity `a`, then `x` evaluated at `b^j` (with `b` the
/// inverse root) is `2^k c[j]`, modulo `m`.
pub proof fn lemma_interpolation(c: Seq<int>, x: Seq<int>, a: int, b: int, k: nat, j: nat, m: int)
    requires
        m > 2,
        root_pair(a, b, k, m),
        c.len() == pow2(k),
        x.len() == c.len(),
        forall|i: int| 0 <= i < x.len() ==> #[trigger] x[i] % m == poly_eval(c, pow(a, i as nat)) % m,
        j < c.len(),
    ensures
        poly_eval(x, pow(b, j)) % m == (c[j as int] * pow2(k)) % m,
{
    let n = pow2(k);
    let raw = Seq::new(n, |i: int| poly_eval(c, pow(a, i as nat)));
    lemma_eval_congruent_coeffs(x, raw, pow(b, j), m);
    lemma_eval_of_evals(c, a, pow(b, j), n);
    lemma_weighted_geom_pick(c, a, b, k, j, 0, m);
    assert(c.skip(0) =~= c);
    lemma_pow0(a);
    assert(pow(a, 0) * pow(b, j) == pow(b, j));
}

/// `(A + x B) mod m` from the residues of `A`, `B` and `x`.
pub proof fn lemma_mod_sum_prod(a: int, b: int, x: int, m: int)
    requires
        m > 0,
    ensures
        ((a % m) + ((b % m) * (x % m)) % m) % m == (a + x * b) % m,
{
    lemma_mul_mod_noop(b, x, m);
    lemma_mul_is_commutative(b, x);
    lemma_add_mod_noop(a, x * b, m);
    lemma_mod_twice(x * b, m);
}

/// With `X` congruent to `-x`, `(A + X B) mod m` is `A - x B` from residues.
pub proof fn lemma_mod_neg_shift(a: int, b: int, big_x: int, x: int, m: int)
    requires
        m > 0,
        big_x % m == ((m - 1) * x) % m,
    ensures
        (a + big_x * b) % m == ((a % m) - ((b % m) * (x % m)) % m) % m,
{
    assert((m - 1) * x + x == m * x) by (nonlinear_arith);
    lemma_add_mod_noop(big_x, x, m);
    lemma_add_mod_noop((m - 1) * x, x, m);
    lemma_mod_multiples_basic(x, m);
    lemma_mul_is_commutative(m, x);
    assert((big_x + x) % m == 0);
    lemma_mul_mod_noop_left(big_x + x, b, m);
    assert(((big_x + x) * b) % m == 0) by {
        assert(0 * b == 0);
        lemma_small_mod(0, m as nat);
    }
    assert((a + big_x * b) - (a - x * b) == (big_x + x) * b) by (nonlinear_arith);
    lemma_mod_equivalence(a + big_x * b, a - x * b, m);
    lemma_mul_mod_noop(b, x, m);
    lemma_mul_is_commutative(b, x);
    lemma_sub_mod_noop(a, x * b, m);
    lemma_mod_twice(x * b, m);
}

/// The coefficient of `s` at `i`, 0 outside it.
pub open spec fn icoef(s: Seq<int>, i: int) -> int {
    if 0 <= i < s.len() {
        s[i]
    } else {
        0
    }
}

/// `p + c x^i b`, as long as both (just `p` when `b` is empty).
pub open spec fn add_row(p: Seq<int>, b: Seq<int>, c: int, i: nat) -> Seq<int> {
    Seq::new(
        if b.len() == 0 || i + b.len() <= p.len() { p.len() } else { i + b.len() },
        |k: int| icoef(p, k) + c * icoef(b, k - i),
    )
}

/// The product of two polynomials, row by row: empty when either is.
pub open spec fn poly_product(a: Seq<int>, b: Seq<int>) -> Seq<int>
    decreases a.len(),
{
    if a.len() == 0 || b.len() == 0 {
        seq![]
    } else {
        add_row(poly_product(a.drop_last(), b), b, a.last(), (a.len() - 1) as nat)
    }
}

/// `s` without its first coefficient (empty stays empty).
pub open spec fn tail(s: Seq<int>) -> Seq<int> {
    if s.len() == 0 {
        s
    } else {
        s.skip(1)
    }
}

proof fn lemma_eval_tail(s: Seq<int>, x: int)
    ensures
        poly_eval(s, x) == icoef(s, 0) + x * poly_eval(tail(s), x),
        forall|k: int| k >= 0 ==> #[trigger] icoef(s, k + 1) == icoef(tail(s), k),
        tail(s).len() == if s.len() == 0 { 0 } else { s.len() - 1 },
{
    if s.len() == 0 {
        assert(x * 0 == 0);
    }
}

/// Evaluating `p + c x^i b`, laid out over any length covering both.
pub proof fn lemma_eval_shifted_sum(len: nat, p: Seq<int>, b: Seq<int>, c: int, i: nat, x: int)
    requires
        len >= p.len(),
        b.len() == 0 || len >= i + b.len(),
    ensures
        poly_eval(Seq::new(len, |k: int| icoef(p, k) + c * icoef(b, k - i)), x) == poly_eval(p, x) + c
            * pow(x, i) * poly_eval(b, x),
    decreases len,
{
    let s = Seq::new(len, |k: int| icoef(p, k) + c * icoef(b, k - i));
    lemma_eval_tail(p, x);
    lemma_eval_tail(b, x);
    if len == 0 {
        assert(poly_eval(p, x) == 0);
        assert(poly_eval(b, x) == 0);
        assert(c * pow(x, i) * 0 == 0) by (nonlinear_arith);
    } else if i > 0 {
        let tp = tail(p);
        lemma_eval_shifted_sum((len - 1) as nat, tp, b, c, (i - 1) as nat, x);
        assert(s.skip(1) =~= Seq::new((len - 1) as nat, |k: int| icoef(tp, k) + c * icoef(b, k - (i - 1) as nat)));
        assert(s[0] == icoef(p, 0) + c * 0);
        lemma_pow_adds(x, 1, (i - 1) as nat);
        lemma_pow1(x);
        assert(1 + (i - 1) as nat == i);
        let q = pow(x, (i - 1) as nat);
        let eb = poly_eval(b, x);
        let et = poly_eval(tp, x);
        assert(icoef(p, 0) + c * 0 + x * (et + c * q * eb) == (icoef(p, 0) + x * et) + c * (x * q) * eb)
            by (nonlinear_arith);
    } else {
        let tp = tail(p);
        let tb = tail(b);
        lemma_eval_shifted_sum((len - 1) as nat, tp, tb, c, 0, x);
        assert(s.skip(1) =~= Seq::new((len - 1) as nat, |k: int| icoef(tp, k) + c * icoef(tb, k - 0nat)));
        lemma_pow0(x);
        let et = poly_eval(tp, x);
        let etb = poly_eval(tb, x);
        let b0 = icoef(b, 0);
        assert(icoef(p, 0) + c * b0 + x * (et + c * 1 * etb) == (icoef(p, 0) + x * et) + c * 1 * (b0 + x
            * etb)) by (nonlinear_arith);
    }
}

/// Evaluating a polynomial whose last coefficient is split off.
pub proof fn lemma_eval_last(s: Seq<int>, x: int)
    requires
        s.len() > 0,
    ensures
        poly_eval(s, x) == poly_eval(s.drop_last(), x) + s.last() * pow(x, (s.len() - 1) as nat),
    decreases s.len(),
{
    if s.len() == 1 {
        lemma_pow0(x);
        assert(s.drop_last().len() == 0);
        assert(s.skip(1).len() == 0);
        assert(poly_eval(s.skip(1), x) == 0);
        assert(x * 0 == 0);
        assert(poly_eval(s.drop_last(), x) == 0);
        assert(s.last() == s[0]);
        assert(s[0] * 1 == s[0]);
    } else {
        let s1 = s.skip(1);
        lemma_eval_last(s1, x);
        assert(s.drop_last().skip(1) =~= s1.drop_last());
        lemma_pow_adds(x, 1, (s.len() - 2) as nat);
        lemma_pow1(x);
        assert(1 + (s.len() - 2) as nat == (s.len() - 1) as nat);
        let q = pow(x, (s.len() - 2) as nat);
        let e = poly_eval(s1.drop_last(), x);
        assert(s[0] + x * (e + s.last() * q) == (s[0] + x * e) + s.last() * (x * q)) by (nonlinear_arith);
    }
}

/// The value of a product is the product of the values.
pub proof fn lemma_eval_product(a: Seq<int>, b: Seq<int>, x: int)
    ensures
        poly_eval(poly_product(a, b), x) == poly_eval(a, x) * poly_eval(b, x),
    decreases a.len(),
{
    if a.len() == 0 {
        assert(poly_eval(poly_product(a, b), x) == 0);
    } else if b.len() == 0 {
        assert(poly_eval(poly_product(a, b), x) == 0);
        assert(poly_eval(b, x) == 0);
    } else {
        let a1 = a.drop_last();
        let p = poly_product(a1, b);
        lemma_eval_product(a1, b, x);
        let i = (a.len() - 1) as nat;
        let r = add_row(p, b, a.last(), i);
        lemma_eval_shifted_sum(r.len(), p, b, a.last(), i, x);
        assert(r =~= Seq::new(r.len(), |k: int| icoef(p, k) + a.last() * icoef(b, k - i)));
        lemma_eval_last(a, x);
        let ea = poly_eval(a1, x);
        let eb = poly_eval(b, x);
        let q = pow(x, i);
        assert(ea * eb + a.last() * q * eb == (ea + a.last() * q) * eb) by (nonlinear_arith);
    }
}

/// Evaluating a concatenation: `(a ++ b)(x) == a(x) + x^|a| b(x)`.
pub proof fn lemma_eval_concat(a: Seq<int>, b: Seq<int>, x: int)
    ensures
        poly_eval(a + b, x) == poly_eval(a, x) + pow(x, a.len()) * poly_eval(b, x),
    decreases a.len(),
{
    if a.len() == 0 {
        assert(a + b =~= b);
        lemma_pow0(x);
    } else {
        lemma_eval_concat(a.skip(1), b, x);
        assert((a + b).skip(1) =~= a.skip(1) + b);
        lemma_pow_adds(x, 1, (a.len() - 1) as nat);
        lemma_pow1(x);
        assert(1 + (a.len() - 1) as nat == a.len());
        let q = pow(x, (a.len() - 1) as nat);
        let e1 = poly_eval(a.skip(1), x);
        let eb = poly_eval(b, x);
        assert(a[0] + x * (e1 + q * eb) == (a[0] + x * e1) + (x * q) * eb) by (nonlinear_arith);
    }
}

/// The coefficient at `k` of the product of `a` and `b`: the sum of
/// `a[i] * b[k - i]` over the positions `i` of `a`.
pub open spec fn conv(a: Seq<int>, b: Seq<int>, k: int) -> int
    decreases a.len(),
{
    if a.len() == 0 {
        0
    } else {
        conv(a.drop_last(), b, k) + a.last() * icoef(b, k - (a.len() - 1))
    }
}

/// Every coefficient of the product is the sum `conv`.
pub proof fn lemma_product_coef(a: Seq<int>, b: Seq<int>, k: int)
    requires
        k >= 0,
    ensures
        icoef(poly_product(a, b), k) == conv(a, b, k),
    decreases a.len(),
{
    if a.len() == 0 {
    } else if b.len() == 0 {
        lemma_conv_empty(a, b, k);
    } else {
        let a1 = a.drop_last();
        let i = (a.len() - 1) as nat;
        let p1 = poly_product(a1, b);
        lemma_product_coef(a1, b, k);
        lemma_product_len_le(a1, b);
        let r = add_row(p1, b, a.last(), i);
        assert(r.len() == i + b.len());
        if k < r.len() {
            assert(icoef(r, k) == icoef(p1, k) + a.last() * icoef(b, k - i));
        } else {
            assert(icoef(p1, k) == 0);
            assert(icoef(b, k - i) == 0);
            assert(a.last() * 0 == 0);
        }
    }
}

proof fn lemma_conv_empty(a: Seq<int>, b: Seq<int>, k: int)
    requires
        b.len() == 0,
    ensures
        conv(a, b, k) == 0,
    decreases a.len(),
{
    if a.len() > 0 {
        lemma_conv_empty(a.drop_last(), b, k);
        assert(a.last() * 0 == 0);
    }
}

proof fn lemma_product_len_le(a: Seq<int>, b: Seq<int>)
    requires
        b.len() > 0,
    ensures
        poly_product(a, b).len() <= a.len() + b.len() - 1 || a.len() == 0,
    decreases a.len(),
{
    if a.len() > 0 {
        lemma_product_len_le(a.drop_last(), b);
    }
}

/// The sum `conv` does not depend on the order of the factors.
pub proof fn lemma_conv_commutes(a: Seq<int>, b: Seq<int>, k: int)
    ensures
        conv(a, b, k) == conv(b, a, k),
    decreases a.len() + b.len(),
{
    if a.len() == 0 {
        lemma_conv_empty(b, a, k);
    } else if b.len() == 0 {
        lemma_conv_empty(a, b, k);
    } else {
        let a1 = a.drop_last();
        let b1 = b.drop_last();
        let la = a.len() - 1;
        let lb = b.len() - 1;
        lemma_conv_commutes(a1, b, k);
        lemma_conv_commutes(b1, a, k);
        lemma_conv_commutes(a1, b1, k);
        // conv(a, b) = conv(b1, a1) + b.last() * icoef(a1, k - lb) + a.last() * icoef(b, k - la)
        // conv(b, a) = conv(a1, b1) + a.last() * icoef(b1, k - la) + b.last() * icoef(a, k - lb)
        assert(conv(a, b, k) == conv(a1, b, k) + a.last() * icoef(b, k - la));
        assert(conv(b, a, k) == conv(b1, a, k) + b.last() * icoef(a, k - lb));
        assert(conv(b, a1, k) == conv(b1, a1, k) + b.last() * icoef(a1, k - lb));
        assert(conv(a, b1, k) == conv(a1, b1, k) + a.last() * icoef(b1, k - la));
        if k - la == lb {
            assert(icoef(b, k - la) == b.last());
            assert(icoef(b1, k - la) == 0);
            assert(icoef(a, k - lb) == a.last());
            assert(icoef(a1, k - lb) == 0);
            assert(a.last() * b.last() == b.last() * a.last()) by (nonlinear_arith);
            assert(a.last() * 0 == 0);
            assert(b.last() * 0 == 0);
        } else {
            assert(icoef(b, k - la) == icoef(b1, k - la));
            assert(icoef(a, k - lb) == icoef(a1, k - lb));
        }
    }
}

/// The sums `conv` of factors congruent modulo `m` are congruent.
pub proof fn lemma_conv_congruent(a: Seq<int>, b: Seq<int>, a2: Seq<int>, b2: Seq<int>, k: int, m: int)
    requires
        m > 0,
        a2.len() == a.len(),
        b2.len() == b.len(),
        forall|i: int| 0 <= i < a.len() ==> #[trigger] a[i] % m == a2[i] % m,
        forall|i: int| 0 <= i < b.len() ==> #[trigger] b[i] % m == b2[i] % m,
    ensures
        conv(a, b, k) % m == conv(a2, b2, k) % m,
    decreases a.len(),
{
    if a.len() > 0 {
        let n = a.len() - 1;
        lemma_conv_congruent(a.drop_last(), b, a2.drop_last(), b2, k, m);
        let x = icoef(b, k - n);
        let x2 = icoef(b2, k - n);
        assert(x % m == x2 % m);
        assert(a.last() % m == a2.last() % m);
        lemma_mul_mod_noop(a.last(), x, m);
        lemma_mul_mod_noop(a2.last(), x2, m);
        lemma_add_mod_noop(conv(a.drop_last(), b, k), a.last() * x, m);
        lemma_add_mod_noop(conv(a2.drop_last(), b2, k), a2.last() * x2, m);
    }
}

} // verus!
