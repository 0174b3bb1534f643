//! The quotient-polynomial view of a constraint system: the quotient that
//! `comp_h` finds divides `u * v - t` by `x^size - 1`, so a witness for
//! which it finds one satisfies every constraint; and a witness that
//! satisfies every constraint gets one, unless the quotient has a zero
//! coefficient below its leading one.

use crate::bignat::all_below;
use crate::fft::ifft_spec;
use crate::fft_laws::{
    dft, lemma_fft_is_dft, lemma_fft_of_ifft, lemma_sub_spec_reduced, lemma_vanishing_is_zero, lemma_w_root, ntt_size,
};
use crate::gf::{modulus, w_spec};
use crate::poly::{
    coef, lemma_div_t_divides, lemma_norm_prefix, lemma_eval_pad, lemma_mul_fast_is_mul, lemma_mul_spec_eval, lemma_next_pow2,
    lemma_product_len, lemma_sub_poly_eval, mul_fast_spec, mul_spec, next_pow2, norm, pad, pow2_at_least, sub_poly,
};
use crate::poly_math::{icoef, ints, lemma_eval_concat, lemma_eval_congruent_coeffs, lemma_eval_shifted_sum, poly_eval};
use crate::r1cs::{comp_h_spec, matrix_times, qap_diff, satisfied, SparseView, R1CS};
use crate::witness::Witness;
use vstd::arithmetic::div_mod::*;
use vstd::arithmetic::power::*;
use vstd::arithmetic::power2::*;
use vstd::prelude::*;

verus! {

/// Doubling from `2^i` reaches `2^j` exactly.
proof fn lemma_pow2_at_least_exact(i: nat, j: nat)
    requires
        i <= j,
    ensures
        pow2_at_least(pow2(j), pow2(i)) == pow2(j),
    decreases j - i,
{
    lemma_pow2_pos(i);
    if i < j {
        lemma_pow2_strictly_increases(i, j);
        lemma_pow2_unfold(i + 1);
        lemma_pow2_at_least_exact(i + 1, j);
    }
}

/// A power of two is its own least power of two.
pub proof fn lemma_next_pow2_of_pow2(k: nat)
    ensures
        next_pow2(pow2(k)) == pow2(k),
{
    lemma2_to64();
    lemma_pow2_at_least_exact(0, k);
}

/// The interpolant of reduced values on the powers of the root of unity of
/// order `2^k` is reduced, as long, and takes those values there.
proof fn lemma_interpolant(s: Seq<nat>, k: nat, i: int)
    requires
        k <= 28,
        s.len() == pow2(k),
        all_below(s, modulus()),
        0 <= i < s.len(),
    ensures
        ifft_spec(s).len() == s.len(),
        all_below(ifft_spec(s), modulus()),
        poly_eval(ints(ifft_spec(s)), pow(w_spec(s.len()) as int, i as nat)) % (modulus() as int) == s[i],
{
    lemma_fft_of_ifft(s, k);
    lemma_fft_is_dft(ifft_spec(s), k);
    assert(dft(ifft_spec(s), w_spec(s.len()))[i] == s[i]);
}

/// The products of the rows with the witness, padded, are reduced.
proof fn lemma_matrix_times_padded(a: Seq<SparseView>, w: Seq<nat>, size: nat)
    requires
        a.len() <= size,
    ensures
        pad(matrix_times(a, w), size).len() == size,
        all_below(pad(matrix_times(a, w), size), modulus()),
{
    let p = pad(matrix_times(a, w), size);
    assert forall|i: int| 0 <= i < p.len() implies #[trigger] p[i] < modulus() by {
        if i < a.len() {
            assert(matrix_times(a, w)[i] < modulus());
        }
    }
}

/// Whenever `comp_h` finds a quotient `h` for matrices `a`, `b`, `c` (each
/// with at most `2^k` rows, `k < 28`) and witness values `w`, the
/// interpolants `u`, `v`, `t` of the three matrix-witness products satisfy
/// `u(x) v(x) - t(x) = h(x) (x^(2^k) - 1)` modulo the field's modulus, at
/// every `x`.
pub proof fn lemma_comp_h_divides(a: Seq<SparseView>, b: Seq<SparseView>, c: Seq<SparseView>, w: Seq<nat>, k: nat, x: int)
    requires
        k < 28,
        a.len() <= pow2(k),
        b.len() <= pow2(k),
        c.len() <= pow2(k),
        comp_h_spec(a, b, c, w, pow2(k)) is Some,
    ensures
        ({
            let size = pow2(k);
            let u = ifft_spec(pad(matrix_times(a, w), size));
            let v = ifft_spec(pad(matrix_times(b, w), size));
            let t = ifft_spec(pad(matrix_times(c, w), size));
            let h = comp_h_spec(a, b, c, w, size).unwrap();
            (poly_eval(ints(u), x) * poly_eval(ints(v), x) - poly_eval(ints(t), x)) % (modulus() as int)
                == (poly_eval(ints(h), x) * (pow(x, size) - 1)) % (modulus() as int)
        }),
{
    let m = modulus() as int;
    let size = pow2(k);
    lemma_pow2_pos(k);
    let d = qap_diff(a, b, c, w, size);
    lemma_qap_diff_eval(a, b, c, w, k, x);
    assert forall|j: int| 0 <= j < d.len() && j < size implies #[trigger] d[j] <= modulus() by {
        assert(d[j] < modulus());
    }
    lemma_div_t_divides(d, size, x);
}

/// What `comp_h` divides has `2^(k+1)` reduced coefficients and is, at
/// every point and modulo the field's modulus, `u * v - t`.
proof fn lemma_qap_diff_eval(a: Seq<SparseView>, b: Seq<SparseView>, c: Seq<SparseView>, w: Seq<nat>, k: nat, x: int)
    requires
        k < 28,
        a.len() <= pow2(k),
        b.len() <= pow2(k),
        c.len() <= pow2(k),
    ensures
        ({
            let size = pow2(k);
            let d = qap_diff(a, b, c, w, size);
            let u = ifft_spec(pad(matrix_times(a, w), size));
            let v = ifft_spec(pad(matrix_times(b, w), size));
            let t = ifft_spec(pad(matrix_times(c, w), size));
            &&& d.len() == 2 * size
            &&& all_below(d, modulus())
            &&& poly_eval(ints(d), x) % (modulus() as int) == (poly_eval(ints(u), x) * poly_eval(ints(v), x)
                - poly_eval(ints(t), x)) % (modulus() as int)
        }),
{
    let m = modulus() as int;
    let size = pow2(k);
    lemma_pow2_pos(k);
    let xa = pad(matrix_times(a, w), size);
    let xb = pad(matrix_times(b, w), size);
    let xc = pad(matrix_times(c, w), size);
    lemma_matrix_times_padded(a, w, size);
    lemma_matrix_times_padded(b, w, size);
    lemma_matrix_times_padded(c, w, size);
    let u = ifft_spec(xa);
    let v = ifft_spec(xb);
    let t = ifft_spec(xc);
    lemma_fft_of_ifft(xa, k);
    lemma_fft_of_ifft(xb, k);
    lemma_fft_of_ifft(xc, k);
    // the product through the transform is the product polynomial
    lemma_pow2_unfold(k + 1);
    lemma_next_pow2_of_pow2(k + 1);
    assert(ntt_size(pow2(k + 1)));
    lemma_mul_fast_is_mul(u, v, pow2(k + 1));
    let pp = mul_fast_spec(u, v);
    let ms = mul_spec(u, v);
    let eu = poly_eval(ints(u), x);
    let ev = poly_eval(ints(v), x);
    let et = poly_eval(ints(t), x);
    let ep = poly_eval(ints(pp), x);
    lemma_eval_pad(ms, pow2(k + 1), x);
    lemma_product_len(ints(u), ints(v));
    assert(pp.len() == pow2(k + 1));
    lemma_mul_spec_eval(u, v, x);
    // the difference
    let d = sub_poly(pp, t);
    assert(all_below(pp, modulus()));
    lemma_sub_poly_eval(pp, t, x);
    assert forall|j: int| 0 <= j < d.len() implies #[trigger] d[j] < modulus() by {
        assert(pp[j] < modulus());
        if j < t.len() {
            assert(t[j] < modulus());
            lemma_sub_spec_reduced(coef(pp, j), t[j]);
        }
    }
    lemma_sub_mod_noop(ep, et, m);
    lemma_sub_mod_noop(eu * ev, et, m);
}

/// The powers of the root of unity of order `2^k` are roots of `x^(2^k) - 1`.
proof fn lemma_root_power(k: nat, i: nat)
    requires
        k <= 28,
    ensures
        pow(pow(w_spec(pow2(k)) as int, i), pow2(k)) % (modulus() as int) == 1,
{
    let m = modulus() as int;
    let size = pow2(k);
    let om = w_spec(size) as int;
    lemma_w_root(k);
    lemma_pow_multiplies(om, i, size);
    lemma_pow_multiplies(om, size, i);
    assert(i * size == size * i) by (nonlinear_arith);
    lemma_pow_mod_noop(pow(om, size), i, m);
    lemma1_pow(i);
}

/// A witness for which `comp_h` finds a quotient satisfies every
/// constraint of the system (for at most `2^27` constraints, the transform
/// lengths the field's roots of unity allow).
pub proof fn lemma_comp_h_some_satisfies(r: R1CS, w: Witness)
    requires
        next_pow2(r.header_view().n_contraints as nat) <= pow2(27),
        comp_h_spec(r.matrix(0), r.matrix(1), r.matrix(2), w.values_view(),
            next_pow2(r.header_view().n_contraints as nat)) is Some,
    ensures
        forall|i: int| 0 <= i < r.header_view().n_contraints ==> #[trigger] satisfied(
            r.row(0, i),
            r.row(1, i),
            r.row(2, i),
            w.values_view(),
        ),
{
    let n = r.header_view().n_contraints as nat;
    let size = next_pow2(n);
    lemma_next_pow2(n);
    let k = choose|k: nat| size == #[trigger] pow2(k);
    if k >= 28 {
        lemma_pow2_strictly_increases(27, k);
    }
    assert forall|i: int| 0 <= i < n implies #[trigger] satisfied(r.row(0, i), r.row(1, i), r.row(2, i), w.values_view()) by {
        lemma_comp_h_constraint(r.matrix(0), r.matrix(1), r.matrix(2), w.values_view(), k, i);
        assert(r.matrix(0)[i] == r.row(0, i));
        assert(r.matrix(1)[i] == r.row(1, i));
        assert(r.matrix(2)[i] == r.row(2, i));
    }
}

/// One constraint at a time: the point `w^i` is a root of `x^size - 1`.
proof fn lemma_comp_h_constraint(a: Seq<SparseView>, b: Seq<SparseView>, c: Seq<SparseView>, w: Seq<nat>, k: nat, i: int)
    requires
        k < 28,
        a.len() <= pow2(k),
        b.len() == a.len(),
        c.len() == a.len(),
        0 <= i < a.len(),
        comp_h_spec(a, b, c, w, pow2(k)) is Some,
    ensures
        satisfied(a[i], b[i], c[i], w),
{
    let m = modulus() as int;
    let size = pow2(k);
    let om = w_spec(size) as int;
    let x = pow(om, i as nat);
    let xa = pad(matrix_times(a, w), size);
    let xb = pad(matrix_times(b, w), size);
    let xc = pad(matrix_times(c, w), size);
    lemma_matrix_times_padded(a, w, size);
    lemma_matrix_times_padded(b, w, size);
    lemma_matrix_times_padded(c, w, size);
    lemma_interpolant(xa, k, i);
    lemma_interpolant(xb, k, i);
    lemma_interpolant(xc, k, i);
    lemma_comp_h_divides(a, b, c, w, k, x);
    let eu = poly_eval(ints(ifft_spec(xa)), x);
    let ev = poly_eval(ints(ifft_spec(xb)), x);
    let et = poly_eval(ints(ifft_spec(xc)), x);
    let eh = poly_eval(ints(comp_h_spec(a, b, c, w, size).unwrap()), x);
    // x^size is 1
    let p = pow(x, size);
    lemma_root_power(k, i as nat);
    assert(p % m == 1);
    lemma_mod_equivalence(p, 1, m);
    lemma_mul_mod_noop_right(eh, p - 1, m);
    assert((eh * (p - 1)) % m == 0);
    // so u(x) v(x) and t(x) agree
    lemma_mod_equivalence(eu * ev, et, m);
    lemma_mul_mod_noop(eu, ev, m);
    assert(xa[i] == matrix_times(a, w)[i]);
    assert(xb[i] == matrix_times(b, w)[i]);
    assert(xc[i] == matrix_times(c, w)[i]);
}

/// Whether the part of `d` from `size` up, without its trailing zeros, has
/// no zero coefficient.
pub open spec fn no_interior_zero(d: Seq<nat>, size: nat) -> bool {
    forall|i: int| size <= i < norm(d).len() ==> #[trigger] d[i] != 0
}

/// Two reduced values that add up to a multiple of the modulus are both 0
/// or add up to the modulus.
proof fn lemma_pair_sum(x: nat, y: nat)
    requires
        x < modulus(),
        y < modulus(),
        (x + y) % modulus() == 0,
    ensures
        (x == 0 && y == 0) || x + y == modulus(),
{
    let m = modulus() as int;
    if x + y < m {
        lemma_small_mod((x + y) as nat, modulus());
    } else {
        lemma_mod_sub_multiples_vanish((x + y) as int, m);
        lemma_small_mod((x + y - m) as nat, modulus());
    }
}

/// When every constraint holds, `u * v - t` vanishes at every power of the
/// root of unity of order `2^k`, modulo the field's modulus.
proof fn lemma_diff_vanishes(a: Seq<SparseView>, b: Seq<SparseView>, c: Seq<SparseView>, w: Seq<nat>, k: nat, i: int)
    requires
        k < 28,
        a.len() <= pow2(k),
        b.len() == a.len(),
        c.len() == a.len(),
        forall|j: int| 0 <= j < a.len() ==> #[trigger] satisfied(a[j], b[j], c[j], w),
        0 <= i < pow2(k),
    ensures
        poly_eval(ints(qap_diff(a, b, c, w, pow2(k))), pow(w_spec(pow2(k)) as int, i as nat)) % (modulus() as int) == 0,
{
    let m = modulus() as int;
    let size = pow2(k);
    let x = pow(w_spec(size) as int, i as nat);
    let xa = pad(matrix_times(a, w), size);
    let xb = pad(matrix_times(b, w), size);
    let xc = pad(matrix_times(c, w), size);
    lemma_matrix_times_padded(a, w, size);
    lemma_matrix_times_padded(b, w, size);
    lemma_matrix_times_padded(c, w, size);
    lemma_interpolant(xa, k, i);
    lemma_interpolant(xb, k, i);
    lemma_interpolant(xc, k, i);
    lemma_qap_diff_eval(a, b, c, w, k, x);
    let eu = poly_eval(ints(ifft_spec(xa)), x);
    let ev = poly_eval(ints(ifft_spec(xb)), x);
    let et = poly_eval(ints(ifft_spec(xc)), x);
    lemma_mul_mod_noop(eu, ev, m);
    assert(eu % m == xa[i]);
    assert(ev % m == xb[i]);
    assert(et % m == xc[i]);
    if i < a.len() {
        assert(satisfied(a[i], b[i], c[i], w));
        assert(xa[i] == matrix_times(a, w)[i]);
        assert(xb[i] == matrix_times(b, w)[i]);
        assert(xc[i] == matrix_times(c, w)[i]);
        assert((xa[i] * xb[i]) % modulus() == xc[i]);
    } else {
        assert(xa[i] == 0);
        assert(xb[i] == 0);
        assert(xc[i] == 0);
        assert(xa[i] * xb[i] == 0) by (nonlinear_arith)
            requires
                xa[i] == 0,
        ;
        lemma_small_mod(0nat, modulus());
    }
    assert(((eu % m) * (ev % m)) % m == ((xa[i] * xb[i]) as int) % m);
    assert((eu * ev) % m == et % m);
    lemma_mod_equivalence(eu * ev, et, m);
}

/// When every constraint holds, the coefficients of `u * v - t` at `j`
/// and at `j + 2^k` are both 0 or add up to the modulus: the part from
/// `2^k` up is the negation of the part below.
proof fn lemma_halves_cancel(a: Seq<SparseView>, b: Seq<SparseView>, c: Seq<SparseView>, w: Seq<nat>, k: nat)
    requires
        k < 28,
        a.len() <= pow2(k),
        b.len() == a.len(),
        c.len() == a.len(),
        forall|i: int| 0 <= i < a.len() ==> #[trigger] satisfied(a[i], b[i], c[i], w),
    ensures
        ({
            let size = pow2(k);
            let d = qap_diff(a, b, c, w, size);
            &&& d.len() == 2 * size
            &&& all_below(d, modulus())
            &&& forall|j: int| 0 <= j < size ==> (#[trigger] d[j] == 0 && d[size + j] == 0) || d[j] + d[size + j]
                == modulus()
        }),
{
    let m = modulus() as int;
    let size = pow2(k);
    lemma_pow2_pos(k);
    let d = qap_diff(a, b, c, w, size);
    lemma_qap_diff_eval(a, b, c, w, k, 0);
    let lf = d.subrange(0, size as int);
    let hf = d.subrange(size as int, 2 * size as int);
    let cs = Seq::new(size, |j: int| ((lf[j] + hf[j]) % modulus()) as nat);
    assert(all_below(cs, modulus()));
    // the low and high halves add up to a polynomial vanishing at every
    // power of the root of unity
    assert forall|i: int| 0 <= i < cs.len() implies #[trigger] dft(cs, w_spec(cs.len()))[i] == 0 by {
        let x = pow(w_spec(size) as int, i as nat);
        lemma_diff_vanishes(a, b, c, w, k, i);
        assert(ints(d) =~= ints(lf) + ints(hf));
        lemma_eval_concat(ints(lf), ints(hf), x);
        lemma_root_power(k, i as nat);
        let el = poly_eval(ints(lf), x);
        let eh = poly_eval(ints(hf), x);
        let p = pow(x, size);
        lemma_mul_mod_noop_left(p, eh, m);
        lemma_add_mod_noop_right(el, p * eh, m);
        lemma_add_mod_noop_right(el, eh, m);
        assert((el + eh) % m == 0);
        lemma_eval_shifted_sum(size, ints(lf), ints(hf), 1, 0, x);
        lemma_pow0(x);
        let e = Seq::new(size, |j: int| icoef(ints(lf), j) + 1 * icoef(ints(hf), j - 0nat));
        assert(poly_eval(e, x) == el + 1 * pow(x, 0) * eh);
        assert(poly_eval(e, x) == el + eh);
        assert forall|j: int| 0 <= j < ints(cs).len() implies #[trigger] ints(cs)[j] % m == e[j] % m by {
            lemma_mod_twice((lf[j] + hf[j]) as int, m);
        }
        lemma_eval_congruent_coeffs(ints(cs), e, x, m);
    }
    lemma_vanishing_is_zero(cs, k);
    assert forall|j: int| 0 <= j < size implies (#[trigger] d[j] == 0 && d[size + j] == 0) || d[j] + d[size + j]
        == modulus() by {
        assert(cs[j] == 0);
        assert(lf[j] == d[j]);
        assert(hf[j] == d[size + j]);
        lemma_pair_sum(d[j], d[size + j]);
    }
}

/// `comp_h` finds the quotient whenever the witness satisfies every
/// constraint (for matrices of at most `2^k` rows, `k < 28`), unless the
/// quotient has a zero coefficient below its leading one: `div_t` negates
/// the low part with `opo`, which takes 0 to the modulus itself, so it
/// refuses that case.
pub proof fn lemma_comp_h_complete(a: Seq<SparseView>, b: Seq<SparseView>, c: Seq<SparseView>, w: Seq<nat>, k: nat)
    requires
        k < 28,
        a.len() <= pow2(k),
        b.len() == a.len(),
        c.len() == a.len(),
        forall|i: int| 0 <= i < a.len() ==> #[trigger] satisfied(a[i], b[i], c[i], w),
        no_interior_zero(qap_diff(a, b, c, w, pow2(k)), pow2(k)),
    ensures
        comp_h_spec(a, b, c, w, pow2(k)) is Some,
{
    let size = pow2(k);
    lemma_pow2_pos(k);
    let d = qap_diff(a, b, c, w, size);
    lemma_halves_cancel(a, b, c, w, k);
    let lf = d.subrange(0, size as int);
    let hf = d.subrange(size as int, 2 * size as int);
    assert forall|j: int| 0 <= j < size implies (#[trigger] lf[j] == 0 && hf[j] == 0) || lf[j] + hf[j] == modulus() by {
        assert(lf[j] == d[j]);
        assert(hf[j] == d[size + j]);
    }
    // so the division comes out
    let v = norm(d);
    lemma_norm_prefix(d);
    if v.len() == 0 {
    } else if v.len() <= size {
        let l = v.len() - 1;
        assert(v[l] == d[l]);
        assert(lf[l] != 0);
        assert(d[size + l] == hf[l]);
        assert(false);
    } else {
        let hl = v.len() - size;
        let vs = v.subrange(size as int, v.len() as int);
        assert(vs.last() == v.last());
        assert(norm(vs) == vs);
        assert(v.subrange(0, size as int) =~= lf);
        lemma_norm_prefix(lf);
        let low = norm(lf);
        assert(hf[hl - 1] == d[v.len() - 1]);
        assert(d[v.len() - 1] == v[v.len() - 1]);
        assert(lf[hl - 1] != 0);
        assert forall|j: int| hl <= j < size implies #[trigger] lf[j] == 0 by {
            assert(hf[j] == d[size + j]);
        }
        if low.len() < hl {
            assert(lf[hl - 1] == 0);
        }
        if low.len() > hl {
            assert(low[low.len() - 1] == lf[low.len() - 1]);
        }
        assert(low.len() == hl);
        let neg = Seq::new(low.len(), |i: int| (modulus() - low[i]) as nat);
        assert forall|i: int| 0 <= i < hl implies #[trigger] vs[i] == neg[i] by {
            assert(vs[i] == d[size + i]);
            assert(hf[i] == d[size + i]);
            assert(d[size + i] != 0);
            assert(low[i] == lf[i]);
        }
        assert(vs =~= neg);
    }
}

/// A witness that satisfies every constraint of the system (of at most
/// `2^27` constraints) gets a quotient from `comp_h`, unless the quotient
/// has a zero coefficient below its leading one.
pub proof fn lemma_comp_h_some_when_satisfied(r: R1CS, w: Witness)
    requires
        next_pow2(r.header_view().n_contraints as nat) <= pow2(27),
        forall|i: int| 0 <= i < r.header_view().n_contraints ==> #[trigger] satisfied(
            r.row(0, i),
            r.row(1, i),
            r.row(2, i),
            w.values_view(),
        ),
        no_interior_zero(
            qap_diff(r.matrix(0), r.matrix(1), r.matrix(2), w.values_view(), next_pow2(r.header_view().n_contraints as nat)),
            next_pow2(r.header_view().n_contraints as nat),
        ),
    ensures
        comp_h_spec(r.matrix(0), r.matrix(1), r.matrix(2), w.values_view(),
            next_pow2(r.header_view().n_contraints as nat)) is Some,
{
    let n = r.header_view().n_contraints as nat;
    let size = next_pow2(n);
    lemma_next_pow2(n);
    let k = choose|k: nat| size == #[trigger] pow2(k);
    if k >= 28 {
        lemma_pow2_strictly_increases(27, k);
    }
    assert forall|i: int| 0 <= i < n implies #[trigger] satisfied(r.matrix(0)[i], r.matrix(1)[i], r.matrix(2)[i], w.values_view()) by {
        assert(satisfied(r.row(0, i), r.row(1, i), r.row(2, i), w.values_view()));
    }
    lemma_comp_h_complete(r.matrix(0), r.matrix(1), r.matrix(2), w.values_view(), k);
}

} // verus!
