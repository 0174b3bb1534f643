# r1cs_qap

Computes the quotient polynomial `h` of a rank-1 constraint system over the
BN254 scalar field. The library's functions are verified by Verus, except
twelve small wrappers in `bignat` that each make one call into `num_bigint`
(addition, subtraction, product, quotient, remainder, comparisons,
`modpow`, `modinv`, and reading bytes or a decimal string): their contracts
are trusted, and their doc comments say what each one claims.

Given a circuit (`.r1cs`) and a witness (`.wtns`), the library checks the
witness against each constraint and computes `h`: the products of the three
constraint matrices with the witness are interpolated into polynomials
`u`, `v`, `t` by an inverse number-theoretic transform, and
`u * v - t` is divided by `x^size - 1`.

Layout of `src/`:

- `bignat` — natural numbers of any size; the arithmetic calls `num_bigint`.
- `gf` — arithmetic modulo the field's prime.
- `fft`, `fft_laws`, `roots` — the radix-2 transform, and the proofs that it
  evaluates at the powers of a root of unity and that the inverse undoes it.
- `poly_math`, `poly` — dense polynomials: subtraction, products (schoolbook
  and through the transform) and the division by `x^size - 1`.
- `vec_sparse` — sparse vectors and matrices.
- `file_helpers`, `witness`, `r1cs` — the binary formats and the constraint
  system; `qap` — why a quotient is found exactly for witnesses that satisfy
  every constraint (with one exception, stated there).

`app/main.rs` reads the two files from `circuit/<folder>/` and prints the
header and `h`.
