//! Computing the quotient polynomial `h` of a rank-1 constraint system
//! over the BN254 scalar field: field arithmetic on big naturals, a
//! radix-2 number-theoretic transform, dense and sparse polynomials and
//! vectors, and parsers for the `.r1cs` and `.wtns` binary formats.

pub mod bignat;
pub mod gf;
pub mod fft;
pub mod roots;
pub mod poly_math;
pub mod fft_laws;
pub mod poly;
pub mod vec_sparse;
pub mod file_helpers;
pub mod witness;
pub mod r1cs;
pub mod qap;
