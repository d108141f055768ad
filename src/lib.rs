//! CKKS approximate homomorphic encryption over the cyclotomic ring Z_q[X]/(X^N+1),
//! with big-integer coefficient polynomials, number-theoretic transforms and a
//! residue number system for fast multiplication.

pub mod bigint;
pub mod ring;
pub mod polynomial;
pub mod poly_ring;
pub mod utils;
pub mod bits;
pub mod ntt;
pub mod crt;
pub mod rlwe;
