//! A small dense-matrix library with a direct linear-system solver.
//!
//! Matrix entries are exact rational numbers, so every operation is
//! verified against the mathematics of the rational field: LU
//! decomposition produces genuinely triangular factors, and the
//! substitution solvers return vectors that satisfy their triangular
//! systems exactly.

pub mod rat;
pub mod matrix;
pub mod solve;
pub mod laws;
