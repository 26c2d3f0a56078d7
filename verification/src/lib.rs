//! Interactive proofs for layered arithmetic circuits over the BN254 scalar
//! field: multilinear extensions, composite expressions, a Fiat-Shamir
//! transcript, the sum-check protocol and the GKR layer reduction, with the
//! polynomials in one variable and the circuits that they lean on.

pub mod field;
pub mod powers;

pub mod multilinear;
pub mod multilinear_laws;
pub mod multilinear_pairs;

pub mod composite;

pub mod dense_polynomial;
pub mod dense_polynomial_laws;
pub mod sparse_polynomial;

pub mod transcript;

pub mod sumcheck;
pub mod sumcheck_laws;
pub mod linear_sumcheck;
pub mod univariate_sumcheck;

pub mod circuit;
pub mod wiring;
pub mod gkr;
pub mod gkr_laws;

pub mod shamir;
