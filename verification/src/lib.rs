//! Interactive proofs over small prime fields: sparse multivariate
//! polynomials, the sum-check protocol built on them, and the channels
//! that carry a run between prover and verifier.

pub mod add_one;
pub mod evaluation;
pub mod freivald;
pub mod group_utils;
pub mod ip;
pub mod monomials;
pub mod polynomials;
pub mod small_fields;
pub mod sum_check;
pub mod summation;
pub mod terms;
pub mod text;
