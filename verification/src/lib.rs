//! Witness-decomposition and bound-derivation engine for proving, in zero
//! knowledge, that a ciphertext is a correct encryption under a ring-based
//! additively-homomorphic scheme.
//!
//! The crate decomposes the defining ciphertext equation into bounded
//! integer-coefficient witness polynomials per residue-number-system (RNS)
//! component, and computes the numeric ranges those witnesses must satisfy.

pub mod big;
pub mod bounds;
pub mod config;
pub mod generators;
pub mod poly;
pub mod vectors;
