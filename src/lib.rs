//! The Paillier cryptosystem: additively homomorphic public-key encryption
//! over arbitrary-precision naturals.
pub mod natural;
pub mod scheme;
pub mod keys;
pub mod cipher;
pub mod laws;
pub mod number_theory;
