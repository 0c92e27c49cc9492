//! Secure multi-party dedup-ranking (SMDS): the data model, the plaintext
//! reference ranking, the seeded masking and permutations, the polynomial
//! helpers and the two-party homomorphic pipeline. Each function states what
//! it returns in its contract, over the spec functions of its module.

pub mod backend;
pub mod bench;
pub mod bignum;
pub mod cli;
pub mod engine;
pub mod crypto_utils;
pub mod order;
pub mod server;
pub mod types;
pub mod user;
