//! Chinese Remainder Theorem over arbitrary-precision integers: extended
//! Euclid, per-modulus terms, canonical representatives and a final check of
//! every congruence.

pub mod arith;
pub mod bezout;
pub mod bigint;
pub mod crt;
pub mod parse;
pub mod theorem;

pub use crate::bezout::bezout_coeffs;
pub use crate::bigint::BigInt;
pub use crate::crt::{combine, gate_in_mod, product, prove_solution, solution, solve, CrtError};
pub use crate::parse::{collect_parsed, parse, split_list};
