//! A polynomial-commitment oracle over a prime field, with the Merkle
//! commitment layer beneath it and the constraint gates that feed it.
//!
//! Field elements are canonical `u64` residues of a [`field::FieldContext`],
//! which is handed explicitly to every operation that needs arithmetic.

pub mod biguint;
pub mod bits;
pub mod challenger;
pub mod circuit_builder;
pub mod constraint_consumer;
pub mod extension;
pub mod extension_polynomial;
pub mod field;
pub mod fri;
pub mod fri_prover;
pub mod gadgets;
pub mod gate_circuit;
pub mod gates;
pub mod hash;
pub mod limbs;
pub mod memory;
pub mod merkle_tree;
pub mod mpt;
pub mod nonnative_target;
pub mod oracle;
pub mod polynomial;
pub mod reducing;
pub mod registers;
pub mod schoolbook;
pub mod target;
pub mod util;
pub mod vars;
pub mod witness;
