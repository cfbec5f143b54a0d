//! Circuits for a folding prover.

pub mod commitment;
pub mod memory_consistency_circuit;
pub mod r1cs;
pub mod soundness;
