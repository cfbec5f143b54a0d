//! Memory consistency for an abstract machine: a cell-addressed memory with
//! reads and writes that may straddle cell boundaries, and the step circuit
//! that checks a trace of accesses against a committed memory state.

pub mod access;
pub mod machine;
pub mod memory;
pub mod nova;
pub mod scalar;
pub mod word;
