//! Decoding of R1CS constraint-system containers, planning of the circuit
//! handed to a proving backend, and packaging of the backend's artifacts into
//! the push operations of a stack-machine script.

pub mod bytes;
pub mod r1cs;
pub mod circuit;
pub mod package;
pub mod script;
