//! Simulation of quantum circuits on a dense vector of amplitudes.
//!
//! A circuit is a table of registers, each derived from earlier ones by an
//! operation or as an alias. `pipeline` walks back from a register to the
//! registers it is made of and to the operations that rebuild it, and applies
//! those in order to a state; `state_ops` holds the dense state and decides
//! which amplitudes each operation combines. The arithmetic on amplitudes is
//! left to the amplitude type.
pub mod common_circuits;
pub mod errors;
pub mod matrix;
pub mod pipeline;
pub mod qubits;
pub mod state_ops;
