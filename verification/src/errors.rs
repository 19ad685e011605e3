use vstd::prelude::*;

verus! {

/// Why a circuit could not be built.
#[derive(Clone, Copy, Debug, PartialEq, Eq)]
pub enum CircuitError {
    /// The matrix has neither two rows and two columns nor one row and one
    /// column for each assignment of the register's wires.
    MatrixSize,
    /// The two registers do not have the same number of wires.
    RegisterSizes,
    /// No vector can hold the matrix for that many wires.
    TooManyWires,
}

/// Why a circuit could not be run.
#[derive(Clone, Copy, Debug, PartialEq, Eq)]
pub enum RunError {
    /// No vector can hold the amplitudes of as many wires as the frontier
    /// has.
    TooManyWires,
    /// An operation names a wire that the state does not have, or its matrix
    /// is not square over its wires.
    OperationDoesNotFit,
}

} // verus!
