use vstd::prelude::*;

verus! {

/// Errors reported by the dense-facing entry points of the library.
#[derive(Debug, PartialEq, Eq)]
pub enum SparsersError {
    /// The column count of the sparse operand differs from the row count of the dense operand.
    DimensionMismatch { sparse_cols: usize, dense_rows: usize },
    /// A buffer does not have the memory layout an operation needs.
    LayoutError(String),
    /// A (row, col) position lies outside a matrix.
    IndexOutOfBounds { row: usize, col: usize },
    /// An invariant of the engine itself was broken.
    Internal(String),
}

/// Result type of the library's fallible operations.
pub type SparsersResult<T> = Result<T, SparsersError>;

} // verus!
