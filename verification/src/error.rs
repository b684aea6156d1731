//! The errors that matrix operations report.

use vstd::prelude::*;

verus! {

/// Why a matrix operation could not be carried out.
#[derive(Clone, Copy, Debug, PartialEq, Eq, Structural)]
pub enum MatrixError {
    /// `get` or `set` was asked for a cell outside the matrix. Holds the
    /// requested cell and the dimensions of the matrix.
    IndexOutOfBounds { row: usize, col: usize, rows: usize, cols: usize },
    /// The shapes of two operands do not fit the operation. Holds both shapes.
    DimensionMismatch { lhs_rows: usize, lhs_cols: usize, rhs_rows: usize, rhs_cols: usize },
    /// Inversion or factorization was asked of a matrix that is not square.
    NonSquareMatrix { rows: usize, cols: usize },
    /// A dot product was asked of vectors of different lengths, or of length zero.
    InvalidVectorLength { lhs_len: usize, rhs_len: usize },
    /// A sub-window does not lie inside its base, or is empty. Holds the
    /// requested offset and extent and the dimensions of the base.
    InvalidWindow {
        row: usize,
        col: usize,
        rows: usize,
        cols: usize,
        base_rows: usize,
        base_cols: usize,
    },
    /// A write was attempted through a shared handle.
    ReadOnly,
    /// The element type reported that a quotient or a square root does not exist.
    DegenerateNumeric,
}

} // verus!
