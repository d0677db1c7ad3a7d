//! The errors of the library.

use vstd::prelude::*;

verus! {

/// Why a matrix could not be built, admitted as square, or inverted.
#[derive(Debug, Clone, Copy, PartialEq, Eq, Structural)]
pub enum MatrixError {
    /// A row's length differs from the length of the first row, which is carried here.
    Shape { expected_cols: usize },
    /// The number of rows differs from the number of columns.
    NotSquare,
    /// The matrix has no rows and no columns.
    Degenerate,
    /// The determinant equals the element type's zero.
    Singular,
}

} // verus!
