use vstd::prelude::*;

verus! {

/// Why a board refused a write.
#[derive(Debug, Clone, Copy, PartialEq, Eq, Structural)]
pub enum SudokuError {
    /// The row or column index lies outside the nine-by-nine board.
    InvalidCell,
    /// The digit already stands in the cell's row, column or box.
    InvalidValue,
}

} // verus!
