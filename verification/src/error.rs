use vstd::prelude::*;

verus! {

/// The ways in which building or solving a sudoku can fail.
#[derive(Debug, Clone, Copy, PartialEq, Eq, Structural)]
pub enum SudokuError {
    /// A character that is neither a digit nor a `.` placeholder.
    InvalidDigit(char),
    /// A board whose cell count is not 81.
    InvalidBoardSize(usize),
    /// A board on which some cell has lost every candidate.
    UnsolvableSudoku,
    /// An index outside the range of the index type.
    InvalidValue(usize),
    /// An input from which no board could be read.
    NoBoardFound,
}

} // verus!
