use vstd::prelude::*;

verus! {

/// The two failures the solver can report.
///
/// `InvalidInputValue` is raised only at construction, when a supplied cell
/// value falls outside `0..=9`; it carries the offending row, column and
/// value. `UnsolvableSudoku` is raised by a solving step when a full pass of
/// all four rules determines no new cell on a grid that is not yet solved:
/// it means "stalled under this rule set", not a proof of unsatisfiability.
#[derive(Debug, Clone, Copy, PartialEq, Eq, Structural)]
pub enum SudokuError {
    InvalidInputValue { y: usize, x: usize, value: u8 },
    UnsolvableSudoku,
}

} // verus!
