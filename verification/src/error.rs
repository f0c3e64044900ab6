use vstd::prelude::*;

verus! {

/// What can go wrong when a board is built or solved.
#[derive(Debug, Clone, Copy, PartialEq, Eq, Structural)]
pub enum SudokuError {
    /// A cell holds a value outside `0..=9`.
    InvalidValue,
    /// Two givens claim the same constraint.
    ConflictingClues,
    /// No exact cover extends the committed placements.
    Infeasible,
}

} // verus!
