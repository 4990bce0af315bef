//! The shared error type of the solvers.
//!
//! Every condition on which the puzzle pipeline must abort is a variant
//! here; the solvers' contracts say exactly which inputs produce which
//! variant, and a driver treats any of them as an unrecoverable failure.

use vstd::prelude::*;

verus! {

/// Why a solver refused its input.
#[derive(Debug, Clone, Copy, PartialEq, Eq, Structural)]
pub enum SolveError {
    /// A line does not match the day's grammar.
    Malformed,
    /// A computed quantity exceeds its integer range.
    Overflow,
    /// The grid is too large for the solver's index range.
    TooLarge,
    /// The stream ended before a fully distinct window appeared.
    NoMarker,
    /// The transcript walked up from the root directory.
    NoParent,
    /// The transcript replay descended into a file.
    NotADir,
    /// The free space already meets the requirement; nothing to delete.
    NoDeficit,
    /// No directory is large enough to free the deficit.
    NoCandidate,
    /// The tree is larger than the disk capacity.
    CapacityExceeded,
    /// Fewer groups than the ranking asks for.
    TooFewGroups,
    /// More unit steps than the coordinate range allows.
    TooManyMoves,
}

impl SolveError {
    /// A short human-readable description, for a driver's abort message.
    pub fn describe(&self) -> (r: &'static str)
    {
        match self {
            SolveError::Malformed => "input line does not match the expected grammar",
            SolveError::Overflow => "a computed quantity exceeds its integer range",
            SolveError::TooLarge => "the grid is too large for the solver",
            SolveError::NoMarker => "no fully distinct window exists in the stream",
            SolveError::NoParent => "cannot change directory up from the root",
            SolveError::NotADir => "the transcript descended into a file",
            SolveError::NoDeficit => "free space already meets the requirement",
            SolveError::NoCandidate => "no directory is large enough to free the deficit",
            SolveError::CapacityExceeded => "the tree exceeds the disk capacity",
            SolveError::TooFewGroups => "fewer groups than the ranking asks for",
            SolveError::TooManyMoves => "too many unit steps for the coordinate range",
        }
    }
}

} // verus!
