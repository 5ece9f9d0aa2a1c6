//! Why the library refuses an input.

use vstd::prelude::*;

verus! {

/// The ways in which loading a word or solving can fail.
#[derive(Clone, Copy, Debug, PartialEq, Eq, Structural)]
pub enum SolverError {
    /// A piece of text does not have exactly as many letters as a word.
    MalformedWord,
    /// No word agrees with the facts: the facts contradict each other.
    InvalidConstraintState,
    /// The total number of guesses is larger than a `usize` can hold.
    CostOverflow,
}

} // verus!
