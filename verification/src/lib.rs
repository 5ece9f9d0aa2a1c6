//! Exhaustive solver for a word-guessing game played with five-letter words.
//!
//! A guess is answered letter by letter: the letter is in the right place, it
//! occurs elsewhere in the secret, or it does not occur at all. From the
//! answers gathered so far the solver keeps the words that are still possible
//! and searches, without shortcuts, for the guess with the smallest total
//! number of further guesses over all of them.
//!
//! - [`feedback`]: words, facts, and the comparison of a guess with a secret.
//! - [`filter`]: the words that agree with a set of facts, and the laws of
//!   filtering.
//! - [`search`]: the cost of a guess, the search for the best one, and the
//!   ranking of opening guesses.
//! - [`dictionary`]: words, facts and word lists read from text.
//! - [`seq_filter`]: general facts about selecting from a sequence.
//! - [`error`]: why an input is refused.

pub mod dictionary;
pub mod error;
pub mod feedback;
pub mod filter;
pub mod search;
pub mod seq_filter;

pub use crate::dictionary::{all_distinct, check_str, factify, parse_words, to_array};
pub use crate::error::SolverError;
pub use crate::feedback::{
    build_fact, check, Fact, FactSet, FeedbackKind, Word, Words, WORD_LENGTH,
};
pub use crate::filter::filter_words;
pub use crate::search::{best_guess, solve, GuessResult};
