//! Words, facts, and the feedback that a guess receives.

use vstd::prelude::*;

verus! {

/// Number of letters in every word.
pub const WORD_LENGTH: usize = 5;

/// A word: exactly `WORD_LENGTH` letters, compared position by position.
pub type Word = [char; WORD_LENGTH];

/// An ordered list of words.
pub type Words = Vec<Word>;

/// Facts gathered over any number of guesses; their order carries no meaning.
pub type FactSet = Vec<Fact>;

/// What one letter of a guess revealed.
#[derive(Clone, Copy, Debug, PartialEq, Eq, Structural)]
pub enum FeedbackKind {
    /// The secret has this letter at this position.
    Exact,
    /// The secret has this letter, but not at this position.
    Present,
    /// The secret does not have this letter.
    Absent,
}

/// One piece of evidence: a letter, the position it was guessed at, and what
/// the comparison with the secret revealed.
#[derive(Clone, Copy, Debug, PartialEq, Eq, Structural)]
pub struct Fact {
    /// The letter that was guessed.
    pub letter: char,
    /// Where in the guess the letter stood, counted from zero.
    pub position: usize,
    /// What the comparison revealed about the letter.
    pub kind: FeedbackKind,
}

impl Fact {
    /// The position, wherever the fact speaks of it, is an index into a word.
    /// An `Absent` fact says nothing about a position, so any is accepted.
    pub open spec fn wf(self) -> bool {
        self.kind == FeedbackKind::Absent || self.position < WORD_LENGTH
    }
}

/// Every fact of the set refers to a position inside a word.
pub open spec fn facts_wf(facts: Seq<Fact>) -> bool {
    forall|i: int| 0 <= i < facts.len() ==> (#[trigger] facts[i]).wf()
}

/// Decides whether every fact of the set refers to a position inside a word.
pub fn facts_in_range(facts: &FactSet) -> (ok: bool)
    ensures
        ok == facts_wf(facts@),
{
    let mut i: usize = 0;
    while i < facts.len()
        invariant
            i <= facts@.len(),
            forall|k: int| 0 <= k < i ==> (#[trigger] facts@[k]).wf(),
        decreases facts@.len() - i,
    {
        let in_range = match facts[i].kind {
            FeedbackKind::Absent => true,
            _ => facts[i].position < WORD_LENGTH,
        };
        if !in_range {
            return false;
        }
        i += 1;
    }
    true
}

/// Feedback for position `i` of `guess` against `secret`.
///
/// A letter that occurs anywhere in the secret is `Present` at every position
/// where it is not `Exact`, however often the secret holds it.
pub open spec fn kind_at(secret: Word, guess: Word, i: int) -> FeedbackKind {
    if guess[i] == secret[i] {
        FeedbackKind::Exact
    } else if secret@.contains(guess[i]) {
        FeedbackKind::Present
    } else {
        FeedbackKind::Absent
    }
}

/// The fact that position `i` of `guess` yields against `secret`.
pub open spec fn fact_at(secret: Word, guess: Word, i: int) -> Fact {
    Fact { letter: guess[i], position: i as usize, kind: kind_at(secret, guess, i) }
}

/// The feedback for a whole guess: one fact per position, in order.
pub open spec fn feedback_for(secret: Word, guess: Word) -> Seq<Fact> {
    Seq::new(WORD_LENGTH as nat, |i: int| fact_at(secret, guess, i))
}

/// Builds a fact from its three parts.
pub fn build_fact(kind: FeedbackKind, letter: char, position: usize) -> (fact: Fact)
    ensures
        fact == (Fact { letter, position, kind }),
{
    Fact { letter, position, kind }
}

/// Whether `word` holds `letter` at any position.
pub fn has_letter(word: &Word, letter: char) -> (found: bool)
    ensures
        found == word@.contains(letter),
{
    let mut i: usize = 0;
    while i < WORD_LENGTH
        invariant
            i <= WORD_LENGTH,
            forall|k: int| 0 <= k < i ==> word@[k] != letter,
        decreases WORD_LENGTH - i,
    {
        if word[i] == letter {
            return true;
        }
        i += 1;
    }
    false
}

/// Compares `guess` with `secret` and reports one fact per position.
pub fn check(secret: &Word, guess: &Word) -> (facts: FactSet)
    ensures
        facts@ == feedback_for(*secret, *guess),
        facts@.len() == WORD_LENGTH,
        forall|i: int|
            0 <= i < WORD_LENGTH ==> {
                &&& (#[trigger] facts@[i]).position == i
                &&& facts@[i].letter == guess[i]
                &&& facts@[i].kind == kind_at(*secret, *guess, i)
            },
{
    let mut facts: FactSet = Vec::new();
    let mut i: usize = 0;
    while i < WORD_LENGTH
        invariant
            i <= WORD_LENGTH,
            facts@.len() == i,
            forall|k: int| 0 <= k < i ==> facts@[k] == fact_at(*secret, *guess, k),
        decreases WORD_LENGTH - i,
    {
        let letter = guess[i];
        let kind = if letter == secret[i] {
            FeedbackKind::Exact
        } else if has_letter(secret, letter) {
            FeedbackKind::Present
        } else {
            FeedbackKind::Absent
        };
        facts.push(build_fact(kind, letter, i));
        i += 1;
    }
    assert(facts@ =~= feedback_for(*secret, *guess));
    facts
}

/// Comparing a word with itself yields `Exact` at every position.
pub proof fn check_self_is_exact(word: Word)
    ensures
        feedback_for(word, word).len() == WORD_LENGTH,
        forall|i: int|
            0 <= i < WORD_LENGTH ==> (#[trigger] feedback_for(word, word)[i]).kind
                == FeedbackKind::Exact,
{
}

} // verus!
