//! Words and facts from text.

use vstd::prelude::*;
use crate::error::SolverError;
use crate::feedback::{
    build_fact, check, feedback_for, Fact, FactSet, FeedbackKind, Word, Words, WORD_LENGTH,
};

verus! {

/// The letters of a piece of text, one by one.
pub fn letters_of(text: &str) -> (letters: Vec<char>)
    ensures
        letters@ == text@,
{
    let mut letters: Vec<char> = Vec::new();
    let chars = text.chars();
    for letter in it: chars
        invariant
            it.seq() == text@,
            letters@ == it.seq().take(it.index()),
    {
        letters.push(letter);
        proof {
            assert(it.seq().take(it.index() + 1) =~= it.seq().take(it.index()).push(letter));
        }
    }
    proof {
        assert(text@.take(text@.len() as int) =~= text@);
    }
    letters
}

/// The word spelled by `letters[start..end]`, which must be exactly as long as
/// a word.
fn word_from(letters: &Vec<char>, start: usize, end: usize) -> (res: Result<Word, SolverError>)
    requires
        start <= end <= letters@.len(),
    ensures
        end - start == WORD_LENGTH <==> res is Ok,
        res matches Ok(word) ==> word@ == letters@.subrange(start as int, end as int),
        res matches Err(e) ==> e == SolverError::MalformedWord,
{
    if end - start != WORD_LENGTH {
        return Err(SolverError::MalformedWord);
    }
    let mut word: Word = [' '; WORD_LENGTH];
    let mut i: usize = 0;
    while i < WORD_LENGTH
        invariant
            i <= WORD_LENGTH,
            end - start == WORD_LENGTH,
            end <= letters@.len(),
            forall|k: int| 0 <= k < i ==> word@[k] == letters@[start + k],
        decreases WORD_LENGTH - i,
    {
        word[i] = letters[start + i];
        i += 1;
    }
    assert(word@ =~= letters@.subrange(start as int, end as int));
    Ok(word)
}

/// Reads a word from text: the text must have exactly as many letters as a
/// word, and the word holds them in order.
pub fn to_array(text: &str) -> (res: Result<Word, SolverError>)
    ensures
        text@.len() == WORD_LENGTH <==> res is Ok,
        res matches Ok(word) ==> word@ == text@,
        res matches Err(e) ==> e == SolverError::MalformedWord,
{
    let letters = letters_of(text);
    let res = word_from(&letters, 0, letters.len());
    assert(letters@.subrange(0, letters@.len() as int) =~= letters@);
    res
}

/// Feedback for a guess against a secret, both given as text. Either text of
/// the wrong length is refused.
pub fn check_str(answer: &str, guess: &str) -> (res: Result<FactSet, SolverError>)
    ensures
        answer@.len() == WORD_LENGTH && guess@.len() == WORD_LENGTH <==> res is Ok,
        res matches Ok(facts) ==> exists|secret: Word, tried: Word|
            secret@ == answer@ && tried@ == guess@ && facts@ == feedback_for(secret, tried),
        res matches Err(e) ==> e == SolverError::MalformedWord,
{
    match to_array(answer) {
        Ok(secret) => match to_array(guess) {
            Ok(tried) => Ok(check(&secret, &tried)),
            Err(e) => Err(e),
        },
        Err(e) => Err(e),
    }
}

/// The fact of the given kind about a letter and a position.
pub open spec fn placed_fact(pair: (char, usize), kind: FeedbackKind) -> Fact {
    Fact { letter: pair.0, position: pair.1, kind }
}

/// The fact that a letter does not occur. Its position carries no meaning and
/// is set to zero.
pub open spec fn absent_fact(letter: char) -> Fact {
    Fact { letter, position: 0, kind: FeedbackKind::Absent }
}

/// One fact of the given kind for each pair of a letter and a position.
pub open spec fn placed_facts(pairs: Seq<(char, usize)>, kind: FeedbackKind) -> Seq<Fact> {
    Seq::new(pairs.len(), |i: int| placed_fact(pairs[i], kind))
}

/// One `Absent` fact for each letter.
pub open spec fn absent_facts(letters: Seq<char>) -> Seq<Fact> {
    Seq::new(letters.len(), |i: int| absent_fact(letters[i]))
}

/// Builds a fact set from what a player knows: letters with their exact
/// positions, letters that occur but not at the given positions, and letters
/// that do not occur. The facts come in that order.
pub fn factify(correct: &Vec<(char, usize)>, used: &Vec<(char, usize)>, not_used: &str) -> (facts:
    FactSet)
    ensures
        facts@ == placed_facts(correct@, FeedbackKind::Exact) + placed_facts(
            used@,
            FeedbackKind::Present,
        ) + absent_facts(not_used@),
{
    let mut facts: FactSet = Vec::new();
    let mut i: usize = 0;
    while i < correct.len()
        invariant
            i <= correct@.len(),
            facts@.len() == i,
            forall|n: int|
                0 <= n < i ==> #[trigger] facts@[n] == placed_fact(correct@[n], FeedbackKind::Exact),
        decreases correct@.len() - i,
    {
        let pair = correct[i];
        facts.push(build_fact(FeedbackKind::Exact, pair.0, pair.1));
        i += 1;
    }
    let ghost exact = facts@;
    assert(exact =~= placed_facts(correct@, FeedbackKind::Exact));
    let mut j: usize = 0;
    while j < used.len()
        invariant
            j <= used@.len(),
            facts@.len() == exact.len() + j,
            forall|n: int| 0 <= n < exact.len() ==> #[trigger] facts@[n] == exact[n],
            forall|n: int|
                0 <= n < j ==> #[trigger] facts@[exact.len() + n] == placed_fact(
                    used@[n],
                    FeedbackKind::Present,
                ),
        decreases used@.len() - j,
    {
        let pair = used[j];
        facts.push(build_fact(FeedbackKind::Present, pair.0, pair.1));
        j += 1;
    }
    let ghost placed = facts@;
    proof {
        let both = exact + placed_facts(used@, FeedbackKind::Present);
        assert forall|n: int| 0 <= n < placed.len() implies placed[n] == both[n] by {
            if n >= exact.len() {
                assert(placed[exact.len() + (n - exact.len())] == both[n]);
            }
        }
        assert(placed =~= both);
    }
    let letters = letters_of(not_used);
    let mut k: usize = 0;
    while k < letters.len()
        invariant
            k <= letters@.len(),
            facts@.len() == placed.len() + k,
            forall|n: int| 0 <= n < placed.len() ==> #[trigger] facts@[n] == placed[n],
            forall|n: int|
                0 <= n < k ==> #[trigger] facts@[placed.len() + n] == absent_fact(letters@[n]),
        decreases letters@.len() - k,
    {
        facts.push(build_fact(FeedbackKind::Absent, letters[k], 0));
        k += 1;
    }
    proof {
        let all = placed + absent_facts(not_used@);
        assert forall|n: int| 0 <= n < facts@.len() implies facts@[n] == all[n] by {
            if n >= placed.len() {
                assert(facts@[placed.len() + (n - placed.len())] == all[n]);
            }
        }
        assert(facts@ =~= all);
    }
    facts
}

/// Where the first line of `text` ends: at its first line feed, or at the end
/// of the text where it has none.
pub open spec fn line_end(text: Seq<char>) -> int
    decreases text.len(),
{
    if text.len() == 0 || text[0] == '\n' {
        0
    } else {
        1 + line_end(text.skip(1))
    }
}

/// A line without the carriage return that may end it.
pub open spec fn without_cr(line: Seq<char>) -> Seq<char> {
    if line.len() > 0 && line.last() == '\r' {
        line.drop_last()
    } else {
        line
    }
}

/// The lines of a text. A line ends at a line feed, which is not part of it,
/// nor is a carriage return directly before the line feed. What follows the
/// last line feed is a line too, unless it is empty.
pub open spec fn lines_of(text: Seq<char>) -> Seq<Seq<char>>
    decreases text.len(),
{
    if text.len() == 0 {
        Seq::empty()
    } else {
        let end = line_end(text);
        if 0 <= end < text.len() {
            seq![without_cr(text.take(end))] + lines_of(text.skip(end + 1))
        } else {
            seq![text]
        }
    }
}

/// The first line ends at `k` when a line feed or the end of the text stands
/// there and no line feed stands before.
pub proof fn lemma_line_end(text: Seq<char>, k: int)
    requires
        0 <= k <= text.len(),
        forall|j: int| 0 <= j < k ==> text[j] != '\n',
        k < text.len() ==> text[k] == '\n',
    ensures
        line_end(text) == k,
    decreases text.len(),
{
    if k > 0 {
        lemma_line_end(text.skip(1), k - 1);
    }
}

/// Reads a dictionary: one word on each line of `text`. A line that is not
/// exactly as long as a word, an empty one included, is refused.
pub fn parse_words(text: &str) -> (res: Result<Words, SolverError>)
    ensures
        (forall|i: int|
            0 <= i < lines_of(text@).len() ==> (#[trigger] lines_of(text@)[i]).len()
                == WORD_LENGTH) <==> res is Ok,
        res matches Ok(words) ==> {
            &&& words@.len() == lines_of(text@).len()
            &&& forall|i: int| 0 <= i < words@.len() ==> (#[trigger] words@[i])@ == lines_of(text@)[i]
        },
        res matches Err(e) ==> e == SolverError::MalformedWord,
{
    let letters = letters_of(text);
    let n: usize = letters.len();
    let mut words: Words = Vec::new();
    let mut start: usize = 0;
    let mut i: usize = 0;
    let ghost mut done: Seq<Seq<char>> = Seq::empty();
    proof {
        assert(text@.skip(0) =~= text@);
        assert(done + lines_of(text@) =~= lines_of(text@));
    }
    while i < n
        invariant
            start <= i <= n,
            n == letters@.len(),
            letters@ == text@,
            forall|j: int| start <= j < i ==> letters@[j] != '\n',
            lines_of(text@) == done + lines_of(text@.skip(start as int)),
            words@.len() == done.len(),
            forall|k: int| 0 <= k < words@.len() ==> (#[trigger] words@[k])@ == done[k],
        decreases n - i,
    {
        if letters[i] == '\n' {
            let end: usize = if start < i && letters[i - 1] == '\r' {
                i - 1
            } else {
                i
            };
            let ghost rest = text@.skip(start as int);
            let ghost line = without_cr(rest.take(i - start));
            proof {
                lemma_line_end(rest, i - start);
                assert(rest.skip(i - start + 1) =~= text@.skip(i + 1));
                assert(line =~= letters@.subrange(start as int, end as int));
                assert(lines_of(text@) =~= done.push(line) + lines_of(text@.skip(i + 1)));
            }
            match word_from(&letters, start, end) {
                Ok(word) => {
                    words.push(word);
                },
                Err(e) => {
                    proof {
                        assert(lines_of(text@)[done.len() as int] == line);
                    }
                    return Err(e);
                },
            }
            proof {
                done = done.push(line);
            }
            start = i + 1;
        }
        i += 1;
    }
    if start < n {
        let ghost rest = text@.skip(start as int);
        proof {
            lemma_line_end(rest, n - start);
            assert(rest =~= letters@.subrange(start as int, n as int));
            assert(lines_of(text@) =~= done.push(rest));
        }
        match word_from(&letters, start, n) {
            Ok(word) => {
                words.push(word);
            },
            Err(e) => {
                proof {
                    assert(lines_of(text@)[done.len() as int] == rest);
                }
                return Err(e);
            },
        }
        proof {
            done = done.push(rest);
        }
    } else {
        proof {
            assert(lines_of(text@) =~= done);
        }
    }
    proof {
        assert forall|i: int| 0 <= i < lines_of(text@).len() implies (#[trigger] lines_of(
            text@,
        )[i]).len() == WORD_LENGTH by {
            assert(words@[i]@ == lines_of(text@)[i]);
        }
    }
    Ok(words)
}

/// Whether two words hold the same letters at every position.
pub fn same_word(a: &Word, b: &Word) -> (same: bool)
    ensures
        same == (*a == *b),
{
    let mut i: usize = 0;
    while i < WORD_LENGTH
        invariant
            i <= WORD_LENGTH,
            forall|k: int| 0 <= k < i ==> a[k] == b[k],
        decreases WORD_LENGTH - i,
    {
        if a[i] != b[i] {
            return false;
        }
        i += 1;
    }
    assert(*a =~= *b);
    true
}

/// Whether no word occurs twice in `words`.
pub fn all_distinct(words: &Words) -> (distinct: bool)
    ensures
        distinct == words@.no_duplicates(),
{
    let mut i: usize = 0;
    while i < words.len()
        invariant
            i <= words@.len(),
            forall|a: int, b: int| 0 <= a < b < i ==> words@[a] != words@[b],
        decreases words@.len() - i,
    {
        let mut j: usize = 0;
        while j < i
            invariant
                j <= i < words@.len(),
                forall|a: int| 0 <= a < j ==> words@[a] != words@[i as int],
            decreases i - j,
        {
            if same_word(&words[j], &words[i]) {
                return false;
            }
            j += 1;
        }
        i += 1;
    }
    true
}

} // verus!
