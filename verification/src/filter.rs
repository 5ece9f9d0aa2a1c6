//! The candidate filter: which words agree with a set of facts.

use vstd::prelude::*;
use crate::feedback::{facts_wf, has_letter, Fact, FactSet, FeedbackKind, Word, Words};
use crate::seq_filter::{
    lemma_filter_agree, lemma_filter_all, lemma_filter_contains_iff, lemma_filter_no_duplicates,
    lemma_filter_twice,
};

verus! {

/// Whether `word` agrees with one fact.
pub open spec fn satisfies(word: Word, fact: Fact) -> bool {
    match fact.kind {
        FeedbackKind::Exact => word[fact.position as int] == fact.letter,
        FeedbackKind::Present => word[fact.position as int] != fact.letter && word@.contains(
            fact.letter,
        ),
        FeedbackKind::Absent => !word@.contains(fact.letter),
    }
}

/// Whether `word` agrees with every fact of the set.
pub open spec fn consistent(word: Word, facts: Seq<Fact>) -> bool {
    forall|i: int| 0 <= i < facts.len() ==> satisfies(word, #[trigger] facts[i])
}

/// The test that the filter applies to each word.
pub open spec fn keeps(facts: Seq<Fact>) -> spec_fn(Word) -> bool {
    |word: Word| consistent(word, facts)
}

/// The words of `words` that agree with every fact, in the order in which
/// `words` lists them.
pub open spec fn filtered(words: Seq<Word>, facts: Seq<Fact>) -> Seq<Word> {
    words.filter(keeps(facts))
}

/// Decides whether `word` agrees with `fact`.
pub fn word_satisfies(word: &Word, fact: &Fact) -> (ok: bool)
    requires
        fact.wf(),
    ensures
        ok == satisfies(*word, *fact),
{
    match fact.kind {
        FeedbackKind::Exact => word[fact.position] == fact.letter,
        FeedbackKind::Present => word[fact.position] != fact.letter && has_letter(
            word,
            fact.letter,
        ),
        FeedbackKind::Absent => !has_letter(word, fact.letter),
    }
}

/// Decides whether `word` agrees with every fact of `facts`.
pub fn word_consistent(word: &Word, facts: &FactSet) -> (ok: bool)
    requires
        facts_wf(facts@),
    ensures
        ok == consistent(*word, facts@),
{
    let mut i: usize = 0;
    while i < facts.len()
        invariant
            i <= facts.len(),
            facts_wf(facts@),
            forall|k: int| 0 <= k < i ==> satisfies(*word, #[trigger] facts@[k]),
        decreases facts.len() - i,
    {
        if !word_satisfies(word, &facts[i]) {
            return false;
        }
        i += 1;
    }
    true
}

/// Keeps the words that agree with every fact, in the order in which `words`
/// lists them.
///
/// A word is kept exactly when it is consistent with the facts: nothing
/// inconsistent is let through and nothing consistent is lost.
pub fn filter_words(words: &Words, facts: &FactSet) -> (kept: Words)
    requires
        facts_wf(facts@),
    ensures
        kept@ == filtered(words@, facts@),
        kept@.len() <= words@.len(),
        forall|w: Word| kept@.contains(w) <==> words@.contains(w) && consistent(w, facts@),
{
    let mut kept: Words = Vec::new();
    let mut i: usize = 0;
    while i < words.len()
        invariant
            i <= words.len(),
            facts_wf(facts@),
            kept@ == filtered(words@.take(i as int), facts@),
        decreases words.len() - i,
    {
        proof {
            assert(words@.take(i + 1) =~= words@.take(i as int).push(words@[i as int]));
            words@.take(i as int).lemma_filter_push(words@[i as int], keeps(facts@));
        }
        if word_consistent(&words[i], facts) {
            kept.push(words[i]);
        }
        i += 1;
    }
    proof {
        assert(words@.take(i as int) =~= words@);
        filter_keeps_the_consistent(words@, facts@);
    }
    kept
}

/// The filter is sound and complete: its output holds a word exactly when the
/// input holds it and it agrees with every fact. The output is never longer
/// than the input.
pub proof fn filter_keeps_the_consistent(words: Seq<Word>, facts: Seq<Fact>)
    ensures
        forall|w: Word| #[trigger]
            filtered(words, facts).contains(w) <==> words.contains(w) && consistent(w, facts),
        forall|i: int|
            0 <= i < filtered(words, facts).len() ==> consistent(
                #[trigger] filtered(words, facts)[i],
                facts,
            ),
        filtered(words, facts).len() <= words.len(),
{
    let kept = filtered(words, facts);
    assert forall|w: Word| #[trigger] kept.contains(w) <==> words.contains(w) && consistent(
        w,
        facts,
    ) by {
        lemma_filter_contains_iff(words, keeps(facts), w);
    }
    assert forall|i: int| 0 <= i < kept.len() implies consistent(#[trigger] kept[i], facts) by {
        words.lemma_filter_pred(keeps(facts), i);
    }
    words.lemma_filter_len(keeps(facts));
}

/// Words that are pairwise different leave candidates that are pairwise
/// different, whatever the facts.
pub proof fn filter_keeps_distinct(words: Seq<Word>, facts: Seq<Fact>)
    requires
        words.no_duplicates(),
    ensures
        filtered(words, facts).no_duplicates(),
{
    lemma_filter_no_duplicates(words, keeps(facts));
}

/// Filtering a second time with the same facts changes nothing.
pub proof fn filter_idempotent(words: Seq<Word>, facts: Seq<Fact>)
    ensures
        filtered(filtered(words, facts), facts) == filtered(words, facts),
{
    filter_keeps_the_consistent(words, facts);
    lemma_filter_all(filtered(words, facts), keeps(facts));
}

/// A word agrees with two sets of facts taken together exactly when it agrees
/// with each of them.
pub proof fn consistent_with_both(word: Word, a: Seq<Fact>, b: Seq<Fact>)
    ensures
        consistent(word, a + b) <==> consistent(word, a) && consistent(word, b),
{
    let ab = a + b;
    if consistent(word, ab) {
        assert forall|i: int| 0 <= i < a.len() implies satisfies(word, #[trigger] a[i]) by {
            assert(ab[i] == a[i]);
        }
        assert forall|i: int| 0 <= i < b.len() implies satisfies(word, #[trigger] b[i]) by {
            assert(ab[a.len() + i] == b[i]);
        }
    }
    if consistent(word, a) && consistent(word, b) {
        assert forall|i: int| 0 <= i < ab.len() implies satisfies(word, #[trigger] ab[i]) by {
            if i < a.len() {
                assert(ab[i] == a[i]);
            } else {
                assert(ab[i] == b[i - a.len()]);
            }
        }
    }
}

/// Filtering by two sets of facts at once is filtering by one and then by the
/// other, in either order of the two sets.
pub proof fn filter_by_both(words: Seq<Word>, a: Seq<Fact>, b: Seq<Fact>)
    ensures
        filtered(words, a + b) == filtered(filtered(words, a), b),
        filtered(words, b + a) == filtered(filtered(words, a), b),
{
    assert forall|i: int| 0 <= i < words.len() implies #[trigger] keeps(a + b)(words[i]) == (keeps(
        a,
    )(words[i]) && keeps(b)(words[i])) by {
        consistent_with_both(words[i], a, b);
    }
    lemma_filter_twice(words, keeps(a), keeps(b), keeps(a + b));
    assert forall|i: int| 0 <= i < words.len() implies #[trigger] keeps(b + a)(words[i]) == (keeps(
        a,
    )(words[i]) && keeps(b)(words[i])) by {
        consistent_with_both(words[i], b, a);
    }
    lemma_filter_twice(words, keeps(a), keeps(b), keeps(b + a));
}

/// Adding a fact never adds a candidate: what remains is the earlier result
/// filtered once more, so every remaining word was a candidate before and the
/// candidates are no more than before.
pub proof fn filter_shrinks_with_fact(words: Seq<Word>, facts: Seq<Fact>, fact: Fact)
    ensures
        filtered(words, facts.push(fact)) == filtered(
            filtered(words, facts),
            seq![fact],
        ),
        filtered(words, facts.push(fact)).len() <= filtered(words, facts).len(),
        forall|w: Word| #[trigger]
            filtered(words, facts.push(fact)).contains(w) ==> filtered(
                words,
                facts,
            ).contains(w),
{
    assert(facts.push(fact) =~= facts + seq![fact]);
    filter_by_both(words, facts, seq![fact]);
    filter_keeps_the_consistent(filtered(words, facts), seq![fact]);
}

/// A word that agrees with a set of facts agrees with any set made of facts
/// taken from it.
pub proof fn consistent_with_fewer(word: Word, fewer: Seq<Fact>, more: Seq<Fact>)
    requires
        forall|i: int| 0 <= i < fewer.len() ==> more.contains(#[trigger] fewer[i]),
        consistent(word, more),
    ensures
        consistent(word, fewer),
{
    assert forall|i: int| 0 <= i < fewer.len() implies satisfies(word, #[trigger] fewer[i]) by {
        assert(more.contains(fewer[i]));
        let k = choose|k: int| 0 <= k < more.len() && more[k] == fewer[i];
        assert(satisfies(word, more[k]));
    }
}

/// Facts can only be added: a set that holds every fact of another, in any
/// order and however often, selects from what the other selects. Its
/// candidates are candidates of the other, and no more in number.
pub proof fn filter_shrinks_with_more_facts(words: Seq<Word>, fewer: Seq<Fact>, more: Seq<Fact>)
    requires
        forall|i: int| 0 <= i < fewer.len() ==> more.contains(#[trigger] fewer[i]),
    ensures
        filtered(words, more) == filtered(filtered(words, fewer), more),
        filtered(words, more).len() <= filtered(words, fewer).len(),
        forall|w: Word| #[trigger]
            filtered(words, more).contains(w) ==> filtered(words, fewer).contains(w),
{
    assert forall|i: int| 0 <= i < words.len() implies #[trigger] keeps(more)(words[i]) == (keeps(
        fewer,
    )(words[i]) && keeps(more)(words[i])) by {
        if consistent(words[i], more) {
            consistent_with_fewer(words[i], fewer, more);
        }
    }
    lemma_filter_twice(words, keeps(fewer), keeps(more), keeps(more));
    filter_keeps_the_consistent(filtered(words, fewer), more);
}

/// The order of the facts, and how often each is listed, does not matter: two
/// sets that hold the same facts select the same words.
pub proof fn filter_ignores_order(words: Seq<Word>, a: Seq<Fact>, b: Seq<Fact>)
    requires
        forall|i: int| 0 <= i < a.len() ==> b.contains(#[trigger] a[i]),
        forall|i: int| 0 <= i < b.len() ==> a.contains(#[trigger] b[i]),
    ensures
        filtered(words, a) == filtered(words, b),
{
    assert forall|i: int| 0 <= i < words.len() implies keeps(a)(#[trigger] words[i]) == keeps(b)(
        words[i],
    ) by {
        if consistent(words[i], a) {
            consistent_with_fewer(words[i], b, a);
        }
        if consistent(words[i], b) {
            consistent_with_fewer(words[i], a, b);
        }
    }
    lemma_filter_agree(words, keeps(a), keeps(b));
}

/// Facts that every word already agrees with do not change what a further
/// set of facts selects.
pub proof fn filter_ignores_known_facts(words: Seq<Word>, fresh: Seq<Fact>, known: Seq<Fact>)
    requires
        forall|i: int| 0 <= i < words.len() ==> consistent(#[trigger] words[i], known),
    ensures
        filtered(words, fresh + known) == filtered(words, fresh),
{
    assert forall|i: int| 0 <= i < words.len() implies keeps(fresh + known)(#[trigger] words[i])
        == keeps(fresh)(words[i]) by {
        consistent_with_both(words[i], fresh, known);
    }
    lemma_filter_agree(words, keeps(fresh + known), keeps(fresh));
}

} // verus!
