//! The exhaustive search for the guess with the least total of further
//! guesses, and the ranking of opening guesses built on it.

use vstd::prelude::*;
use rayon::iter::{IntoParallelRefIterator, ParallelIterator};
use crate::error::SolverError;
use crate::feedback::{
    check, feedback_for, facts_wf, kind_at, FactSet, FeedbackKind, Word, Words, WORD_LENGTH,
};
use crate::filter::{
    consistent, filter_ignores_known_facts, filter_keeps_the_consistent, filtered,
    filter_words, keeps, satisfies,
};
use crate::seq_filter::{lemma_filter_drops, lemma_filter_no_duplicates};

verus! {

/// A guess together with the total number of guesses that choosing it takes,
/// summed over every word that is still possible.
#[derive(Clone, Copy, Debug, PartialEq, Eq)]
pub struct GuessResult {
    /// The word to guess.
    pub guess: Word,
    /// The total number of guesses, summed over all possible secrets.
    pub guesses: usize,
    /// How many words the guess was chosen among.
    pub num_candidates: usize,
}

/// The candidates that remain once `guess` has been answered the way the
/// secret `secret` answers it.
pub open spec fn narrow(candidates: Seq<Word>, secret: Word, guess: Word) -> Seq<Word> {
    filtered(candidates, feedback_for(secret, guess))
}

/// Whether `guess` is one of at least two candidates, no two of them equal.
/// Such a guess always rules out a candidate, whatever the secret is.
pub open spec fn splits(candidates: Seq<Word>, guess: Word) -> bool {
    candidates.no_duplicates() && candidates.len() >= 2 && candidates.contains(guess)
}

/// Termination measure of a guess: low for a guess that is sure to rule out a
/// candidate, high for any other, which may leave the candidates as they are.
/// A search ranks between the two, so that a search may evaluate a guess of
/// the first kind, and a guess of the second kind may start a search.
pub open spec fn guess_rank(candidates: Seq<Word>, guess: Word) -> nat {
    if splits(candidates, guess) {
        0
    } else {
        3
    }
}

/// The total number of guesses that the best guess takes over `candidates`.
///
/// A single candidate takes one guess. Two or more take the least
/// `cost_of_guess` over all of them as the next guess. The search is defined
/// for candidates that are pairwise different; for any other list, and for
/// the empty one, the value is set to one and means nothing.
pub open spec fn search_cost(candidates: Seq<Word>) -> nat
    decreases candidates.len(), 2nat, 0nat,
{
    if candidates.len() >= 2 && candidates.no_duplicates() {
        least_cost(candidates, candidates.len())
    } else {
        1
    }
}

/// The least `cost_of_guess` among the first `n` candidates taken as guesses,
/// for `n` from one up to the number of candidates.
pub open spec fn least_cost(candidates: Seq<Word>, n: nat) -> nat
    decreases candidates.len(), 1nat, n,
{
    if !(candidates.no_duplicates() && candidates.len() >= 2 && 1 <= n <= candidates.len()) {
        0
    } else if n == 1 {
        proof {
            lemma_member(candidates, 0);
        }
        cost_of_guess(candidates, candidates[0])
    } else {
        proof {
            lemma_member(candidates, n - 1);
        }
        let rest = least_cost(candidates, (n - 1) as nat);
        let last = cost_of_guess(candidates, candidates[n - 1]);
        if last < rest {
            last
        } else {
            rest
        }
    }
}

/// The total for one guess: one for the guess itself and, for every candidate
/// taken in turn as the secret, the cost of the search among the candidates
/// that the answer leaves. The guess need not be a candidate.
pub open spec fn cost_of_guess(candidates: Seq<Word>, guess: Word) -> nat
    decreases candidates.len(), guess_rank(candidates, guess), candidates.len() + 1,
{
    1 + follow_up(candidates, guess, candidates.len())
}

/// The part of `cost_of_guess` that the first `k` candidates contribute as
/// secrets.
pub open spec fn follow_up(candidates: Seq<Word>, guess: Word, k: nat) -> nat
    decreases candidates.len(), guess_rank(candidates, guess), k,
{
    if k == 0 || k > candidates.len() {
        0
    } else {
        proof {
            lemma_narrow_len(candidates, candidates[k - 1], guess);
        }
        follow_up(candidates, guess, (k - 1) as nat) + search_cost(
            narrow(candidates, candidates[k - 1], guess),
        )
    }
}

/// The index of the first of the first `n` candidates whose `cost_of_guess`
/// is least among them.
pub open spec fn best_index(candidates: Seq<Word>, n: nat) -> nat
    decreases n,
{
    if n <= 1 {
        0
    } else {
        let rest = best_index(candidates, (n - 1) as nat);
        if cost_of_guess(candidates, candidates[n - 1]) < cost_of_guess(
            candidates,
            candidates[rest as int],
        ) {
            (n - 1) as nat
        } else {
            rest
        }
    }
}

/// A count as a `usize`, where it fits.
pub open spec fn fits(count: nat) -> Option<usize> {
    if count <= usize::MAX {
        Some(count as usize)
    } else {
        None
    }
}

/// An element of a sequence is contained in it.
pub proof fn lemma_member(s: Seq<Word>, i: int)
    requires
        0 <= i < s.len(),
    ensures
        s.contains(s[i]),
{
}

/// A secret agrees with the feedback that it gives.
pub proof fn secret_survives_feedback(secret: Word, guess: Word)
    ensures
        consistent(secret, feedback_for(secret, guess)),
        facts_wf(feedback_for(secret, guess)),
{
    let facts = feedback_for(secret, guess);
    assert forall|i: int| 0 <= i < facts.len() implies satisfies(secret, #[trigger] facts[i]) by {
        if kind_at(secret, guess, i) == FeedbackKind::Present {
            assert(secret@.contains(guess[i]));
        }
    }
}

/// A guess agrees with the feedback that it received exactly when it is the
/// secret: any letter that is not in its place rules the guess out.
pub proof fn guess_survives_only_itself(secret: Word, guess: Word)
    ensures
        consistent(guess, feedback_for(secret, guess)) <==> secret == guess,
{
    let facts = feedback_for(secret, guess);
    if secret == guess {
        secret_survives_feedback(secret, guess);
    } else {
        assert(!(secret =~= guess));
        let i = choose|i: int| 0 <= i < WORD_LENGTH && secret[i] != guess[i];
        assert(guess@[i] == guess[i]);
        assert(guess@.contains(guess[i]));
        assert(!satisfies(guess, facts[i]));
    }
}

/// Feedback never adds a candidate, and a guess taken from at least two
/// distinct candidates rules out at least one of them.
pub proof fn lemma_narrow_len(candidates: Seq<Word>, secret: Word, guess: Word)
    ensures
        narrow(candidates, secret, guess).len() <= candidates.len(),
        splits(candidates, guess) ==> narrow(candidates, secret, guess).len() < candidates.len(),
{
    let facts = feedback_for(secret, guess);
    candidates.lemma_filter_len(keeps(facts));
    if splits(candidates, guess) {
        guess_survives_only_itself(secret, guess);
        if secret == guess {
            let other = if candidates[0] == guess {
                1int
            } else {
                0int
            };
            assert(candidates[other] != guess);
            assert(!(candidates[other] =~= guess));
            let i = choose|i: int| 0 <= i < WORD_LENGTH && candidates[other][i] != guess[i];
            assert(!satisfies(candidates[other], facts[i]));
            lemma_filter_drops(candidates, keeps(facts), other);
        } else {
            let at = choose|at: int| 0 <= at < candidates.len() && candidates[at] == guess;
            lemma_filter_drops(candidates, keeps(facts), at);
        }
    }
}

/// Every search below a guess is a smaller one of the same kind: with two or
/// more candidates, no two equal, the candidates that remain after any of
/// them was guessed against any of them as the secret are fewer, still
/// pairwise different, and hold the secret.
pub proof fn search_descends(candidates: Seq<Word>, guess_at: int, secret_at: int)
    requires
        candidates.no_duplicates(),
        candidates.len() >= 2,
        0 <= guess_at < candidates.len(),
        0 <= secret_at < candidates.len(),
    ensures
        narrow(candidates, candidates[secret_at], candidates[guess_at]).len() < candidates.len(),
        narrow(candidates, candidates[secret_at], candidates[guess_at]).no_duplicates(),
        narrow(candidates, candidates[secret_at], candidates[guess_at]).contains(
            candidates[secret_at],
        ),
{
    let secret = candidates[secret_at];
    let guess = candidates[guess_at];
    lemma_member(candidates, guess_at);
    lemma_member(candidates, secret_at);
    lemma_narrow_len(candidates, secret, guess);
    lemma_filter_no_duplicates(candidates, keeps(feedback_for(secret, guess)));
    secret_survives_feedback(secret, guess);
    filter_keeps_the_consistent(candidates, feedback_for(secret, guess));
}

/// The costs of the first `n` guesses have a least value, `least_cost`, and
/// `best_index` names the first guess that reaches it: every earlier guess
/// costs strictly more, and no guess costs less.
pub proof fn best_index_is_first_least(candidates: Seq<Word>, n: nat)
    requires
        candidates.no_duplicates(),
        candidates.len() >= 2,
        1 <= n <= candidates.len(),
    ensures
        best_index(candidates, n) < n,
        least_cost(candidates, n) == cost_of_guess(
            candidates,
            candidates[best_index(candidates, n) as int],
        ),
        forall|j: int|
            0 <= j < n ==> least_cost(candidates, n) <= cost_of_guess(
                candidates,
                #[trigger] candidates[j],
            ),
        forall|j: int|
            0 <= j < best_index(candidates, n) ==> least_cost(candidates, n) < cost_of_guess(
                candidates,
                #[trigger] candidates[j],
            ),
    decreases n,
{
    if n > 1 {
        best_index_is_first_least(candidates, (n - 1) as nat);
    }
}

/// With two or more distinct candidates the cost of the search is the cost of
/// the first guess, in the order of the candidates, that no other guess beats.
pub proof fn search_picks_first_least(candidates: Seq<Word>)
    requires
        candidates.no_duplicates(),
        candidates.len() >= 2,
    ensures
        best_index(candidates, candidates.len()) < candidates.len(),
        search_cost(candidates) == cost_of_guess(
            candidates,
            candidates[best_index(candidates, candidates.len()) as int],
        ),
        forall|j: int|
            0 <= j < candidates.len() ==> search_cost(candidates) <= cost_of_guess(
                candidates,
                #[trigger] candidates[j],
            ),
        forall|j: int|
            0 <= j < best_index(candidates, candidates.len()) ==> search_cost(candidates)
                < cost_of_guess(candidates, #[trigger] candidates[j]),
{
    best_index_is_first_least(candidates, candidates.len());
}

/// The secrets counted so far never contribute more than all of them do.
pub proof fn follow_up_grows(candidates: Seq<Word>, guess: Word, k: nat, n: nat)
    requires
        k <= n <= candidates.len(),
    ensures
        follow_up(candidates, guess, k) <= follow_up(candidates, guess, n),
    decreases n,
{
    if k < n {
        follow_up_grows(candidates, guess, k, (n - 1) as nat);
    }
}

/// Whether `i` is where the first least of the known costs stands: the cost
/// there is known, no known cost is below it, and every known cost before it
/// is above it. A cost that is not known did not fit in a `usize`.
pub open spec fn least_at(costs: Seq<Option<usize>>, i: int) -> bool {
    &&& 0 <= i < costs.len()
    &&& costs[i] is Some
    &&& forall|j: int|
        0 <= j < costs.len() && (#[trigger] costs[j]) is Some ==> costs[i]->0 <= costs[j]->0
    &&& forall|j: int| 0 <= j < i && (#[trigger] costs[j]) is Some ==> costs[i]->0 < costs[j]->0
}

/// The index of the first least cost among those that are known, or `None`
/// where none is known.
pub fn first_least(costs: &Vec<Option<usize>>) -> (best: Option<usize>)
    ensures
        match best {
            Some(i) => least_at(costs@, i as int),
            None => forall|j: int| 0 <= j < costs@.len() ==> (#[trigger] costs@[j]) is None,
        },
{
    let mut best: Option<usize> = None;
    let mut least: usize = 0;
    let mut i: usize = 0;
    while i < costs.len()
        invariant
            i <= costs@.len(),
            match best {
                Some(b) => {
                    &&& b < i
                    &&& costs@[b as int] == Some(least)
                    &&& forall|j: int|
                        0 <= j < i && (#[trigger] costs@[j]) is Some ==> least <= costs@[j]->0
                    &&& forall|j: int|
                        0 <= j < b && (#[trigger] costs@[j]) is Some ==> least < costs@[j]->0
                },
                None => forall|j: int| 0 <= j < i ==> (#[trigger] costs@[j]) is None,
            },
        decreases costs@.len() - i,
    {
        match costs[i] {
            Some(cost) => {
                if best.is_none() || cost < least {
                    best = Some(i);
                    least = cost;
                }
            },
            None => {},
        }
        i += 1;
    }
    best
}

/// What is reported when the candidate at index `i` is chosen at the cost
/// listed for it.
pub open spec fn chosen(candidates: Seq<Word>, costs: Seq<Option<usize>>, i: int) -> GuessResult {
    GuessResult {
        guess: candidates[i],
        guesses: costs[i]->0,
        num_candidates: candidates.len() as usize,
    }
}

/// Chooses among the candidates by the cost listed for each as the next
/// guess: the least cost wins, and among equal costs the earliest candidate.
///
/// A cost of `None` stands for a total too large for a `usize` and loses
/// against any known cost. Where no cost is known the choice fails with
/// `CostOverflow`, and where there is no candidate at all, with
/// `InvalidConstraintState`.
pub fn choose_guess(candidates: &Words, costs: &Vec<Option<usize>>) -> (res: Result<
    GuessResult,
    SolverError,
>)
    requires
        costs@.len() == candidates@.len(),
    ensures
        candidates@.len() == 0 <==> res == Err::<GuessResult, SolverError>(
            SolverError::InvalidConstraintState,
        ),
        candidates@.len() > 0 && (forall|j: int|
            0 <= j < costs@.len() ==> (#[trigger] costs@[j]) is None) <==> res == Err::<
            GuessResult,
            SolverError,
        >(SolverError::CostOverflow),
        res matches Ok(found) ==> exists|i: int| #[trigger]
            least_at(costs@, i) && found == chosen(candidates@, costs@, i),
        !(res matches Err(SolverError::MalformedWord)),
{
    if candidates.len() == 0 {
        return Err(SolverError::InvalidConstraintState);
    }
    match first_least(costs) {
        Some(i) => {
            match costs[i] {
                Some(least) => {
                    assert(least_at(costs@, i as int));
                    Ok(
                        GuessResult {
                            guess: candidates[i],
                            guesses: least,
                            num_candidates: candidates.len(),
                        },
                    )
                },
                None => Err(SolverError::CostOverflow),
            }
        },
        None => Err(SolverError::CostOverflow),
    }
}

/// The feedback of a guess followed by the facts known before it.
pub fn merge_facts(fresh: FactSet, known: &FactSet) -> (merged: FactSet)
    ensures
        merged@ == fresh@ + known@,
{
    let mut merged = fresh;
    let mut i: usize = 0;
    while i < known.len()
        invariant
            i <= known@.len(),
            merged@ == fresh@ + known@.take(i as int),
        decreases known@.len() - i,
    {
        merged.push(known[i]);
        proof {
            assert(known@.take(i + 1) =~= known@.take(i as int).push(known@[i as int]));
            assert(merged@ =~= fresh@ + known@.take(i + 1));
        }
        i += 1;
    }
    proof {
        assert(known@.take(i as int) =~= known@);
    }
    merged
}

/// Computes `cost_of_guess` for `guess` over `words`: one, plus the cost of
/// the search that follows for each word of `words` taken as the secret.
///
/// `facts` are the facts that led to `words`; every word agrees with them, and
/// each search below carries them along with the new feedback. The result is
/// `None` exactly when the total does not fit in a `usize`.
pub fn guess_cost(words: &Words, facts: &FactSet, guess: &Word) -> (total: Option<usize>)
    requires
        facts_wf(facts@),
        words@.no_duplicates(),
        forall|i: int| 0 <= i < words@.len() ==> consistent(#[trigger] words@[i], facts@),
    ensures
        total == fits(cost_of_guess(words@, *guess)),
    decreases words@.len(), guess_rank(words@, *guess), 0nat,
{
    let mut total: usize = 1;
    let mut j: usize = 0;
    while j < words.len()
        invariant
            j <= words@.len(),
            facts_wf(facts@),
            words@.no_duplicates(),
            forall|i: int| 0 <= i < words@.len() ==> consistent(#[trigger] words@[i], facts@),
            total == 1 + follow_up(words@, *guess, j as nat),
        decreases words@.len() - j,
    {
        let seen = merge_facts(check(&words[j], guess), facts);
        proof {
            let secret = words@[j as int];
            let fresh = feedback_for(secret, *guess);
            secret_survives_feedback(secret, *guess);
            assert(facts_wf(seen@)) by {
                assert forall|i: int| 0 <= i < seen@.len() implies (#[trigger] seen@[i]).wf() by {
                    if i < fresh.len() {
                        assert(seen@[i] == fresh[i]);
                    } else {
                        assert(seen@[i] == facts@[i - fresh.len()]);
                    }
                }
            }
            filter_ignores_known_facts(words@, fresh, facts@);
            lemma_filter_no_duplicates(words@, keeps(fresh));
            filter_keeps_the_consistent(words@, fresh);
            assert(words@.contains(secret));
            assert(narrow(words@, secret, *guess).contains(secret));
            follow_up_grows(words@, *guess, (j + 1) as nat, words@.len());
            lemma_narrow_len(words@, secret, *guess);
        }
        match best_guess(words, &seen) {
            Ok(found) => {
                match total.checked_add(found.guesses) {
                    Some(sum) => {
                        total = sum;
                    },
                    None => {
                        return None;
                    },
                }
            },
            Err(_) => {
                return None;
            },
        }
        j += 1;
    }
    Some(total)
}

/// Applies `cost` to every candidate, the candidates shared out over rayon's
/// worker threads.
///
/// The body is rayon's `par_iter()` on the candidates, `map` with `cost`, and
/// `collect` into a `Vec`. Taken on trust from rayon: `map` calls `cost` on
/// items of the list and on nothing else, and `collect` into a `Vec` yields
/// one result for each item, in the order of the items, whichever thread
/// computed it. Nothing is claimed about which thread runs which call, nor
/// about a machine on which rayon cannot start its threads.
#[verifier::external_body]
fn costs_in_parallel<F>(candidates: &Words, cost: F) -> (costs: Vec<Option<usize>>) where
    F: Fn(&Word) -> Option<usize> + Sync + Send,

    requires
        forall|i: int|
            0 <= i < candidates@.len() ==> call_requires(cost, (&#[trigger] candidates@[i],)),
    ensures
        costs@.len() == candidates@.len(),
        forall|i: int|
            0 <= i < candidates@.len() ==> call_ensures(
                cost,
                (&candidates@[i],),
                #[trigger] costs@[i],
            ),
{
    candidates.par_iter().map(cost).collect()
}

/// Finds the guess that takes the least total number of guesses over every
/// word of `words` that agrees with `facts`.
///
/// The candidates are the words that the filter keeps. None left is an error:
/// the facts contradict each other. One left is the answer, at a cost of one.
/// With more, every candidate is tried as the next guess against every
/// candidate as the secret, each time searching on among the candidates with
/// the feedback added; the guess with the least total wins, the earliest in
/// the order of `words` among equals.
///
/// The search needs candidates that are pairwise different: among equal ones
/// no feedback could ever tell the secret apart, and it would not end. With
/// that given it ends, because a guess taken from the candidates rules out at
/// least one of them for every secret (`search_descends`); the `decreases`
/// clauses of this function and of `guess_cost` carry that argument.
///
/// The costs of the guesses are computed in parallel; which guess wins is
/// decided afterwards, by position, and does not depend on the threads.
pub fn best_guess(words: &Words, facts: &FactSet) -> (res: Result<GuessResult, SolverError>)
    requires
        facts_wf(facts@),
        filtered(words@, facts@).no_duplicates(),
    ensures
        filtered(words@, facts@).len() == 0 <==> res == Err::<GuessResult, SolverError>(
            SolverError::InvalidConstraintState,
        ),
        filtered(words@, facts@).len() >= 1 && search_cost(filtered(words@, facts@))
            > usize::MAX <==> res == Err::<GuessResult, SolverError>(SolverError::CostOverflow),
        filtered(words@, facts@).len() == 1 ==> res == Ok::<GuessResult, SolverError>(
            GuessResult { guess: filtered(words@, facts@)[0], guesses: 1, num_candidates: 1 },
        ),
        res matches Ok(found) ==> {
            let candidates = filtered(words@, facts@);
            &&& found.num_candidates == candidates.len()
            &&& found.guesses == search_cost(candidates)
            &&& found.guess == candidates[best_index(candidates, candidates.len()) as int]
        },
        res matches Ok(found) ==> filtered(words@, facts@).len() >= 2 ==> {
            let candidates = filtered(words@, facts@);
            let at = best_index(candidates, candidates.len()) as int;
            &&& 0 <= at < candidates.len()
            &&& found.guesses == cost_of_guess(candidates, candidates[at])
            &&& forall|j: int|
                0 <= j < candidates.len() ==> found.guesses <= cost_of_guess(
                    candidates,
                    #[trigger] candidates[j],
                )
            &&& forall|j: int|
                0 <= j < at ==> found.guesses < cost_of_guess(candidates, #[trigger] candidates[j])
        },
        !(res matches Err(SolverError::MalformedWord)),
    decreases filtered(words@, facts@).len(), 1nat, 0nat,
{
    let candidates = filter_words(words, facts);
    let n: usize = candidates.len();
    if n == 1 {
        Ok(GuessResult { guess: candidates[0], guesses: 1, num_candidates: n })
    } else if n == 0 {
        Err(SolverError::InvalidConstraintState)
    } else {
        proof {
            filter_keeps_the_consistent(words@, facts@);
            search_picks_first_least(candidates@);
        }
        let cost = |guess: &Word| -> (total: Option<usize>)
            requires
                candidates@.contains(*guess),
            ensures
                total == fits(cost_of_guess(candidates@, *guess)),
            { guess_cost(&candidates, facts, guess) };
        proof {
            assert forall|i: int| 0 <= i < candidates@.len() implies call_requires(
                cost,
                (&#[trigger] candidates@[i],),
            ) by {
                lemma_member(candidates@, i);
            }
        }
        let costs = costs_in_parallel(&candidates, cost);
        let res = choose_guess(&candidates, &costs);
        proof {
            let b = best_index(candidates@, candidates@.len()) as int;
            assert(costs@[b] == fits(cost_of_guess(candidates@, candidates@[b])));
            if res is Ok {
                let i = choose|i: int| #[trigger]
                    least_at(costs@, i) && res->Ok_0 == chosen(candidates@, costs@, i);
                assert(costs@[i] == fits(cost_of_guess(candidates@, candidates@[i])));
                assert(i == b);
            }
        }
        res
    }
}

/// What the ranking reports for the opening guess at index `i`: the guess, its
/// `cost_of_guess` over `words`, and the number of guesses that were ranked.
pub open spec fn ranked(words: Seq<Word>, guesses: Seq<Word>, i: int) -> GuessResult {
    GuessResult {
        guess: guesses[i],
        guesses: cost_of_guess(words, guesses[i]) as usize,
        num_candidates: guesses.len() as usize,
    }
}

/// Ranks opening guesses: for each word of `guesses`, in order, the total
/// number of guesses that it takes over every word of `words` as the secret.
///
/// Only the searches that follow the opening guess choose their guesses; the
/// opening guess is taken as given and need not be one of `words`. The words
/// must be pairwise different, as for `best_guess`. A total that does not fit
/// in a `usize` fails the whole ranking.
pub fn solve(words: &Words, guesses: &Words) -> (res: Result<Vec<GuessResult>, SolverError>)
    requires
        words@.no_duplicates(),
    ensures
        (forall|i: int|
            0 <= i < guesses@.len() ==> cost_of_guess(words@, #[trigger] guesses@[i])
                <= usize::MAX) <==> res is Ok,
        res matches Ok(results) ==> {
            &&& results@.len() == guesses@.len()
            &&& forall|i: int|
                0 <= i < guesses@.len() ==> #[trigger] results@[i] == ranked(words@, guesses@, i)
        },
        res matches Err(e) ==> e == SolverError::CostOverflow,
{
    let nothing: FactSet = Vec::new();
    let mut results: Vec<GuessResult> = Vec::new();
    let mut i: usize = 0;
    while i < guesses.len()
        invariant
            i <= guesses@.len(),
            words@.no_duplicates(),
            nothing@.len() == 0,
            results@.len() == i,
            forall|k: int|
                0 <= k < i ==> cost_of_guess(words@, #[trigger] guesses@[k]) <= usize::MAX,
            forall|k: int| 0 <= k < i ==> #[trigger] results@[k] == ranked(words@, guesses@, k),
        decreases guesses@.len() - i,
    {
        match guess_cost(words, &nothing, &guesses[i]) {
            Some(total) => {
                results.push(
                    GuessResult { guess: guesses[i], guesses: total, num_candidates: guesses.len() },
                );
            },
            None => {
                return Err(SolverError::CostOverflow);
            },
        }
        i += 1;
    }
    Ok(results)
}

} // verus!
