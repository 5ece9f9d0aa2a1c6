use wordle_solver::dictionary::to_array;
use wordle_solver::error::SolverError;
use wordle_solver::feedback::{check, Fact, FactSet, FeedbackKind, Word, Words};
use wordle_solver::filter::filter_words;
use wordle_solver::search::{
    best_guess, choose_guess, first_least, guess_cost, merge_facts, solve, GuessResult,
};

fn word(text: &str) -> Word {
    to_array(text).unwrap()
}

fn words(texts: &[&str]) -> Words {
    texts.iter().map(|t| word(t)).collect()
}

fn fact(letter: char, position: usize, kind: FeedbackKind) -> Fact {
    Fact { letter, position, kind }
}

#[test]
fn single_candidate_costs_one_guess() {
    let dict = words(&["apple", "angle", "adobe"]);
    let facts: FactSet = vec![fact('d', 1, FeedbackKind::Exact)];
    assert_eq!(filter_words(&dict, &facts), words(&["adobe"]));
    assert_eq!(
        best_guess(&dict, &facts),
        Ok(GuessResult { guess: word("adobe"), guesses: 1, num_candidates: 1 })
    );
}

#[test]
fn one_word_dictionary_costs_one_guess() {
    assert_eq!(
        best_guess(&words(&["crane"]), &Vec::new()),
        Ok(GuessResult { guess: word("crane"), guesses: 1, num_candidates: 1 })
    );
}

#[test]
fn contradictory_facts_are_an_error() {
    let dict = words(&["apple", "angle", "adobe"]);
    let facts: FactSet = vec![fact('a', 0, FeedbackKind::Absent)];
    assert!(filter_words(&dict, &facts).is_empty());
    assert_eq!(best_guess(&dict, &facts), Err(SolverError::InvalidConstraintState));
}

#[test]
fn facts_that_contradict_each_other_are_an_error() {
    let dict = words(&["apple", "angle", "adobe"]);
    let facts: FactSet =
        vec![fact('a', 0, FeedbackKind::Exact), fact('a', 0, FeedbackKind::Present)];
    assert_eq!(best_guess(&dict, &facts), Err(SolverError::InvalidConstraintState));
}

#[test]
fn empty_dictionary_is_an_error() {
    assert_eq!(best_guess(&Vec::new(), &Vec::new()), Err(SolverError::InvalidConstraintState));
}

#[test]
fn three_word_scenario() {
    let dict = words(&["apple", "angle", "adobe"]);
    let mut facts: FactSet = vec![fact('a', 0, FeedbackKind::Exact)];
    assert_eq!(filter_words(&dict, &facts), dict);
    facts.push(fact('p', 1, FeedbackKind::Absent));
    let reduced = filter_words(&dict, &facts);
    assert_eq!(reduced, words(&["angle", "adobe"]));
    let first = best_guess(&reduced, &Vec::new()).unwrap();
    assert_eq!(first, GuessResult { guess: word("angle"), guesses: 3, num_candidates: 2 });
    for _ in 0..20 {
        assert_eq!(best_guess(&reduced, &Vec::new()), Ok(first));
    }
    assert_eq!(best_guess(&dict, &facts), Ok(first));
}

#[test]
fn three_candidates_that_every_guess_tells_apart() {
    let dict = words(&["apple", "angle", "adobe"]);
    let facts: FactSet = vec![fact('a', 0, FeedbackKind::Exact)];
    assert_eq!(
        best_guess(&dict, &facts),
        Ok(GuessResult { guess: word("apple"), guesses: 4, num_candidates: 3 })
    );
}

#[test]
fn equal_costs_go_to_the_earlier_word() {
    assert_eq!(best_guess(&words(&["angle", "adobe"]), &Vec::new()).unwrap().guess, word("angle"));
    assert_eq!(best_guess(&words(&["adobe", "angle"]), &Vec::new()).unwrap().guess, word("adobe"));
}

#[test]
fn words_that_differ_in_one_letter_cost_most() {
    // No guess tells the others apart: 3 for two words, 2 + 2 * 3 for three, 2 + 3 * 8 for four.
    assert_eq!(
        best_guess(&words(&["zzzzq", "zzzzr"]), &Vec::new()),
        Ok(GuessResult { guess: word("zzzzq"), guesses: 3, num_candidates: 2 })
    );
    assert_eq!(
        best_guess(&words(&["zzzzq", "zzzzr", "zzzzs"]), &Vec::new()),
        Ok(GuessResult { guess: word("zzzzq"), guesses: 8, num_candidates: 3 })
    );
    assert_eq!(
        best_guess(&words(&["zzzzq", "zzzzr", "zzzzs", "zzzzt"]), &Vec::new()),
        Ok(GuessResult { guess: word("zzzzq"), guesses: 26, num_candidates: 4 })
    );
}

#[test]
fn ties_among_many_guesses_go_to_the_first_every_time() {
    let dict = words(&["zzzzq", "zzzzr", "zzzzs", "zzzzt", "zzzzu", "zzzzv", "zzzzw"]);
    for _ in 0..5 {
        assert_eq!(
            best_guess(&dict, &Vec::new()),
            Ok(GuessResult { guess: word("zzzzq"), guesses: 3194, num_candidates: 7 })
        );
    }
}

#[test]
fn a_later_guess_wins_when_it_costs_less() {
    let dict = words(&["zzzzq", "zzzzr", "zzzzs", "zzzzt", "qrstu"]);
    assert_eq!(
        best_guess(&dict, &Vec::new()),
        Ok(GuessResult { guess: word("qrstu"), guesses: 6, num_candidates: 5 })
    );
}

#[test]
fn guess_cost_adds_one_search_per_secret() {
    let dict = words(&["zzzzq", "zzzzr", "zzzzs", "zzzzt", "qrstu"]);
    let none: FactSet = Vec::new();
    assert_eq!(guess_cost(&dict, &none, &word("qrstu")), Some(6));
    assert_eq!(guess_cost(&dict, &none, &word("zzzzq")), Some(27));
    assert_eq!(guess_cost(&dict, &none, &word("zzzzt")), Some(27));
}

#[test]
fn guess_cost_of_a_guess_that_reveals_nothing() {
    let dict = words(&["zzzzq", "zzzzr", "zzzzs"]);
    assert_eq!(guess_cost(&dict, &Vec::new(), &word("vwxyk")), Some(25));
    assert_eq!(guess_cost(&Vec::new(), &Vec::new(), &word("vwxyk")), Some(1));
}

#[test]
fn best_guess_carries_earlier_facts_through_the_search() {
    let dict = words(&["zzzzq", "zzzzr", "zzzzs", "zzzzt", "qrstu"]);
    let facts: FactSet = vec![fact('z', 4, FeedbackKind::Present)];
    assert_eq!(
        best_guess(&dict, &facts),
        Ok(GuessResult { guess: word("zzzzq"), guesses: 26, num_candidates: 4 })
    );
}

#[test]
fn best_guess_after_real_feedback() {
    let dict = words(&["crane", "slate", "brace", "trace", "grace", "adobe"]);
    let facts = check(&word("brace"), &word("slate"));
    assert_eq!(filter_words(&dict, &facts), words(&["crane", "brace", "grace"]));
    assert_eq!(guess_cost(&words(&["crane", "brace", "grace"]), &facts, &word("crane")), Some(8));
    assert_eq!(
        best_guess(&dict, &facts),
        Ok(GuessResult { guess: word("brace"), guesses: 4, num_candidates: 3 })
    );
}

#[test]
fn first_least_prefers_the_earliest_minimum() {
    assert_eq!(first_least(&vec![Some(5), Some(3), Some(3), Some(7)]), Some(1));
    assert_eq!(first_least(&vec![Some(0), Some(0)]), Some(0));
    assert_eq!(first_least(&vec![Some(usize::MAX)]), Some(0));
}

#[test]
fn first_least_skips_totals_that_did_not_fit() {
    assert_eq!(first_least(&vec![None, Some(9), None, Some(4)]), Some(3));
    assert_eq!(first_least(&vec![None, None]), None);
    assert_eq!(first_least(&Vec::new()), None);
}

#[test]
fn choose_guess_takes_the_first_least_cost() {
    let dict = words(&["crane", "slate", "brace", "trace"]);
    assert_eq!(
        choose_guess(&dict, &vec![Some(9), Some(4), Some(4), Some(7)]),
        Ok(GuessResult { guess: word("slate"), guesses: 4, num_candidates: 4 })
    );
    assert_eq!(
        choose_guess(&dict, &vec![None, Some(usize::MAX), None, Some(usize::MAX)]),
        Ok(GuessResult { guess: word("slate"), guesses: usize::MAX, num_candidates: 4 })
    );
}

#[test]
fn choose_guess_fails_when_no_total_fits() {
    let dict = words(&["crane", "slate"]);
    assert_eq!(choose_guess(&dict, &vec![None, None]), Err(SolverError::CostOverflow));
}

#[test]
fn choose_guess_fails_without_candidates() {
    assert_eq!(
        choose_guess(&Vec::new(), &Vec::new()),
        Err(SolverError::InvalidConstraintState)
    );
}

#[test]
fn merge_facts_puts_new_feedback_first() {
    let known: FactSet = vec![fact('x', 0, FeedbackKind::Absent)];
    let fresh = check(&word("apple"), &word("angle"));
    let merged = merge_facts(fresh.clone(), &known);
    assert_eq!(merged.len(), 6);
    assert_eq!(&merged[..5], &fresh[..]);
    assert_eq!(merged[5], known[0]);
}

#[test]
fn solve_ranks_each_opening_guess() {
    let dict = words(&["zzzzq", "zzzzr", "zzzzs"]);
    let openers = words(&["qrstu", "zzzzq", "vwxyk"]);
    assert_eq!(
        solve(&dict, &openers),
        Ok(vec![
            GuessResult { guess: word("qrstu"), guesses: 4, num_candidates: 3 },
            GuessResult { guess: word("zzzzq"), guesses: 8, num_candidates: 3 },
            GuessResult { guess: word("vwxyk"), guesses: 25, num_candidates: 3 },
        ])
    );
}

#[test]
fn solve_with_no_guesses_or_no_words() {
    let dict = words(&["zzzzq", "zzzzr", "zzzzs"]);
    assert_eq!(solve(&dict, &Vec::new()), Ok(Vec::new()));
    assert_eq!(
        solve(&Vec::new(), &words(&["apple", "angle"])),
        Ok(vec![
            GuessResult { guess: word("apple"), guesses: 1, num_candidates: 2 },
            GuessResult { guess: word("angle"), guesses: 1, num_candidates: 2 },
        ])
    );
}

#[test]
fn solve_agrees_with_best_guess_on_the_least_cost() {
    let dict = words(&["crane", "slate", "brace", "trace", "grace", "adobe"]);
    let ranked = solve(&dict, &dict).unwrap();
    let best = best_guess(&dict, &Vec::new()).unwrap();
    let least = ranked.iter().map(|r| r.guesses).min().unwrap();
    assert_eq!(best.guesses, least);
    let first = ranked.iter().find(|r| r.guesses == least).unwrap();
    assert_eq!(best.guess, first.guess);
    assert_eq!(best.num_candidates, 6);
}
