use wordle_solver::dictionary::{all_distinct, same_word, to_array};
use wordle_solver::feedback::{
    build_fact, check, has_letter, Fact, FactSet, FeedbackKind, Word, Words, WORD_LENGTH,
};
use wordle_solver::filter::{filter_words, word_consistent, word_satisfies};

fn word(text: &str) -> Word {
    to_array(text).unwrap()
}

fn words(texts: &[&str]) -> Words {
    texts.iter().map(|t| word(t)).collect()
}

fn fact(letter: char, position: usize, kind: FeedbackKind) -> Fact {
    Fact { letter, position, kind }
}

#[test]
fn build_fact_keeps_its_parts() {
    let f = build_fact(FeedbackKind::Present, 'q', 3);
    assert_eq!(f, Fact { letter: 'q', position: 3, kind: FeedbackKind::Present });
}

#[test]
fn has_letter_finds_first_and_last_position() {
    let w = word("crane");
    assert!(has_letter(&w, 'c'));
    assert!(has_letter(&w, 'e'));
    assert!(!has_letter(&w, 'z'));
}

#[test]
fn check_gives_one_fact_per_position() {
    let facts = check(&word("crane"), &word("slate"));
    assert_eq!(facts.len(), WORD_LENGTH);
    let guess = word("slate");
    for (i, f) in facts.iter().enumerate() {
        assert_eq!(f.position, i);
        assert_eq!(f.letter, guess[i]);
    }
}

#[test]
fn check_classifies_each_letter() {
    let facts = check(&word("crane"), &word("slate"));
    assert_eq!(
        facts,
        vec![
            fact('s', 0, FeedbackKind::Absent),
            fact('l', 1, FeedbackKind::Absent),
            fact('a', 2, FeedbackKind::Exact),
            fact('t', 3, FeedbackKind::Absent),
            fact('e', 4, FeedbackKind::Exact),
        ]
    );
}

#[test]
fn check_of_a_word_with_itself_is_all_exact() {
    for text in ["apple", "angle", "adobe", "zzzzz"] {
        let w = word(text);
        let facts = check(&w, &w);
        assert_eq!(facts.len(), WORD_LENGTH);
        for (i, f) in facts.iter().enumerate() {
            assert_eq!(*f, fact(w[i], i, FeedbackKind::Exact));
        }
    }
}

#[test]
fn check_marks_every_repeat_of_a_letter_present() {
    // The secret holds one 'a' and one 'b'; every misplaced repeat still counts as present.
    let facts = check(&word("abcde"), &word("aabbb"));
    assert_eq!(
        facts,
        vec![
            fact('a', 0, FeedbackKind::Exact),
            fact('a', 1, FeedbackKind::Present),
            fact('b', 2, FeedbackKind::Present),
            fact('b', 3, FeedbackKind::Present),
            fact('b', 4, FeedbackKind::Present),
        ]
    );
}

#[test]
fn word_satisfies_follows_each_kind() {
    let w = word("apple");
    assert!(word_satisfies(&w, &fact('a', 0, FeedbackKind::Exact)));
    assert!(!word_satisfies(&w, &fact('p', 0, FeedbackKind::Exact)));
    assert!(word_satisfies(&w, &fact('p', 0, FeedbackKind::Present)));
    assert!(!word_satisfies(&w, &fact('p', 1, FeedbackKind::Present)));
    assert!(!word_satisfies(&w, &fact('z', 0, FeedbackKind::Present)));
    assert!(word_satisfies(&w, &fact('z', 0, FeedbackKind::Absent)));
    assert!(!word_satisfies(&w, &fact('e', 0, FeedbackKind::Absent)));
}

#[test]
fn absent_fact_ignores_its_position() {
    let w = word("apple");
    assert!(word_satisfies(&w, &fact('z', 99, FeedbackKind::Absent)));
    assert!(!word_satisfies(&w, &fact('a', 99, FeedbackKind::Absent)));
}

#[test]
fn word_consistent_needs_every_fact() {
    let w = word("angle");
    let good: FactSet =
        vec![fact('a', 0, FeedbackKind::Exact), fact('p', 1, FeedbackKind::Absent)];
    let bad: FactSet = vec![fact('a', 0, FeedbackKind::Exact), fact('n', 1, FeedbackKind::Absent)];
    assert!(word_consistent(&w, &good));
    assert!(!word_consistent(&w, &bad));
    assert!(word_consistent(&w, &Vec::new()));
}

#[test]
fn filter_with_no_facts_keeps_everything() {
    let dict = words(&["apple", "angle", "adobe"]);
    assert_eq!(filter_words(&dict, &Vec::new()), dict);
}

#[test]
fn filter_keeps_order_and_only_consistent_words() {
    let dict = words(&["crane", "slate", "brace", "trace", "grace", "adobe"]);
    let facts: FactSet = vec![
        fact('r', 1, FeedbackKind::Exact),
        fact('e', 0, FeedbackKind::Present),
        fact('b', 0, FeedbackKind::Absent),
    ];
    let kept = filter_words(&dict, &facts);
    assert_eq!(kept, words(&["crane", "trace", "grace"]));
    for w in &dict {
        assert_eq!(kept.contains(w), word_consistent(w, &facts));
    }
}

#[test]
fn filter_is_idempotent() {
    let dict = words(&["crane", "slate", "brace", "trace", "grace", "adobe"]);
    let facts = check(&word("brace"), &word("slate"));
    let once = filter_words(&dict, &facts);
    let twice = filter_words(&once, &facts);
    assert_eq!(once, twice);
    assert_eq!(once, words(&["crane", "brace", "grace"]));
}

#[test]
fn filter_never_grows_when_a_fact_is_added() {
    let dict = words(&["crane", "slate", "brace", "trace", "grace", "adobe"]);
    let extra = [
        fact('c', 0, FeedbackKind::Absent),
        fact('a', 2, FeedbackKind::Exact),
        fact('e', 4, FeedbackKind::Present),
        fact('t', 1, FeedbackKind::Present),
    ];
    let mut facts: FactSet = Vec::new();
    let mut before = filter_words(&dict, &facts);
    for f in extra {
        facts.push(f);
        let after = filter_words(&dict, &facts);
        assert!(after.len() <= before.len());
        for w in &after {
            assert!(before.contains(w));
        }
        before = after;
    }
    assert!(before.is_empty());
}

#[test]
fn filter_does_not_depend_on_the_order_of_facts() {
    let dict = words(&["crane", "slate", "brace", "trace", "grace", "adobe"]);
    let a = fact('a', 2, FeedbackKind::Exact);
    let b = fact('c', 0, FeedbackKind::Present);
    assert_eq!(filter_words(&dict, &vec![a, b]), filter_words(&dict, &vec![b, a]));
    assert_eq!(filter_words(&dict, &vec![a, b]), words(&["brace", "trace", "grace"]));
}

#[test]
fn secret_always_survives_its_own_feedback() {
    let dict = words(&["crane", "slate", "brace", "trace", "grace", "adobe"]);
    for secret in &dict {
        for guess in &dict {
            let kept = filter_words(&dict, &check(secret, guess));
            assert!(kept.contains(secret));
            assert_eq!(kept.contains(guess), same_word(secret, guess));
        }
    }
}

#[test]
fn same_word_compares_every_position() {
    assert!(same_word(&word("apple"), &word("apple")));
    assert!(!same_word(&word("apple"), &word("applf")));
    assert!(!same_word(&word("apple"), &word("bpple")));
}

#[test]
fn all_distinct_spots_a_repeat() {
    assert!(all_distinct(&words(&["apple", "angle", "adobe"])));
    assert!(!all_distinct(&words(&["apple", "angle", "apple"])));
    assert!(all_distinct(&Vec::new()));
}
