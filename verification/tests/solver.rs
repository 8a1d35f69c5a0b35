use five_by_five::dictionary::{is_isogram5, make_dictionary};
use five_by_five::letters::{Letters, LettersInt, LettersSet, LettersString};
use five_by_five::search::{find_answers, find_possible_next_words, run, run_up_to};

fn word(s: &str) -> Vec<u8> {
    s.as_bytes().to_vec()
}

fn words(ss: &[&str]) -> Vec<Vec<u8>> {
    ss.iter().map(|s| word(s)).collect()
}

fn answers_as_strings(answers: &Vec<Vec<Vec<u8>>>) -> Vec<Vec<String>> {
    answers
        .iter()
        .map(|a| {
            a.iter()
                .map(|w| String::from_utf8(w.clone()).unwrap())
                .collect()
        })
        .collect()
}

#[test]
fn isogram_filter_keeps_only_five_letter_isograms() {
    let raw = words(&["fjord", "hello", "cat", "gucks", "aabbc", "abcdef"]);
    let dict = make_dictionary(&raw);
    assert_eq!(answers_as_strings(&vec![dict]), vec![vec!["fjord", "gucks"]]);
}

#[test]
fn isogram_filter_preserves_order() {
    let raw = words(&["waltz", "vibex", "nymph", "llama", "gucks", "fjord"]);
    let dict = make_dictionary(&raw);
    assert_eq!(
        answers_as_strings(&vec![dict]),
        vec![vec!["waltz", "vibex", "nymph", "gucks", "fjord"]]
    );
}

#[test]
fn is_isogram5_examples() {
    assert!(is_isogram5(&word("fjord")));
    assert!(!is_isogram5(&word("hello")));
    assert!(!is_isogram5(&word("cat")));
    assert!(!is_isogram5(&word("abcdef")));
    assert!(!is_isogram5(&word("")));
}

#[test]
fn letter_set_strategies_agree() {
    let lists: Vec<Vec<Vec<u8>>> = vec![
        words(&[]),
        words(&["fjord"]),
        words(&["fjord", "gucks"]),
        words(&["fjord", "gucks", "nymph", "vibex", "waltz"]),
    ];
    for list in &lists {
        let a = LettersString::new(list);
        let b = LettersSet::new(list);
        let c = LettersInt::new(list);
        for letter in b'a'..=b'z' {
            let expected = list.iter().any(|w| w.contains(&letter));
            assert_eq!(a.contains(letter), expected);
            assert_eq!(b.contains(letter), expected);
            assert_eq!(c.contains(letter), expected);
        }
    }
}

#[test]
fn letter_set_of_no_words_is_empty() {
    let none = words(&[]);
    let a = LettersString::new(&none);
    let b = LettersSet::new(&none);
    let c = LettersInt::new(&none);
    for letter in b'a'..=b'z' {
        assert!(!a.contains(letter));
        assert!(!b.contains(letter));
        assert!(!c.contains(letter));
    }
}

#[test]
fn possible_next_words_prunes_shared_letters() {
    let chosen = words(&["fjord"]);
    let dict = words(&["gucks", "freak", "nymph", "dwelt", "vibex"]);
    let next = find_possible_next_words::<LettersInt>(&chosen, &dict);
    assert_eq!(
        answers_as_strings(&vec![next]),
        vec![vec!["gucks", "nymph", "vibex"]]
    );
}

#[test]
fn possible_next_words_with_nothing_chosen_keeps_all() {
    let chosen = words(&[]);
    let dict = words(&["gucks", "fjord"]);
    let next = find_possible_next_words::<LettersString>(&chosen, &dict);
    assert_eq!(answers_as_strings(&vec![next]), vec![vec!["gucks", "fjord"]]);
}

#[test]
fn search_finds_the_unique_solution() {
    let dict = words(&["fjord", "gucks", "nymph", "vibex", "world", "waltz"]);
    let answers = run::<LettersInt>(&dict);
    assert_eq!(
        answers_as_strings(&answers),
        vec![vec!["fjord", "gucks", "nymph", "vibex", "waltz"]]
    );
}

#[test]
fn search_emits_solutions_in_dictionary_index_order() {
    // "zltwa" rearranges the letters of "waltz", so either completes the
    // other four words; the solution through "waltz" (earlier index) is
    // emitted first.
    let dict = words(&["fjord", "gucks", "nymph", "vibex", "waltz", "zltwa"]);
    let answers = run::<LettersInt>(&dict);
    assert_eq!(
        answers_as_strings(&answers),
        vec![
            vec!["fjord", "gucks", "nymph", "vibex", "waltz"],
            vec!["fjord", "gucks", "nymph", "vibex", "zltwa"],
        ]
    );
}

#[test]
fn search_strategies_agree_on_answers() {
    let dict = words(&["fjord", "gucks", "nymph", "vibex", "world", "waltz"]);
    let a = run::<LettersString>(&dict);
    let b = run::<LettersSet>(&dict);
    let c = run::<LettersInt>(&dict);
    assert_eq!(a, b);
    assert_eq!(b, c);
}

#[test]
fn empty_dictionary_yields_no_solutions() {
    let dict = words(&[]);
    let answers = run::<LettersInt>(&dict);
    assert!(answers.is_empty());
}

#[test]
fn short_dictionary_yields_no_solutions() {
    let dict = words(&["fjord", "gucks", "nymph", "vibex"]);
    let answers = run::<LettersInt>(&dict);
    assert!(answers.is_empty());
}

#[test]
fn overlapping_words_yield_no_solutions() {
    // five isograms, but "dwelt" and "waltz" share letters with each other
    // and the rest cannot cover twenty-five letters alone
    let dict = words(&["fjord", "gucks", "nymph", "dwelt", "waltz"]);
    let answers = run::<LettersInt>(&dict);
    assert!(answers.is_empty());
}

#[test]
fn search_is_deterministic() {
    let dict = words(&["fjord", "gucks", "nymph", "vibex", "waltz", "zltwa"]);
    let first = run::<LettersInt>(&dict);
    let second = run::<LettersInt>(&dict);
    assert_eq!(first, second);
}

#[test]
fn find_answers_extends_a_partial_solution() {
    let chosen = words(&["fjord"]);
    let dict = words(&["gucks", "nymph", "vibex", "waltz"]);
    let answers = find_answers::<LettersInt>(chosen, &dict);
    assert_eq!(
        answers_as_strings(&answers),
        vec![vec!["fjord", "gucks", "nymph", "vibex", "waltz"]]
    );
}

#[test]
fn bounded_search_returns_the_first_solutions() {
    let dict = words(&["fjord", "gucks", "nymph", "vibex", "waltz", "zltwa"]);
    let none = run_up_to::<LettersInt>(&dict, 0);
    assert!(none.is_empty());
    let first = run_up_to::<LettersInt>(&dict, 1);
    assert_eq!(
        answers_as_strings(&first),
        vec![vec!["fjord", "gucks", "nymph", "vibex", "waltz"]]
    );
    let all = run_up_to::<LettersInt>(&dict, 10);
    assert_eq!(all, run::<LettersInt>(&dict));
}

#[test]
fn duplicate_words_never_pair_with_themselves() {
    let dict = words(&["fjord", "fjord", "gucks", "nymph", "vibex", "waltz"]);
    let answers = run::<LettersInt>(&dict);
    assert_eq!(
        answers_as_strings(&answers),
        vec![
            vec!["fjord", "gucks", "nymph", "vibex", "waltz"],
            vec!["fjord", "gucks", "nymph", "vibex", "waltz"],
        ]
    );
}
