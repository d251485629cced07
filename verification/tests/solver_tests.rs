use hangman_solver::{solve, solve_hangman_puzzle, solve_infallible, Corpus, Language, WordSequence};

fn bucket(words: &[&str]) -> WordSequence {
    let n = words[0].chars().count();
    let w = words.iter().map(|s| s.len()).max().unwrap();
    let mut data: Vec<u8> = Vec::new();
    for word in words {
        for _ in 0..(w - word.len()) {
            data.push(0u8);
        }
        data.extend_from_slice(word.as_bytes());
    }
    WordSequence::new(n, data, w).expect("valid bucket")
}

fn german_corpus() -> Corpus {
    let mut corpus = Corpus::new();
    corpus.insert(
        Language::DeUmlauts,
        bucket(&["abenteurer", "g\u{fc}rteltier", "murmeltier", "wurzelbier"]),
    );
    corpus
}

#[test]
pub fn test_solve_no_max_words() {
    let corpus = german_corpus();
    let hr = solve(
        "__r_el_ier",
        &['i', 'r', 'x', '\u{e4}'],
        true,
        &corpus,
        Language::DeUmlauts,
        None,
    );

    assert_eq!(hr.input, "__r_el_ier");
    assert_eq!(hr.invalid, vec!['x', '\u{e4}']);
    assert_eq!(
        hr.letter_frequency,
        vec![
            ('t', 2),
            ('u', 2),
            ('b', 1),
            ('g', 1),
            ('m', 1),
            ('w', 1),
            ('z', 1),
            ('\u{fc}', 1)
        ]
    );
    assert_eq!(hr.matching_words_count, 3);
    assert_eq!(
        hr.possible_words,
        vec!["g\u{fc}rteltier", "murmeltier", "wurzelbier"]
    );
    assert_eq!(hr.language, Language::DeUmlauts);
}

#[test]
pub fn test_solve_max_1() {
    let corpus = german_corpus();
    let hr = solve(
        "__r_el_ier",
        &['i', 'r', 'x', '\u{e4}'],
        true,
        &corpus,
        Language::DeUmlauts,
        Some(1),
    );

    assert_eq!(hr.input, "__r_el_ier");
    assert_eq!(hr.invalid, vec!['x', '\u{e4}']);
    assert_eq!(
        hr.letter_frequency,
        vec![
            ('t', 2),
            ('u', 2),
            ('b', 1),
            ('g', 1),
            ('m', 1),
            ('w', 1),
            ('z', 1),
            ('\u{fc}', 1)
        ]
    );
    assert_eq!(hr.matching_words_count, 3);
    assert_eq!(hr.possible_words, vec!["g\u{fc}rteltier"]);
    assert_eq!(hr.language, Language::DeUmlauts);
}

#[test]
fn test_scenario_exact_reveal() {
    let corpus = german_corpus();
    let hr = solve(
        "__r_el_ier",
        &['i', 'r', 'x'],
        true,
        &corpus,
        Language::DeUmlauts,
        None,
    );
    // 'i' and 'r' are already visible in the pattern; only 'x' remains.
    assert_eq!(hr.invalid, vec!['x']);
    assert_eq!(hr.matching_words_count, 3);
    assert_eq!(
        hr.possible_words,
        vec!["g\u{fc}rteltier", "murmeltier", "wurzelbier"]
    );
    assert_eq!(hr.letter_frequency[0], ('t', 2));
    assert_eq!(hr.letter_frequency[1], ('u', 2));
    let singles: Vec<char> = hr.letter_frequency[2..].iter().map(|e| e.0).collect();
    assert_eq!(singles, vec!['b', 'g', 'm', 'w', 'z', '\u{fc}']);
    assert!(hr.letter_frequency[2..].iter().all(|e| e.1 == 1));
}

#[test]
fn test_sample_cap_zero_keeps_count_and_frequency() {
    let corpus = german_corpus();
    let capped = solve(
        "__r_el_ier",
        &['i', 'r', 'x', '\u{e4}'],
        true,
        &corpus,
        Language::DeUmlauts,
        Some(0),
    );
    let full = solve(
        "__r_el_ier",
        &['i', 'r', 'x', '\u{e4}'],
        true,
        &corpus,
        Language::DeUmlauts,
        None,
    );
    assert_eq!(capped.matching_words_count, 3);
    assert!(capped.possible_words.is_empty());
    assert_eq!(capped.letter_frequency, full.letter_frequency);
    assert_eq!(capped.invalid, full.invalid);
}

#[test]
fn test_crossword_mode_counts_extra_occurrences() {
    let corpus = german_corpus();
    let hr = solve(
        "__r_el_ier",
        &['x'],
        false,
        &corpus,
        Language::DeUmlauts,
        None,
    );
    assert_eq!(hr.matching_words_count, 3);
    assert_eq!(hr.invalid, vec!['x']);
    // Occurrences across the three matches, minus one match total per
    // literal occurrence: r, e, l and i vanish exactly.
    assert_eq!(
        hr.letter_frequency,
        vec![
            ('t', 3),
            ('m', 2),
            ('u', 2),
            ('b', 1),
            ('g', 1),
            ('w', 1),
            ('z', 1),
            ('\u{fc}', 1)
        ]
    );
}

#[test]
fn test_boundary_no_bucket_of_that_length() {
    let corpus = german_corpus();
    let hr = solve("_____", &[], true, &corpus, Language::DeUmlauts, None);
    assert_eq!(hr.matching_words_count, 0);
    assert!(hr.possible_words.is_empty());
    assert!(hr.letter_frequency.is_empty());
    assert_eq!(hr.input, "_____");
}

#[test]
fn test_all_wildcards_match_whole_bucket() {
    let corpus = german_corpus();
    let hr = solve("__________", &[], true, &corpus, Language::DeUmlauts, None);
    assert_eq!(hr.matching_words_count, 4);
    assert_eq!(
        hr.possible_words,
        vec![
            "abenteurer",
            "g\u{fc}rteltier",
            "murmeltier",
            "wurzelbier"
        ]
    );
}

#[test]
fn test_first_letter_run_is_used() {
    let mut corpus = Corpus::new();
    corpus.insert(
        Language::En,
        bucket(&["apple", "bread", "brick", "bring", "crumb"]),
    );
    let hr = solve("br___", &[], true, &corpus, Language::En, None);
    assert_eq!(hr.matching_words_count, 3);
    assert_eq!(hr.possible_words, vec!["bread", "brick", "bring"]);
}

#[test]
fn test_solve_infallible_agrees_with_solve() {
    let corpus = german_corpus();
    let a = solve_infallible(
        "__r_el_ier",
        &['i', 'r', 'x'],
        true,
        &corpus,
        Language::DeUmlauts,
        None,
    );
    let b = solve(
        "__r_el_ier",
        &['i', 'r', 'x'],
        true,
        &corpus,
        Language::DeUmlauts,
        None,
    );
    assert_eq!(a.possible_words, b.possible_words);
    assert_eq!(a.letter_frequency, b.letter_frequency);
    assert_eq!(a.matching_words_count, b.matching_words_count);
}

#[test]
fn test_solve_hangman_puzzle_is_exact_mode_without_cap() {
    let corpus = german_corpus();
    let hr = solve_hangman_puzzle("__r_el_ier", &['x'], &corpus, Language::DeUmlauts);
    assert_eq!(hr.matching_words_count, 3);
    assert_eq!(
        hr.possible_words,
        vec!["g\u{fc}rteltier", "murmeltier", "wurzelbier"]
    );
    assert_eq!(hr.invalid, vec!['x']);
}

#[test]
fn test_excluded_letter_filters_matches() {
    let corpus = german_corpus();
    // 'g' is excluded, so the word with 'g' at a hidden position drops out.
    let hr = solve(
        "__r_el_ier",
        &['g'],
        true,
        &corpus,
        Language::DeUmlauts,
        None,
    );
    assert_eq!(hr.matching_words_count, 2);
    assert_eq!(hr.possible_words, vec!["murmeltier", "wurzelbier"]);
}
