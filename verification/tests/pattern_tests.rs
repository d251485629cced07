use hangman_solver::{compile_pattern, Corpus, Language, PatternLetter, WordSequence};

fn bucket(words: &[&str]) -> WordSequence {
    let n = words[0].chars().count();
    let w = words.iter().map(|s| s.len()).max().unwrap();
    let mut data: Vec<u8> = Vec::new();
    for word in words {
        for _ in 0..(w - word.len()) {
            data.push(0u8);
        }
        data.extend_from_slice(word.as_bytes());
    }
    WordSequence::new(n, data, w).expect("valid bucket")
}

fn german_corpus() -> Corpus {
    let mut corpus = Corpus::new();
    corpus.insert(Language::DeBasicUmlauts, bucket(&["angsthase", "zuckers\u{fc}\u{df}"]));
    corpus.insert(Language::DeUmlauts, bucket(&["zwillingsparadoxon"]));
    corpus.insert(
        Language::DeUmlauts,
        bucket(&["abenteurer", "g\u{fc}rteltier", "murmeltier", "wurzelbier"]),
    );
    corpus
}

#[test]
pub fn test_compile_pattern() {
    let corpus = german_corpus();
    let pattern = compile_pattern("_____r_\u{fc}_", &['i'], true);

    assert_eq!(pattern.get_letter(0), Some(PatternLetter::Wildcard));
    assert_eq!(pattern.get_letter(5), Some(PatternLetter::Char('r')));
    assert_eq!(pattern.length(), 9);
    assert_eq!(pattern.known_letters_count(), 2);
    assert!(!pattern.is_allowed_letter('i'));
    assert!(!pattern.is_allowed_letter('r'));
    assert!(pattern.is_allowed_letter('a'));

    let hr = pattern.solve(&corpus, Language::DeBasicUmlauts, None);

    assert_eq!(hr.language, Language::DeBasicUmlauts);
    assert_eq!(&hr.input, "_____r_\u{fc}_");
    assert_eq!(hr.invalid, vec!['i']);
    assert_eq!(hr.matching_words_count, 1);
    assert_eq!(hr.possible_words, vec!["zuckers\u{fc}\u{df}"]);

    let pattern = pattern.into_pattern();
    assert_eq!(pattern.invalid_letters, vec!['r', '\u{fc}', 'i']);
}

#[test]
pub fn test_compile_pattern_ascii() {
    let corpus = german_corpus();
    let pattern = compile_pattern("______n_s__r_____n", &['e'], true);

    assert_eq!(pattern.get_letter(0), Some(PatternLetter::Wildcard));
    assert_eq!(pattern.get_letter(6), Some(PatternLetter::Char('n')));
    assert_eq!(pattern.length(), 18);
    assert_eq!(pattern.known_letters_count(), 4);
    assert!(!pattern.is_allowed_letter('e'));
    assert!(!pattern.is_allowed_letter('n'));
    assert!(pattern.is_allowed_letter('a'));

    let hr = pattern.solve(&corpus, Language::DeUmlauts, None);

    assert_eq!(hr.language, Language::DeUmlauts);
    assert_eq!(&hr.input, "______n_s__r_____n");
    assert_eq!(hr.invalid, vec!['e']);
    assert_eq!(hr.matching_words_count, 1);
    assert_eq!(hr.possible_words, vec!["zwillingsparadoxon"]);
}

#[test]
fn test_compile_normalizes_aliases_whitespace_and_case() {
    let pattern = compile_pattern("a B#? _C", &[], true);
    assert_eq!(pattern.length(), 6);
    assert_eq!(pattern.get_letter(0), Some(PatternLetter::Char('a')));
    assert_eq!(pattern.get_letter(1), Some(PatternLetter::Char('b')));
    assert_eq!(pattern.get_letter(2), Some(PatternLetter::Wildcard));
    assert_eq!(pattern.get_letter(3), Some(PatternLetter::Wildcard));
    assert_eq!(pattern.get_letter(4), Some(PatternLetter::Wildcard));
    assert_eq!(pattern.get_letter(5), Some(PatternLetter::Char('c')));
    assert_eq!(pattern.get_letter(6), None);
    assert_eq!(pattern.known_letters_count(), 3);
}

#[test]
fn test_compile_empty_pattern() {
    let corpus = german_corpus();
    let pattern = compile_pattern("", &[], true);
    assert_eq!(pattern.length(), 0);
    assert_eq!(pattern.known_letters_count(), 0);
    assert_eq!(pattern.get_letter(0), None);
    let hr = pattern.solve(&corpus, Language::DeUmlauts, None);
    assert_eq!(hr.matching_words_count, 0);
    assert!(hr.possible_words.is_empty());
    assert!(hr.letter_frequency.is_empty());
}

#[test]
fn test_crossword_mode_keeps_caller_letters_only() {
    let pattern = compile_pattern("ab_", &['x', 'a'], false);
    let pattern = pattern.into_pattern();
    // In crossword mode the pattern letters are not excluded.
    assert_eq!(pattern.invalid_letters, vec!['x', 'a']);
    assert_eq!(pattern.pattern, vec!['a', 'b', '_']);
}

#[test]
fn test_exact_mode_excludes_pattern_letters_first() {
    let pattern = compile_pattern("ab_a", &['z', 'b'], true);
    let pattern = pattern.into_pattern();
    assert_eq!(pattern.invalid_letters, vec!['a', 'b', 'z']);
}
