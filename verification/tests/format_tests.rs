use hangman_solver::hangman_result::{join_with_max_length, u32_to_string};
use hangman_solver::{solve, Corpus, Language, WordSequence};

fn bucket(words: &[&str]) -> WordSequence {
    let n = words[0].chars().count();
    let w = words.iter().map(|s| s.len()).max().unwrap();
    let mut data: Vec<u8> = Vec::new();
    for word in words {
        for _ in 0..(w - word.len()) {
            data.push(0u8);
        }
        data.extend_from_slice(word.as_bytes());
    }
    WordSequence::new(n, data, w).expect("valid bucket")
}

fn german_corpus() -> Corpus {
    let mut corpus = Corpus::new();
    corpus.insert(
        Language::DeUmlauts,
        bucket(&["abenteurer", "g\u{fc}rteltier", "murmeltier", "wurzelbier"]),
    );
    corpus
}

#[test]
fn test_u32_to_string() {
    assert_eq!(u32_to_string(0), "0");
    assert_eq!(u32_to_string(7), "7");
    assert_eq!(u32_to_string(10), "10");
    assert_eq!(u32_to_string(90401), "90401");
    assert_eq!(u32_to_string(u32::MAX), "4294967295");
}

#[test]
fn test_join_with_max_length() {
    let items = vec![
        String::from("alpha"),
        String::from("beta"),
        String::from("gamma"),
    ];
    assert_eq!(join_with_max_length(&items, ", ", 60), "alpha, beta, gamma");
    assert_eq!(join_with_max_length(&items, ", ", 13), "alpha, ...");
    assert_eq!(join_with_max_length(&items, ", ", 3), "...");
}

#[test]
fn test_format_with_width_full() {
    let corpus = german_corpus();
    let hr = solve(
        "__r_el_ier",
        &['i', 'r', 'x', '\u{e4}'],
        true,
        &corpus,
        Language::DeUmlauts,
        None,
    );
    let rendered = hr.format_with_width(80);
    assert_eq!(
        rendered,
        "Found 3 words (input: __r_el_ier, invalid: x\u{e4})\n words:   g\u{fc}rteltier, murmeltier, wurzelbier\n letters: t: 2, u: 2, b: 1, g: 1, m: 1, w: 1, z: 1, \u{fc}: 1"
    );
}

#[test]
fn test_format_with_width_truncates() {
    let corpus = german_corpus();
    let hr = solve(
        "__r_el_ier",
        &['i', 'r', 'x', '\u{e4}'],
        true,
        &corpus,
        Language::DeUmlauts,
        None,
    );
    let rendered = hr.format_with_width(30);
    assert_eq!(
        rendered,
        "Found 3 words (input: __r_el_ier, invalid: x\u{e4})\n words:   g\u{fc}rteltier, ...\n letters: t: 2, u: 2, ..."
    );
}

#[test]
fn test_format_with_width_no_matches() {
    let corpus = german_corpus();
    let hr = solve("zzzzzzzzzz", &[], true, &corpus, Language::DeUmlauts, None);
    let rendered = hr.format_with_width(80);
    assert_eq!(rendered, "Found 0 words (input: zzzzzzzzzz, invalid: )");
}
