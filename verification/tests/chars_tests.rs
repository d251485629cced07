use hangman_solver::{
    AsciiCharIterator, CharUtils, ControlChars, GenericCharCollection, InfallibleCharCollection,
    Language,
};

#[test]
fn test_iter_ascii() {
    let ascii_strings = ["Hello, world!", "abcde", "test"];

    for string in ascii_strings {
        assert!(string.is_ascii());
        assert_eq!(string.char_count(), string.len());
    }
}

#[test]
fn test_iter_ascii_chars() {
    let strings = ["\u{b5} ASCII TEXT", "\u{e4}\u{f6}\u{fc}\u{df}\u{c4}\u{d6}\u{dc}\u{1e9e}", "\u{1f913}\u{1f988}"];

    for string in strings.map(String::from) {
        assert!(!string.is_ascii());
        assert!(string.first_char().is_some());
        assert_eq!(string.chars().count(), string.char_count());
        assert_eq!(string.chars().next(), string.first_char());
        assert_eq!(string.chars().collect::<Vec<char>>(), string.chars_vec());
    }

    for string in strings {
        assert!(!string.is_ascii());
        assert!(string.first_char().is_some());
        assert_eq!(string.chars().count(), string.char_count());
        assert_eq!(string.chars().next(), string.first_char());
        assert_eq!(string.chars().collect::<Vec<char>>(), string.chars_vec());
    }
}

#[test]
fn test_ascii_char_iterator_marks_multibyte() {
    let mut it = AsciiCharIterator::new("a\u{fc}b");
    assert_eq!(it.next(), Some(b'a'));
    assert_eq!(it.next(), Some(0xff));
    assert_eq!(it.next(), Some(b'b'));
    assert_eq!(it.next(), None);
}

#[test]
fn test_ascii_char_iterator_pure_ascii() {
    let mut it = AsciiCharIterator::new("ok!");
    assert_eq!(it.next(), Some(b'o'));
    assert_eq!(it.next(), Some(b'k'));
    assert_eq!(it.next(), Some(b'!'));
    assert_eq!(it.next(), None);
    assert_eq!(it.next(), None);
}

#[test]
fn test_control_chars_for_char() {
    assert!('_'.is_wildcard());
    assert!('#'.is_wildcard());
    assert!('?'.is_wildcard());
    assert!(!'a'.is_wildcard());
    assert!('_'.is_normalised_wildcard());
    assert!(!'#'.is_normalised_wildcard());
    assert_eq!('#'.normalise_wildcard(), '_');
    assert_eq!('?'.normalise_wildcard(), '_');
    assert_eq!('a'.normalise_wildcard(), 'a');
    assert!('\n'.is_reserved());
    assert!('\0'.is_reserved());
    assert!(!'z'.is_reserved());
    assert_eq!(<char as ControlChars>::wildcard(), '_');
}

#[test]
fn test_control_chars_for_byte() {
    assert!(b'_'.is_wildcard());
    assert!(b'#'.is_wildcard());
    assert!(b'?'.is_wildcard());
    assert!(!b'a'.is_wildcard());
    assert_eq!(b'#'.normalise_wildcard(), b'_');
    assert!(b'\n'.is_reserved());
    assert_eq!(<u8 as ControlChars>::wildcard(), b'_');
}

#[test]
fn test_char_utils() {
    assert!(CharUtils::is_whitespace(' '));
    assert!(CharUtils::is_whitespace('\t'));
    assert!(!CharUtils::is_whitespace('x'));
    assert_eq!(CharUtils::to_char(b'q'), 'q');
    assert_eq!(CharUtils::to_char('q'), 'q');
    assert_eq!(CharUtils::to_ascii_char('a'), Some(b'a'));
    assert_eq!(CharUtils::to_ascii_char('\u{fc}'), None);
    assert_eq!(CharUtils::to_ascii_char(b'a'), Some(b'a'));
    assert!(CharUtils::is_whitespace(b' '));
    assert!(!CharUtils::is_whitespace(b'x'));
}

#[test]
fn test_generic_units_over_chars() {
    let s = "a\u{fc}B";
    let units: Vec<char> = GenericCharCollection::<char>::units(s);
    assert_eq!(units, vec!['a', '\u{fc}', 'B']);
    assert_eq!(GenericCharCollection::<char>::count(s), 3);
    assert_eq!(GenericCharCollection::<char>::first(s), Some('a'));
    let lowered: Vec<char> = GenericCharCollection::<char>::lowercased(s);
    assert_eq!(lowered, vec!['a', '\u{fc}', 'b']);
}

#[test]
fn test_generic_units_over_bytes() {
    let s = "a\u{fc}B";
    let units: Vec<u8> = GenericCharCollection::<u8>::units(s);
    assert_eq!(units, vec![b'a', 0xff, b'B']);
    assert_eq!(GenericCharCollection::<u8>::count(s), 3);
    assert_eq!(GenericCharCollection::<u8>::first(s), Some(b'a'));
    let lowered: Vec<u8> = GenericCharCollection::<u8>::lowercased(s);
    assert_eq!(lowered, vec![b'a', 0xff, b'b']);
}

#[test]
fn test_language_codes() {
    assert_eq!(Language::from_string("de"), Some(Language::De));
    assert_eq!(Language::from_string("DE"), Some(Language::De));
    assert_eq!(Language::from_string("De-Basic"), Some(Language::DeBasic));
    assert_eq!(
        Language::from_string("de_basic_umlauts"),
        Some(Language::DeBasicUmlauts)
    );
    assert_eq!(Language::from_string("DE_UMLAUTS"), Some(Language::DeUmlauts));
    assert_eq!(Language::from_string("en"), Some(Language::En));
    assert_eq!(Language::from_string("fr"), None);
    assert_eq!(Language::from_string(""), None);

    assert_eq!(Language::De.as_string(), "de");
    assert_eq!(Language::DeUmlauts.as_string(), "de_umlauts");
    assert_eq!(Language::En.name(), "en");

    for lang in Language::all() {
        assert_eq!(Language::from_string(lang.as_string()), Some(lang));
    }
}
