use hangman_solver::WordSequence;

fn packed(words: &[&str], w: usize) -> Vec<u8> {
    let mut data: Vec<u8> = Vec::new();
    for word in words {
        for _ in 0..(w - word.len()) {
            data.push(0u8);
        }
        data.extend_from_slice(word.as_bytes());
    }
    data
}

#[test]
fn test_bucket_accessors() {
    let data = packed(&["abenteurer", "g\u{fc}rteltier", "murmeltier"], 11);
    let ws = WordSequence::new(10, data, 11).expect("valid bucket");
    assert_eq!(ws.len(), 3);
    assert_eq!(ws.word_char_count(), 10);
    assert!(!ws.is_empty());
    assert_eq!(ws.get(0), Some(String::from("abenteurer")));
    assert_eq!(ws.get(1), Some(String::from("g\u{fc}rteltier")));
    assert_eq!(ws.get(2), Some(String::from("murmeltier")));
    assert_eq!(ws.get(3), None);
    assert!(ws.contains("murmeltier"));
    assert!(!ws.contains("wurzelbier"));
    assert!(!ws.contains("murmel"));
}

#[test]
fn test_round_trip_repacks_buffer() {
    let words = ["abenteurer", "g\u{fc}rteltier", "murmeltier", "wurzelbier"];
    let data = packed(&words, 11);
    let ws = WordSequence::new(10, data.clone(), 11).expect("valid bucket");
    // Decode every slot, re-encode it padded to the slot width, and
    // concatenate: the original packed buffer comes back.
    let mut repacked: Vec<u8> = Vec::new();
    for i in 0..ws.len() {
        let word = ws.get(i).unwrap();
        let bytes = word.as_bytes();
        for _ in 0..(ws.padded_word_byte_count - bytes.len()) {
            repacked.push(0u8);
        }
        repacked.extend_from_slice(bytes);
    }
    assert_eq!(repacked, data);
}

#[test]
fn test_new_rejects_bad_data() {
    // Width zero.
    assert!(WordSequence::new(3, vec![0u8; 6], 0).is_none());
    // Length not a multiple of the width.
    assert!(WordSequence::new(3, vec![b'a'; 7], 3).is_none());
    // Wrong character count in a slot.
    assert!(WordSequence::new(4, packed(&["abc", "def"], 3), 3).is_none());
    // Unsorted words.
    assert!(WordSequence::new(3, packed(&["def", "abc"], 3), 3).is_none());
    // A reserved character inside a word.
    assert!(WordSequence::new(3, packed(&["a_c"], 3), 3).is_none());
    assert!(WordSequence::new(3, packed(&["a#c"], 3), 3).is_none());
    // Invalid UTF-8 in a slot.
    assert!(WordSequence::new(3, vec![b'a', b'b', 0xff], 3).is_none());
    // Well-formed data passes.
    assert!(WordSequence::new(3, packed(&["abc", "def"], 3), 3).is_some());
}

#[test]
fn test_empty_bucket() {
    let ws = WordSequence::new(5, Vec::new(), 6).expect("empty bucket");
    assert_eq!(ws.len(), 0);
    assert!(ws.is_empty());
    assert_eq!(ws.get(0), None);
    assert!(!ws.contains("aaaaa"));
}

#[test]
fn test_slice_is_subrange() {
    let data = packed(&["abc", "def", "ghi", "jkl"], 3);
    let ws = WordSequence::new(3, data, 3).expect("valid bucket");
    let sub = ws.slice(1, 3).expect("valid range");
    assert_eq!(sub.len(), 2);
    assert_eq!(sub.get(0), Some(String::from("def")));
    assert_eq!(sub.get(1), Some(String::from("ghi")));
    assert!(ws.slice(2, 1).is_none());
    assert!(ws.slice(0, 5).is_none());
}

#[test]
fn test_iter_yields_words_in_order_and_restarts() {
    let data = packed(&["abc", "def"], 3);
    let ws = WordSequence::new(3, data, 3).expect("valid bucket");
    let mut it = ws.iter();
    assert_eq!(it.remaining(), 2);
    assert_eq!(it.next(), Some(String::from("abc")));
    assert_eq!(it.next(), Some(String::from("def")));
    assert_eq!(it.next(), None);
    assert_eq!(it.remaining(), 0);
    // A fresh iterator re-reads from the same immutable buffer.
    let mut again = ws.iter();
    assert_eq!(again.next(), Some(String::from("abc")));
}
