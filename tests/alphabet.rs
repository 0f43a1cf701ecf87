use word_rectangles::charset::CharSet;
use word_rectangles::codec::{decode, encode};
use word_rectangles::words::{encode_word, filter_word};

const LETTERS: &str = "aeiornlstupcdkyghbvfwzjxABCDEFmq";

#[test]
fn codec_round_trip_every_letter() {
    for (i, c) in LETTERS.chars().enumerate() {
        assert_eq!(encode(c), Some(i as u8));
        assert_eq!(decode(i as u8), Some(c));
        assert_eq!(decode(encode(c).unwrap()), Some(c));
    }
    for code in 32u8..=255 {
        assert_eq!(decode(code), None);
    }
}

#[test]
fn codec_rejects_other_characters() {
    assert_eq!(encode('!'), None);
    assert_eq!(encode(' '), None);
    assert_eq!(encode('G'), None);
    assert_eq!(encode('\u{e9}'), None);
}

#[test]
fn charset_add_and_has() {
    let mut s = CharSet::default();
    assert!(!s.has(0));
    s.add(0);
    s.add(31);
    s.add(5);
    assert!(s.has(0));
    assert!(s.has(31));
    assert!(s.has(5));
    assert!(!s.has(4));
    assert_eq!(s.internal, 1 | (1 << 31) | (1 << 5));
}

#[test]
fn charset_intersection() {
    let a = CharSet::new(0b1011);
    let b = CharSet::new(0b0110);
    let c = a.and(&b);
    assert_eq!(c.internal, 0b0010);
    assert!(c.has(1));
    assert!(!c.has(0));
    assert!(!c.has(2));
}

#[test]
fn encode_word_gives_codes() {
    assert_eq!(encode_word("cat"), Some(vec![11, 0, 8]));
    assert_eq!(encode_word(""), Some(vec![]));
    assert_eq!(encode_word("c t"), None);
}

#[test]
fn filter_word_keeps_letters() {
    assert_eq!(filter_word("cat"), Some("cat".to_string()));
}

#[test]
fn filter_word_folds_lookalikes() {
    // Cyrillic small a and small es look like Latin a and c.
    assert_eq!(filter_word("\u{0441}\u{0430}t"), Some("cat".to_string()));
}

#[test]
fn filter_word_drops_unfoldable() {
    assert_eq!(filter_word("a b"), None);
}
