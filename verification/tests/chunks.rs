use natural_sort::by_chunks::compare_bytes;
use natural_sort::scan::is_digit_byte;
use natural_sort::{natural_chunk, Chunk};
use std::cmp::Ordering;

#[test]
fn new_chunk_keeps_its_parts() {
    let c = Chunk::new("123", true);
    assert_eq!(c.chars, "123");
    assert!(c.are_digits);
    let d = Chunk::new("", false);
    assert_eq!(d.chars, "");
    assert!(!d.are_digits);
    assert_eq!(Chunk::new("ab", false), Chunk::new("ab", false));
    assert_ne!(Chunk::new("ab", false), Chunk::new("ab", true));
}

#[test]
fn chunk_of_empty_text_is_empty_text() {
    assert_eq!(natural_chunk(""), Chunk::new("", false));
}

#[test]
fn chunk_is_the_leading_digit_run() {
    assert_eq!(natural_chunk("123abc"), Chunk::new("123", true));
    assert_eq!(natural_chunk("0"), Chunk::new("0", true));
    assert_eq!(natural_chunk("2024-01"), Chunk::new("2024", true));
    assert_eq!(natural_chunk("9876543210"), Chunk::new("9876543210", true));
}

#[test]
fn chunk_is_the_leading_text_run() {
    assert_eq!(natural_chunk("abc123"), Chunk::new("abc", false));
    assert_eq!(natural_chunk("abc"), Chunk::new("abc", false));
    assert_eq!(natural_chunk("a1"), Chunk::new("a", false));
    assert_eq!(natural_chunk(" /:9"), Chunk::new(" /:", false));
}

#[test]
fn chunk_keeps_characters_whole() {
    assert_eq!(natural_chunk("é1"), Chunk::new("é", false));
    assert_eq!(natural_chunk("1é"), Chunk::new("1", true));
    assert_eq!(natural_chunk("日本語42"), Chunk::new("日本語", false));
    assert_eq!(natural_chunk("42日本語"), Chunk::new("42", true));
    assert_eq!(natural_chunk("١٢3"), Chunk::new("١٢", false));
}

#[test]
fn digits_are_the_ten_ascii_digits() {
    for b in 0u8..=255u8 {
        assert_eq!(is_digit_byte(b), b.is_ascii_digit());
    }
    assert!(!is_digit_byte(b'/'));
    assert!(is_digit_byte(b'0'));
    assert!(is_digit_byte(b'9'));
    assert!(!is_digit_byte(b':'));
}

#[test]
fn bytes_compare_lexicographically() {
    assert_eq!(Ordering::Equal, compare_bytes(b"", b""));
    assert_eq!(Ordering::Less, compare_bytes(b"", b"a"));
    assert_eq!(Ordering::Greater, compare_bytes(b"a", b""));
    assert_eq!(Ordering::Equal, compare_bytes(b"abc", b"abc"));
    assert_eq!(Ordering::Less, compare_bytes(b"abc", b"abd"));
    assert_eq!(Ordering::Greater, compare_bytes(b"b", b"abc"));
    assert_eq!(Ordering::Less, compare_bytes(b"ab", b"abc"));
    assert_eq!(Ordering::Greater, compare_bytes(b"12", b"111"));
    assert_eq!(Ordering::Less, compare_bytes(&[0x7f], &[0x80]));
    let samples: [&str; 6] = ["", "a", "ab", "b", "10", "9"];
    for a in samples {
        for b in samples {
            assert_eq!(compare_bytes(a.as_bytes(), b.as_bytes()), a.cmp(b));
        }
    }
}
