//! Byte strings, digests, compression and sorting.

use gitrs::bytes::{
    append, bytes_eq, bytes_le, find_byte, read_length, starts_with, subvec, write_decimal,
};
use gitrs::digest::hash_hex;
use gitrs::sorting::{path_before_or_equal, sort};
use gitrs::text::str_eq;
use gitrs::zlib::pack;

fn path(segments: &[&str]) -> Vec<Vec<u8>> {
    segments.iter().map(|s| s.as_bytes().to_vec()).collect()
}

#[test]
fn find_byte_gives_the_first_index_from_the_start() {
    assert_eq!(find_byte(b"a b c", b' ', 0), Some(1));
    assert_eq!(find_byte(b"a b c", b' ', 1), Some(1));
    assert_eq!(find_byte(b"a b c", b' ', 2), Some(3));
    assert_eq!(find_byte(b"a b c", b' ', 4), None);
    assert_eq!(find_byte(b"a b c", b' ', 5), None);
    assert_eq!(find_byte(b"", 0, 0), None);
}

#[test]
fn byte_strings_compare() {
    assert!(bytes_eq(b"abc", b"abc"));
    assert!(!bytes_eq(b"abc", b"abd"));
    assert!(!bytes_eq(b"abc", b"ab"));
    assert!(starts_with(b"abc", b"ab"));
    assert!(starts_with(b"abc", b""));
    assert!(!starts_with(b"ab", b"abc"));
    assert!(!starts_with(b"abc", b"b"));
}

#[test]
fn byte_strings_are_ordered_like_a_dictionary() {
    assert!(bytes_le(b"", b""));
    assert!(bytes_le(b"", b"a"));
    assert!(!bytes_le(b"a", b""));
    assert!(bytes_le(b"a", b"a"));
    assert!(bytes_le(b"a", b"ab"));
    assert!(!bytes_le(b"ab", b"a"));
    assert!(bytes_le(b"ab", b"b"));
    assert!(bytes_le(b"foo.txt", b"foo/"));
    assert!(!bytes_le(&[0x80], &[0x7f]));
}

#[test]
fn copying_and_appending() {
    assert_eq!(subvec(b"hello", 1, 3), b"el".to_vec());
    assert_eq!(subvec(b"hello", 5, 5), Vec::<u8>::new());
    let mut out = b"ab".to_vec();
    append(&mut out, b"cd");
    assert_eq!(out, b"abcd".to_vec());
}

#[test]
fn decimal_numbers() {
    assert_eq!(write_decimal(0), b"0".to_vec());
    assert_eq!(write_decimal(7), b"7".to_vec());
    assert_eq!(write_decimal(1230), b"1230".to_vec());
    assert_eq!(read_length(b"0"), Some(0));
    assert_eq!(read_length(b"1230"), Some(1230));
    assert_eq!(read_length(b"+12"), Some(12));
    assert_eq!(read_length(b"007"), Some(7));
    assert_eq!(read_length(b""), None);
    assert_eq!(read_length(b"+"), None);
    assert_eq!(read_length(b"-1"), None);
    assert_eq!(read_length(b"1 2"), None);
    assert_eq!(read_length(b"12a"), None);
    assert_eq!(
        read_length(usize::MAX.to_string().as_bytes()),
        Some(usize::MAX)
    );
    assert_eq!(read_length(b"340282366920938463463374607431768211456"), None);
}

#[test]
fn digest_of_bytes_in_hexadecimal_digits() {
    assert_eq!(hash_hex(b""), "da39a3ee5e6b4b0d3255bfef95601890afd80709");
    assert_eq!(hash_hex(b"abc"), "a9993e364706816aba3e25717850c26c9cd0d89d");
    assert_eq!(
        hash_hex(b"blob 2\0hi"),
        "32f95c0d1244a78b2be1bab8de17906fabb2c4a8"
    );
}

#[test]
fn packed_bytes_are_a_zlib_stream() {
    let data = vec![b'a'; 500];
    let stored = pack(&data).unwrap();
    assert!(stored.len() < 50);
    assert_eq!(stored[0], 0x78);
    assert_ne!(pack(b"").unwrap(), Vec::<u8>::new());
}

#[test]
fn texts_compare() {
    assert!(str_eq("", ""));
    assert!(str_eq("\u{e9}", "\u{e9}"));
    assert!(!str_eq("e", "\u{e9}"));
    assert!(!str_eq("a", "ab"));
}

#[test]
fn paths_are_ordered_segment_by_segment() {
    assert!(path_before_or_equal(&path(&["a", "z"]), &path(&["a.txt"])));
    assert!(!path_before_or_equal(&path(&["a.txt"]), &path(&["a", "z"])));
    assert!(path_before_or_equal(&path(&["a"]), &path(&["a", "b"])));
    assert!(!path_before_or_equal(&path(&["a", "b"]), &path(&["a"])));
    assert!(path_before_or_equal(&path(&["a", "b"]), &path(&["a", "b"])));
    assert!(path_before_or_equal(&[], &path(&["a"])));
}

#[test]
fn sort_orders_paths_and_keeps_equal_ones_in_their_order() {
    let sorted = sort(vec![
        path(&["b"]),
        path(&["a.txt"]),
        path(&["a", "z"]),
        path(&["a"]),
        path(&["b"]),
    ]);
    assert_eq!(
        sorted,
        vec![
            path(&["a"]),
            path(&["a", "z"]),
            path(&["a.txt"]),
            path(&["b"]),
            path(&["b"]),
        ]
    );
    assert_eq!(sort(Vec::<Vec<Vec<u8>>>::new()), Vec::<Vec<Vec<u8>>>::new());
}
