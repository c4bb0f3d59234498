//! The codec of key-value lists on concrete encodings.

use gitrs::kvlm::Kvlm;
use gitrs::object::error::ObjectError;

#[test]
fn kvlm_parses_headers_and_message() {
    let raw = b"tree 29ff16c9c14e2652b22f8b78bb08a5a07930c147\nparent 206941306e8a8af65b66eaaaea388a7ae24d49a0\nauthor A <a@b.c> 1 +0000\n\nFirst line\n";
    let kvlm = Kvlm::new(raw).unwrap();
    assert_eq!(
        kvlm.get_key("tree").unwrap(),
        &vec!["29ff16c9c14e2652b22f8b78bb08a5a07930c147".to_string()]
    );
    assert_eq!(
        kvlm.get_key("author").unwrap(),
        &vec!["A <a@b.c> 1 +0000".to_string()]
    );
    assert!(kvlm.get_key("committer").is_none());
    assert!(kvlm.has_message());
    assert_eq!(kvlm.get_message(), "First line\n");
    assert_eq!(kvlm.serialize(), raw.to_vec());
}

#[test]
fn kvlm_value_ends_before_the_line_feed() {
    let kvlm = Kvlm::new(b"tree abc\n").unwrap();
    assert_eq!(kvlm.get_key("tree").unwrap(), &vec!["abc".to_string()]);
    assert!(!kvlm.has_message());
}

#[test]
fn kvlm_unfolds_continuation_lines() {
    let raw = b"gpgsig line one\n line two\n line three\nparent p\n\nmsg";
    let kvlm = Kvlm::new(raw).unwrap();
    assert_eq!(
        kvlm.get_key("gpgsig").unwrap(),
        &vec!["line one\nline two\nline three".to_string()]
    );
    assert_eq!(kvlm.get_key("parent").unwrap(), &vec!["p".to_string()]);
    assert_eq!(kvlm.get_message(), "msg");
    assert_eq!(kvlm.serialize(), raw.to_vec());
}

#[test]
fn kvlm_repeated_keys_accumulate_in_order() {
    let raw = b"tree t\nparent one\nparent two\nauthor a\n\nm";
    let kvlm = Kvlm::new(raw).unwrap();
    assert_eq!(
        kvlm.get_key("parent").unwrap(),
        &vec!["one".to_string(), "two".to_string()]
    );
    assert_eq!(kvlm.serialize(), raw.to_vec());
}

#[test]
fn kvlm_interleaved_keys_are_grouped_at_their_first_place() {
    let kvlm = Kvlm::new(b"a 1\nb 2\na 3\n").unwrap();
    assert_eq!(
        kvlm.get_key("a").unwrap(),
        &vec!["1".to_string(), "3".to_string()]
    );
    assert_eq!(kvlm.serialize(), b"a 1\na 3\nb 2\n".to_vec());
}

#[test]
fn kvlm_empty_input_is_an_empty_list() {
    let kvlm = Kvlm::new(b"").unwrap();
    assert!(!kvlm.has_message());
    assert_eq!(kvlm.serialize(), Vec::<u8>::new());
}

#[test]
fn kvlm_message_alone() {
    let kvlm = Kvlm::new(b"\njust a message").unwrap();
    assert_eq!(kvlm.get_message(), "just a message");
    assert_eq!(kvlm.serialize(), b"\njust a message".to_vec());
}

#[test]
fn kvlm_empty_message_is_kept() {
    let kvlm = Kvlm::new(b"tree t\n\n").unwrap();
    assert!(kvlm.has_message());
    assert_eq!(kvlm.get_message(), "");
    assert_eq!(kvlm.serialize(), b"tree t\n\n".to_vec());
}

#[test]
fn kvlm_header_line_without_space_is_malformed() {
    assert_eq!(Kvlm::new(b"treeabc\n").err(), Some(ObjectError::Malformed));
    assert_eq!(
        Kvlm::new(b"nospace\nkey value\n").err(),
        Some(ObjectError::Malformed)
    );
}

#[test]
fn kvlm_header_line_without_end_is_malformed() {
    assert_eq!(Kvlm::new(b"tree abc").err(), Some(ObjectError::Malformed));
}

#[test]
fn kvlm_invalid_utf8_is_malformed() {
    assert_eq!(
        Kvlm::new(&[b't', b' ', 0xff, b'\n']).err(),
        Some(ObjectError::Malformed)
    );
    assert_eq!(
        Kvlm::new(&[0xc3, b' ', b'v', b'\n']).err(),
        Some(ObjectError::Malformed)
    );
    assert_eq!(
        Kvlm::new(&[b'\n', 0xff]).err(),
        Some(ObjectError::Malformed)
    );
}

#[test]
fn kvlm_insert_replaces_values_and_keeps_the_place() {
    let mut kvlm = Kvlm::new(b"a 1\na 2\nb 3\n\nm").unwrap();
    kvlm.insert("a", "new");
    kvlm.insert("c", "last");
    assert_eq!(kvlm.get_key("a").unwrap(), &vec!["new".to_string()]);
    assert_eq!(kvlm.serialize(), b"a new\nb 3\nc last\n\nm".to_vec());
}

#[test]
fn kvlm_init_is_empty_and_serializes_inserted_headers() {
    let mut kvlm = Kvlm::init();
    assert_eq!(kvlm.serialize(), Vec::<u8>::new());
    kvlm.insert("object", "abc");
    kvlm.insert("tag", "v1");
    assert_eq!(kvlm.serialize(), b"object abc\ntag v1\n".to_vec());
}

#[test]
fn kvlm_serialize_folds_line_feeds_and_parse_reads_them_back() {
    let mut kvlm = Kvlm::init();
    kvlm.insert("note", "one\ntwo\n\n three\n");
    let bytes = kvlm.serialize();
    assert_eq!(bytes, b"note one\n two\n \n  three\n \n".to_vec());
    let back = Kvlm::new(&bytes).unwrap();
    assert_eq!(
        back.get_key("note").unwrap(),
        &vec!["one\ntwo\n\n three\n".to_string()]
    );
}

#[test]
fn kvlm_round_trip_with_text_outside_ascii() {
    let mut kvlm = Kvlm::init();
    kvlm.insert("author", "Zo\u{eb} \u{4e16}\u{754c}");
    let bytes = kvlm.serialize();
    let back = Kvlm::new(&bytes).unwrap();
    assert_eq!(
        back.get_key("author").unwrap(),
        &vec!["Zo\u{eb} \u{4e16}\u{754c}".to_string()]
    );
    assert_eq!(back.serialize(), bytes);
}

#[test]
fn kvlm_key_with_a_space_does_not_come_back() {
    let mut kvlm = Kvlm::init();
    kvlm.insert("a b", "v");
    let back = Kvlm::new(&kvlm.serialize()).unwrap();
    assert!(back.get_key("a b").is_none());
    assert_eq!(back.get_key("a").unwrap(), &vec!["b v".to_string()]);
}
