//! The codec of trees.

use gitrs::object::error::ObjectError;
use gitrs::object::tree::{Leaf, Tree};
use gitrs::object::{Object, ObjectType};

const A: &str = "32f95c0d1244a78b2be1bab8de17906fabb2c4a8";
const B: &str = "e69de29bb2d1d6434b8b29ae775ad8c2e48c5391";

fn raw(hex: &str) -> Vec<u8> {
    (0..hex.len() / 2)
        .map(|i| u8::from_str_radix(&hex[2 * i..2 * i + 2], 16).unwrap())
        .collect()
}

fn leaf(mode: &str, path: &str, hash: &str) -> Leaf {
    Leaf {
        file_mode: mode.to_string(),
        path: path.to_string(),
        hash: hash.to_string(),
    }
}

fn entry(mode: &str, path: &str, hash: &str) -> Vec<u8> {
    let mut bytes = format!("{} {}\0", mode, path).into_bytes();
    bytes.extend_from_slice(&raw(hash));
    bytes
}

#[test]
fn tree_serializes_one_record() {
    let mut tree = Tree {
        records: vec![leaf("100644", "hello.txt", A)],
    };
    let mut expected = b"100644 hello.txt\0".to_vec();
    expected.extend_from_slice(&[
        0x32, 0xf9, 0x5c, 0x0d, 0x12, 0x44, 0xa7, 0x8b, 0x2b, 0xe1, 0xba, 0xb8, 0xde, 0x17,
        0x90, 0x6f, 0xab, 0xb2, 0xc4, 0xa8,
    ]);
    assert_eq!(tree.serialize(), expected);
}

#[test]
fn tree_deserializes_records_in_their_order() {
    let mut data = entry("100644", "b.txt", A);
    data.extend_from_slice(&entry("040000", "a", B));
    let tree = Tree::deserialize(&data).unwrap();
    assert_eq!(
        tree.records,
        vec![leaf("100644", "b.txt", A), leaf("040000", "a", B)]
    );
}

#[test]
fn tree_mode_of_five_digits_gets_a_zero_in_front() {
    let tree = Tree::deserialize(&entry("40000", "dir", B)).unwrap();
    assert_eq!(tree.records, vec![leaf("040000", "dir", B)]);
}

#[test]
fn tree_name_may_hold_spaces() {
    let tree = Tree::deserialize(&entry("100644", "a b c.txt", A)).unwrap();
    assert_eq!(tree.records, vec![leaf("100644", "a b c.txt", A)]);
}

#[test]
fn tree_digest_comes_back_in_lower_case() {
    let mut tree = Tree {
        records: vec![leaf("100644", "f", "32F95C0D1244A78B2BE1BAB8DE17906FABB2C4A8")],
    };
    let back = Tree::deserialize(&tree.serialize()).unwrap();
    assert_eq!(back.records, vec![leaf("100644", "f", A)]);
}

#[test]
fn tree_sorts_a_directory_as_if_a_slash_followed_its_name() {
    let mut tree = Tree {
        records: vec![
            leaf("040000", "foo", B),
            leaf("100644", "foo.txt", A),
            leaf("100644", "foo-bar", A),
            leaf("100644", "a", A),
        ],
    };
    let bytes = tree.serialize();
    let names: Vec<&str> = tree.records.iter().map(|l| l.path.as_str()).collect();
    assert_eq!(names, vec!["a", "foo-bar", "foo.txt", "foo"]);
    let back = Tree::deserialize(&bytes).unwrap();
    assert_eq!(back.records, tree.records);
}

#[test]
fn tree_sorts_a_file_by_its_name_alone() {
    let mut tree = Tree {
        records: vec![leaf("100644", "foo", A), leaf("100644", "foo.txt", A)],
    };
    tree.serialize();
    let names: Vec<&str> = tree.records.iter().map(|l| l.path.as_str()).collect();
    assert_eq!(names, vec!["foo", "foo.txt"]);
}

#[test]
fn tree_sorts_links_and_commits_by_their_names_alone() {
    let mut tree = Tree {
        records: vec![
            leaf("120000", "x.txt", A),
            leaf("120000", "x", A),
            leaf("160000", "m.b", A),
            leaf("160000", "m", A),
        ],
    };
    tree.serialize();
    let names: Vec<&str> = tree.records.iter().map(|l| l.path.as_str()).collect();
    assert_eq!(names, vec!["m", "m.b", "x", "x.txt"]);
}

#[test]
fn tree_records_with_equal_names_keep_their_order() {
    let mut tree = Tree {
        records: vec![leaf("100644", "same", A), leaf("100644", "same", B)],
    };
    tree.serialize();
    assert_eq!(
        tree.records,
        vec![leaf("100644", "same", A), leaf("100644", "same", B)]
    );
}

#[test]
fn tree_round_trip_gives_the_records_sorted() {
    let records = vec![
        leaf("100644", "z", A),
        leaf("040000", "lib", B),
        leaf("100755", "build.sh", A),
        leaf("100644", "lib.rs", B),
    ];
    let mut tree = Tree {
        records: records.clone(),
    };
    let bytes = tree.serialize();
    let back = Tree::deserialize(&bytes).unwrap();
    assert_eq!(back.records.len(), records.len());
    for record in &records {
        assert!(back.records.contains(record));
    }
    let names: Vec<&str> = back.records.iter().map(|l| l.path.as_str()).collect();
    assert_eq!(names, vec!["build.sh", "lib.rs", "lib", "z"]);
    let mut again = Tree {
        records: back.records,
    };
    assert_eq!(again.serialize(), bytes);
}

#[test]
fn tree_empty_payload_has_no_records() {
    let mut tree = Tree::deserialize(b"").unwrap();
    assert!(tree.records.is_empty());
    assert_eq!(tree.serialize(), Vec::<u8>::new());
}

#[test]
fn tree_without_space_is_malformed() {
    assert_eq!(
        Tree::deserialize(b"100644hello").err(),
        Some(ObjectError::Malformed)
    );
}

#[test]
fn tree_without_zero_byte_is_malformed() {
    assert_eq!(
        Tree::deserialize(b"100644 hello.txt").err(),
        Some(ObjectError::Malformed)
    );
}

#[test]
fn tree_with_a_short_digest_is_malformed() {
    let mut data = b"100644 f\0".to_vec();
    data.extend_from_slice(&[1; 19]);
    assert_eq!(Tree::deserialize(&data).err(), Some(ObjectError::Malformed));
    data.push(1);
    assert!(Tree::deserialize(&data).is_ok());
    data.push(1);
    assert_eq!(Tree::deserialize(&data).err(), Some(ObjectError::Malformed));
}

#[test]
fn tree_with_a_name_that_is_not_utf8_is_malformed() {
    let mut data = vec![b'1', b'0', b'0', b'6', b'4', b'4', b' ', 0xff, 0];
    data.extend_from_slice(&[1; 20]);
    assert_eq!(Tree::deserialize(&data).err(), Some(ObjectError::Malformed));
}

#[test]
fn kind_of_a_mode() {
    assert_eq!(Leaf::get_type_from_mode("40000"), Ok(ObjectType::Tree));
    assert_eq!(Leaf::get_type_from_mode("040000"), Ok(ObjectType::Tree));
    assert_eq!(Leaf::get_type_from_mode("100644"), Ok(ObjectType::Blob));
    assert_eq!(Leaf::get_type_from_mode("100755"), Ok(ObjectType::Blob));
    assert_eq!(Leaf::get_type_from_mode("120000"), Ok(ObjectType::Blob));
    assert_eq!(Leaf::get_type_from_mode("160000"), Ok(ObjectType::Commit));
}

#[test]
fn kind_of_an_unknown_mode_is_an_error() {
    assert_eq!(Leaf::get_type_from_mode("10064"), Err(ObjectError::Malformed));
    assert_eq!(Leaf::get_type_from_mode("400000"), Err(ObjectError::Malformed));
    assert_eq!(Leaf::get_type_from_mode("170000"), Err(ObjectError::Malformed));
    assert_eq!(Leaf::get_type_from_mode("4"), Err(ObjectError::Malformed));
    assert_eq!(Leaf::get_type_from_mode(""), Err(ObjectError::Malformed));
}

#[test]
fn leaf_parse_gives_the_index_behind_the_record() {
    let mut data = entry("100644", "one", A);
    let first = data.len();
    data.extend_from_slice(&entry("100644", "two", B));
    let (leaf_one, next) = Leaf::parse(&data, 0).unwrap();
    assert_eq!(leaf_one, leaf("100644", "one", A));
    assert_eq!(next, first);
    let (leaf_two, end) = Leaf::parse(&data, next).unwrap();
    assert_eq!(leaf_two, leaf("100644", "two", B));
    assert_eq!(end, data.len());
}
