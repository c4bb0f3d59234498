//! Frames, digests and the store of objects.

use gitrs::object::blob::Blob;
use gitrs::object::commit::Commit;
use gitrs::object::error::ObjectError;
use gitrs::object::tag::{Tag, TagType};
use gitrs::object::{frame, unframe, GitrsObject, Object, ObjectType};
use gitrs::refs::Ref;
use gitrs::repository::Repository;

const HI: &str = "32f95c0d1244a78b2be1bab8de17906fabb2c4a8";
const EMPTY: &str = "e69de29bb2d1d6434b8b29ae775ad8c2e48c5391";
const TREE: &str = "2f94a8bb02683a65f8f3d70ce28c3725463c8759";
const COMMIT: &str = "cf04e57b1fb7a60f974f692113cd7a603fd54a0e";
const COMMIT_BYTES: &[u8] =
    b"tree 2f94a8bb02683a65f8f3d70ce28c3725463c8759\nauthor A <a@b.c> 1 +0000\n\nfirst\n";

fn object_path(sha: &str) -> Vec<Vec<u8>> {
    vec![
        b"objects".to_vec(),
        sha.as_bytes()[..2].to_vec(),
        sha.as_bytes()[2..].to_vec(),
    ]
}

#[test]
fn object_type_names() {
    assert_eq!(ObjectType::Blob.to_string(), "blob");
    assert_eq!(ObjectType::Commit.to_string(), "commit");
    assert_eq!(ObjectType::Tag.to_string(), "tag");
    assert_eq!(ObjectType::Tree.to_string(), "tree");
    assert_eq!(ObjectType::Tree.name(), "tree");
}

#[test]
fn object_type_from_names() {
    assert_eq!(ObjectType::try_from("blob"), Ok(ObjectType::Blob));
    assert_eq!(ObjectType::try_from("commit"), Ok(ObjectType::Commit));
    assert_eq!(ObjectType::try_from("tag"), Ok(ObjectType::Tag));
    assert_eq!(ObjectType::try_from("tree"), Ok(ObjectType::Tree));
    assert_eq!(
        ObjectType::try_from("Blob"),
        Err(ObjectError::UnrecognizedObjectType("Blob".to_string()))
    );
    assert_eq!(
        ObjectType::try_from(""),
        Err(ObjectError::UnrecognizedObjectType(String::new()))
    );
}

#[test]
fn frame_of_a_payload() {
    assert_eq!(frame(ObjectType::Blob, b"hi"), b"blob 2\0hi".to_vec());
    assert_eq!(frame(ObjectType::Blob, b""), b"blob 0\0".to_vec());
    assert_eq!(
        frame(ObjectType::Commit, b"0123456789ab"),
        b"commit 12\x000123456789ab".to_vec()
    );
}

#[test]
fn unframe_gives_kind_and_start_of_payload() {
    assert_eq!(unframe(b"blob 2\0hi"), Ok((ObjectType::Blob, 7)));
    assert_eq!(unframe(b"tree 0\0"), Ok((ObjectType::Tree, 7)));
    assert_eq!(unframe(b"tag +3\0abc"), Ok((ObjectType::Tag, 7)));
    assert_eq!(unframe(b"blob 003\0abc"), Ok((ObjectType::Blob, 9)));
}

#[test]
fn unframe_rejects_bad_headers() {
    assert_eq!(unframe(b"blob"), Err(ObjectError::Malformed));
    assert_eq!(unframe(b"blob 2hi"), Err(ObjectError::Malformed));
    assert_eq!(unframe(b"blob 3\0hi"), Err(ObjectError::Malformed));
    assert_eq!(unframe(b"blob 1\0hi"), Err(ObjectError::Malformed));
    assert_eq!(unframe(b"blob \0"), Err(ObjectError::Malformed));
    assert_eq!(unframe(b"blob 2x\0hi"), Err(ObjectError::Malformed));
    assert_eq!(unframe(b"blob -2\0hi"), Err(ObjectError::Malformed));
    assert_eq!(unframe(&[0xff, b' ', b'0', 0]), Err(ObjectError::Malformed));
    assert_eq!(
        unframe(b"blob 99999999999999999999999999\0hi"),
        Err(ObjectError::Malformed)
    );
    assert_eq!(
        unframe(b"blub 2\0hi"),
        Err(ObjectError::UnrecognizedObjectType("blub".to_string()))
    );
}

#[test]
fn blob_keeps_its_bytes() {
    let mut blob = Blob::deserialize(&[0, 255, 10, 32]).unwrap();
    assert_eq!(blob.serialize(), vec![0, 255, 10, 32]);
    assert_eq!(blob.get_data(), vec![0, 255, 10, 32]);
}

#[test]
fn write_gives_the_digest_of_the_frame() {
    let mut repo = Repository::init("/work");
    let sha =
        GitrsObject::deserialize_and_write(&mut repo, b"hi", ObjectType::Blob).unwrap();
    assert_eq!(sha, HI);
    let empty =
        GitrsObject::deserialize_and_write(&mut repo, b"", ObjectType::Blob).unwrap();
    assert_eq!(empty, EMPTY);
    let commit =
        GitrsObject::deserialize_and_write(&mut repo, COMMIT_BYTES, ObjectType::Commit)
            .unwrap();
    assert_eq!(commit, COMMIT);
}

#[test]
fn write_stores_a_compressed_frame_at_the_path_of_the_digest() {
    let mut repo = Repository::init("/work");
    let before = repo.count_files();
    let sha =
        GitrsObject::deserialize_and_write(&mut repo, b"hi", ObjectType::Blob).unwrap();
    assert_eq!(repo.count_files(), before + 1);
    let stored = repo.read(&object_path(&sha)).unwrap().clone();
    assert_ne!(stored, b"blob 2\0hi".to_vec());
    assert_eq!(stored[0], 0x78);
    assert!(repo.is_dir(&[b"objects".to_vec(), b"32".to_vec()]));
    assert_eq!(
        repo.get_path_to_file_if_exists(&["objects", &sha[..2], &sha[2..]]),
        Some(format!("/work/.gitrs/objects/32/{}", &sha[2..]))
    );
}

#[test]
fn read_gives_back_what_was_written() {
    let mut repo = Repository::init("/work");
    let payload: Vec<u8> = (0..=255u8).collect();
    let sha =
        GitrsObject::deserialize_and_write(&mut repo, &payload, ObjectType::Blob).unwrap();
    match GitrsObject::read(&repo, &sha) {
        Ok(GitrsObject::BlobObject(blob)) => assert_eq!(blob.get_data(), payload),
        _ => panic!("a blob was written"),
    }
}

#[test]
fn read_gives_back_each_kind() {
    let mut repo = Repository::init("/work");
    let tree_bytes = {
        let mut bytes = b"100644 hello.txt\0".to_vec();
        bytes.extend_from_slice(&[
            0x32, 0xf9, 0x5c, 0x0d, 0x12, 0x44, 0xa7, 0x8b, 0x2b, 0xe1, 0xba, 0xb8, 0xde,
            0x17, 0x90, 0x6f, 0xab, 0xb2, 0xc4, 0xa8,
        ]);
        bytes
    };
    let tree =
        GitrsObject::deserialize_and_write(&mut repo, &tree_bytes, ObjectType::Tree).unwrap();
    assert_eq!(tree, TREE);
    let commit =
        GitrsObject::deserialize_and_write(&mut repo, COMMIT_BYTES, ObjectType::Commit)
            .unwrap();
    let tag_bytes = format!("object {}\ntag v1\n", commit).into_bytes();
    let tag =
        GitrsObject::deserialize_and_write(&mut repo, &tag_bytes, ObjectType::Tag).unwrap();
    assert_eq!(tag, "06639ea8872db85e23717098e6598b496e76bf7d");

    let mut read_tree = GitrsObject::read(&repo, &tree).unwrap();
    assert_eq!(read_tree.get_type(), ObjectType::Tree);
    assert_eq!(read_tree.serialize(), tree_bytes);
    let mut read_commit = GitrsObject::read(&repo, &commit).unwrap();
    assert_eq!(read_commit.get_type(), ObjectType::Commit);
    assert_eq!(read_commit.serialize(), COMMIT_BYTES.to_vec());
    let mut read_tag = GitrsObject::read(&repo, &tag).unwrap();
    assert_eq!(read_tag.get_type(), ObjectType::Tag);
    assert_eq!(read_tag.serialize(), tag_bytes);
}

#[test]
fn writing_twice_gives_the_same_digest_and_changes_nothing() {
    let mut repo = Repository::init("/work");
    let first =
        GitrsObject::deserialize_and_write(&mut repo, b"same", ObjectType::Blob).unwrap();
    let files = repo.count_files();
    let stored = repo.read(&object_path(&first)).unwrap().clone();
    let second =
        GitrsObject::deserialize_and_write(&mut repo, b"same", ObjectType::Blob).unwrap();
    assert_eq!(first, second);
    assert_eq!(repo.count_files(), files);
    assert_eq!(repo.read(&object_path(&first)).unwrap(), &stored);
}

#[test]
fn read_of_a_stream_made_elsewhere() {
    let mut repo = Repository::init("/work");
    let stored: Vec<u8> = vec![
        120, 156, 75, 202, 201, 79, 82, 48, 98, 200, 200, 4, 0, 14, 209, 2, 195,
    ];
    assert!(repo.store(&object_path(HI), stored));
    match GitrsObject::read(&repo, HI) {
        Ok(GitrsObject::BlobObject(blob)) => assert_eq!(blob.get_data(), b"hi".to_vec()),
        _ => panic!("the stream holds a blob"),
    }
}

#[test]
fn read_of_a_missing_object_is_not_found() {
    let repo = Repository::init("/work");
    assert_eq!(GitrsObject::read(&repo, HI).err(), Some(ObjectError::NotFound));
    assert_eq!(GitrsObject::read(&repo, "a").err(), Some(ObjectError::NotFound));
    assert_eq!(GitrsObject::read(&repo, "").err(), Some(ObjectError::NotFound));
}

#[test]
fn read_of_bytes_that_are_no_stream_fails() {
    let mut repo = Repository::init("/work");
    assert!(repo.store(&object_path(HI), b"blob 2\0hi".to_vec()));
    assert_eq!(
        GitrsObject::read(&repo, HI).err(),
        Some(ObjectError::Compression)
    );
}

#[test]
fn read_of_a_frame_with_a_wrong_length_is_malformed() {
    let mut repo = Repository::init("/work");
    assert!(repo
        .upsert_file(&["objects", "ab", "cdef"], &b"blob 5\0hi".to_vec())
        .is_some());
    assert_eq!(
        GitrsObject::read(&repo, "abcdef").err(),
        Some(ObjectError::Malformed)
    );
    assert!(repo
        .upsert_file(&["objects", "ab", "cd00"], &b"blob2\0hi".to_vec())
        .is_some());
    assert_eq!(
        GitrsObject::read(&repo, "abcd00").err(),
        Some(ObjectError::Malformed)
    );
    assert!(repo
        .upsert_file(&["objects", "ab", "cd01"], &b"what 2\0hi".to_vec())
        .is_some());
    assert_eq!(
        GitrsObject::read(&repo, "abcd01").err(),
        Some(ObjectError::UnrecognizedObjectType("what".to_string()))
    );
}

#[test]
fn commit_needs_a_tree() {
    assert_eq!(
        Commit::deserialize(b"author a\n\nm").err(),
        Some(ObjectError::Malformed)
    );
    let commit = Commit::deserialize(COMMIT_BYTES).unwrap();
    assert_eq!(commit.get_tree_hash(), TREE);
    assert!(commit.has_message());
    assert_eq!(commit.message(), "first\n");
}

#[test]
fn commit_short_digest() {
    assert_eq!(Commit::short(COMMIT), "cf04e57");
    assert_eq!(Commit::short("abc"), "abc");
}

#[test]
fn tag_needs_object_and_name() {
    assert_eq!(
        Tag::deserialize(b"object abc\n").err(),
        Some(ObjectError::Malformed)
    );
    assert_eq!(
        Tag::deserialize(b"tag v1\n").err(),
        Some(ObjectError::Malformed)
    );
    let tag = Tag::deserialize(b"object abc\ntag v1\n").unwrap();
    assert_eq!(tag.get_object_hash(), "abc");
}

#[test]
fn light_tag_is_a_reference_to_the_object() {
    let mut repo = Repository::init("/work");
    assert_eq!(Tag::create(&mut repo, "v1", HI, TagType::Lightweight), Ok(()));
    assert_eq!(
        repo.read(&[b"refs".to_vec(), b"tags".to_vec(), b"v1".to_vec()]),
        Some(&format!("{}\n", HI).into_bytes())
    );
    assert_eq!(Ref::resolve(&repo, &["refs", "tags", "v1"]), Ok(HI.to_string()));
}

#[test]
fn tag_with_an_object_leads_to_the_object_of_the_tag() {
    let mut repo = Repository::init("/work");
    assert_eq!(Tag::create(&mut repo, "v1", COMMIT, TagType::Object), Ok(()));
    let sha = Ref::resolve(&repo, &["refs", "tags", "v1"]).unwrap();
    assert_eq!(sha, "06639ea8872db85e23717098e6598b496e76bf7d");
    match GitrsObject::read(&repo, &sha) {
        Ok(GitrsObject::TagObject(tag)) => assert_eq!(tag.get_object_hash(), COMMIT),
        _ => panic!("a tag was written"),
    }
}

#[test]
fn tag_where_a_directory_stands_cannot_be_created() {
    let mut repo = Repository::init("/work");
    assert!(repo.make_dirs(&[b"refs".to_vec(), b"tags".to_vec(), b"v1".to_vec()]));
    assert_eq!(
        Tag::create(&mut repo, "v1", HI, TagType::Lightweight),
        Err(ObjectError::CannotCreate)
    );
}

#[test]
fn object_type_from_str_gives_the_text_of_the_error() {
    assert_eq!(ObjectType::from_str("tree"), Ok(ObjectType::Tree));
    assert_eq!(
        ObjectType::from_str("twig"),
        Err("Unrecognized Object type: twig".to_string())
    );
}

#[test]
fn errors_have_a_text() {
    assert_eq!(
        ObjectError::UnrecognizedObjectType("x y".to_string()).to_string(),
        "Unrecognized Object type: x y"
    );
    assert_eq!(
        ObjectError::Ambiguous(vec!["ab".to_string(), "cd".to_string()]).to_string(),
        "Ambiguous name. Candidates: ab cd"
    );
    assert_eq!(
        ObjectError::InvariantViolation {
            digest: "abc".to_string(),
            expected: None,
            actual: ObjectType::Commit,
        }
        .to_string(),
        "Unexpected object in tree: <type: commit hash: abc>"
    );
    assert_eq!(
        ObjectError::KindMismatch.to_string(),
        "No object matching requested type"
    );
}

#[test]
fn dump_shows_lines_of_sixteen_bytes() {
    assert_eq!(GitrsObject::dump(&Vec::new()), "\n");
    assert_eq!(GitrsObject::dump(&vec![0x0a]), "\n00000000: 0a \n");
    let bytes: Vec<u8> = (0..18u8).collect();
    assert_eq!(
        GitrsObject::dump(&bytes),
        "\n00000000: 00 01 02 03 04 05 06 07 08 09 0a 0b 0c 0d 0e 0f \n00000010: 10 11 \n"
    );
    let long = vec![0xffu8; 300];
    assert!(GitrsObject::dump(&long).contains("\n00000120: ff "));
}

#[test]
fn valid_objects_serialize_to_their_payload() {
    let mut object = GitrsObject::deserialize(COMMIT_BYTES, ObjectType::Commit).unwrap();
    assert_eq!(object.get_type(), ObjectType::Commit);
    assert_eq!(object.serialize(), COMMIT_BYTES.to_vec());
    assert_eq!(
        GitrsObject::deserialize(b"no tree\n", ObjectType::Commit).err(),
        Some(ObjectError::Malformed)
    );
    let mut framed = GitrsObject::from_frame(b"blob 3\0abc").unwrap();
    assert_eq!(framed.serialize(), b"abc".to_vec());
    assert_eq!(
        GitrsObject::from_frame(b"tree 1\0x").err(),
        Some(ObjectError::Malformed)
    );
}
