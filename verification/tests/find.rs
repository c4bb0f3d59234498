//! Finding objects by name.

use gitrs::object::error::ObjectError;
use gitrs::object::{GitrsObject, ObjectFindOptions, ObjectType};
use gitrs::refs::Ref;
use gitrs::repository::Repository;

const HI: &str = "32f95c0d1244a78b2be1bab8de17906fabb2c4a8";
const TREE: &str = "2f94a8bb02683a65f8f3d70ce28c3725463c8759";
const COMMIT: &str = "cf04e57b1fb7a60f974f692113cd7a603fd54a0e";
const TAG: &str = "06639ea8872db85e23717098e6598b496e76bf7d";
const COMMIT_BYTES: &[u8] =
    b"tree 2f94a8bb02683a65f8f3d70ce28c3725463c8759\nauthor A <a@b.c> 1 +0000\n\nfirst\n";

fn path(segments: &[&str]) -> Vec<Vec<u8>> {
    segments.iter().map(|s| s.as_bytes().to_vec()).collect()
}

fn filled() -> Repository {
    let mut repo = Repository::init("/work");
    let blob = GitrsObject::deserialize_and_write(&mut repo, b"hi", ObjectType::Blob).unwrap();
    assert_eq!(blob, HI);
    let mut tree_bytes = b"100644 hello.txt\0".to_vec();
    tree_bytes.extend_from_slice(&[
        0x32, 0xf9, 0x5c, 0x0d, 0x12, 0x44, 0xa7, 0x8b, 0x2b, 0xe1, 0xba, 0xb8, 0xde, 0x17,
        0x90, 0x6f, 0xab, 0xb2, 0xc4, 0xa8,
    ]);
    let tree =
        GitrsObject::deserialize_and_write(&mut repo, &tree_bytes, ObjectType::Tree).unwrap();
    assert_eq!(tree, TREE);
    let commit =
        GitrsObject::deserialize_and_write(&mut repo, COMMIT_BYTES, ObjectType::Commit)
            .unwrap();
    assert_eq!(commit, COMMIT);
    let tag_bytes = format!("object {}\ntag v1\n", COMMIT).into_bytes();
    let tag =
        GitrsObject::deserialize_and_write(&mut repo, &tag_bytes, ObjectType::Tag).unwrap();
    assert_eq!(tag, TAG);
    repo
}

fn options(object_type: ObjectType, should_follow: bool) -> Option<ObjectFindOptions> {
    Some(ObjectFindOptions {
        object_type,
        should_follow,
    })
}

#[test]
fn find_by_a_full_digest() {
    let repo = filled();
    assert_eq!(GitrsObject::find(&repo, HI, None), Ok(HI.to_string()));
}

#[test]
fn find_by_the_beginning_of_a_digest() {
    let repo = filled();
    assert_eq!(GitrsObject::find(&repo, "32f9", None), Ok(HI.to_string()));
    assert_eq!(GitrsObject::find(&repo, "32", None), Ok(HI.to_string()));
    assert_eq!(GitrsObject::find(&repo, "CF04E5", None), Ok(COMMIT.to_string()));
}

#[test]
fn find_by_a_prefix_that_matches_nothing_is_not_found() {
    let repo = filled();
    assert_eq!(
        GitrsObject::find(&repo, "32f8", None),
        Err(ObjectError::NotFound)
    );
    assert_eq!(
        GitrsObject::find(&repo, "ffff", None),
        Err(ObjectError::NotFound)
    );
}

#[test]
fn find_by_a_prefix_that_matches_two_is_ambiguous_with_both() {
    let mut repo = filled();
    let other = "32f95c0d0000000000000000000000000000aaaa";
    assert!(repo.store(
        &path(&["objects", &other[..2], &other[2..]]),
        b"anything".to_vec()
    ));
    match GitrsObject::find(&repo, "32f95c0d", None) {
        Err(ObjectError::Ambiguous(mut found)) => {
            found.sort();
            assert_eq!(found, vec![other.to_string(), HI.to_string()]);
        }
        _ => panic!("two objects begin with the name"),
    }
    assert_eq!(GitrsObject::find(&repo, "32f95c0d1", None), Ok(HI.to_string()));
}

#[test]
fn find_head() {
    let mut repo = filled();
    assert_eq!(
        GitrsObject::find(&repo, "HEAD", None),
        Err(ObjectError::NotFound)
    );
    assert_eq!(Ref::create_at(&mut repo, COMMIT, &["refs", "heads", "master"]), Ok(()));
    assert_eq!(GitrsObject::find(&repo, "HEAD", None), Ok(COMMIT.to_string()));
}

#[test]
fn find_by_the_name_of_a_tag_or_a_branch() {
    let mut repo = filled();
    assert_eq!(Ref::create_at(&mut repo, TAG, &["refs", "tags", "v1"]), Ok(()));
    assert_eq!(Ref::create_at(&mut repo, COMMIT, &["refs", "heads", "main"]), Ok(()));
    assert_eq!(
        Ref::create_at(&mut repo, TREE, &["refs", "remotes", "origin", "main"]),
        Ok(())
    );
    assert_eq!(GitrsObject::find(&repo, "v1", None), Ok(TAG.to_string()));
    assert_eq!(GitrsObject::find(&repo, "main", None), Ok(COMMIT.to_string()));
    assert_eq!(
        GitrsObject::find(&repo, "origin/main", None),
        Ok(TREE.to_string())
    );
    assert_eq!(
        GitrsObject::find(&repo, "nothing", None),
        Err(ObjectError::NotFound)
    );
    assert_eq!(GitrsObject::find(&repo, "", None), Err(ObjectError::NotFound));
}

#[test]
fn find_by_a_name_that_is_a_tag_and_a_branch_is_ambiguous() {
    let mut repo = filled();
    assert_eq!(Ref::create_at(&mut repo, TAG, &["refs", "tags", "both"]), Ok(()));
    assert_eq!(Ref::create_at(&mut repo, COMMIT, &["refs", "heads", "both"]), Ok(()));
    assert_eq!(
        GitrsObject::find(&repo, "both", None),
        Err(ObjectError::Ambiguous(vec![
            TAG.to_string(),
            COMMIT.to_string()
        ]))
    );
    assert_eq!(Ref::create_at(&mut repo, COMMIT, &["refs", "tags", "twice"]), Ok(()));
    assert_eq!(Ref::create_at(&mut repo, COMMIT, &["refs", "heads", "twice"]), Ok(()));
    assert_eq!(
        GitrsObject::find(&repo, "twice", None),
        Err(ObjectError::Ambiguous(vec![
            COMMIT.to_string(),
            COMMIT.to_string()
        ]))
    );
}

#[test]
fn find_with_the_kind_of_the_object() {
    let repo = filled();
    assert_eq!(
        GitrsObject::find(&repo, COMMIT, options(ObjectType::Commit, false)),
        Ok(COMMIT.to_string())
    );
    assert_eq!(
        GitrsObject::find(&repo, HI, options(ObjectType::Blob, true)),
        Ok(HI.to_string())
    );
}

#[test]
fn find_with_another_kind_fails_without_following() {
    let repo = filled();
    assert_eq!(
        GitrsObject::find(&repo, COMMIT, options(ObjectType::Tree, false)),
        Err(ObjectError::KindMismatch)
    );
    assert_eq!(
        GitrsObject::find(&repo, TAG, options(ObjectType::Commit, false)),
        Err(ObjectError::KindMismatch)
    );
}

#[test]
fn find_follows_a_commit_to_its_tree() {
    let repo = filled();
    assert_eq!(
        GitrsObject::find(&repo, COMMIT, options(ObjectType::Tree, true)),
        Ok(TREE.to_string())
    );
}

#[test]
fn find_follows_a_tag_to_what_it_names() {
    let repo = filled();
    assert_eq!(
        GitrsObject::find(&repo, TAG, options(ObjectType::Commit, true)),
        Ok(COMMIT.to_string())
    );
    assert_eq!(
        GitrsObject::find(&repo, TAG, options(ObjectType::Tree, true)),
        Ok(TREE.to_string())
    );
}

#[test]
fn find_fails_where_nothing_leads_on() {
    let repo = filled();
    assert_eq!(
        GitrsObject::find(&repo, COMMIT, options(ObjectType::Blob, true)),
        Err(ObjectError::KindMismatch)
    );
    assert_eq!(
        GitrsObject::find(&repo, TREE, options(ObjectType::Blob, true)),
        Err(ObjectError::KindMismatch)
    );
    assert_eq!(
        GitrsObject::find(&repo, HI, options(ObjectType::Tree, true)),
        Err(ObjectError::KindMismatch)
    );
}

#[test]
fn find_with_a_kind_reads_the_object() {
    let mut repo = Repository::init("/work");
    let tag_bytes = format!("object {}\ntag v1\n", COMMIT).into_bytes();
    let tag =
        GitrsObject::deserialize_and_write(&mut repo, &tag_bytes, ObjectType::Tag).unwrap();
    assert_eq!(
        GitrsObject::find(&repo, &tag, options(ObjectType::Commit, true)),
        Err(ObjectError::NotFound)
    );
}
