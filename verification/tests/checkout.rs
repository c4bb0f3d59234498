//! Checking out a tree.

use gitrs::object::checkout::FsAction;
use gitrs::object::error::ObjectError;
use gitrs::object::tree::{Leaf, Tree};
use gitrs::object::{GitrsObject, Object, ObjectType};
use gitrs::repository::Repository;

const HI: &str = "32f95c0d1244a78b2be1bab8de17906fabb2c4a8";
const COMMIT_BYTES: &[u8] =
    b"tree 2f94a8bb02683a65f8f3d70ce28c3725463c8759\nauthor A <a@b.c> 1 +0000\n\nfirst\n";

fn leaf(mode: &str, path: &str, hash: &str) -> Leaf {
    Leaf {
        file_mode: mode.to_string(),
        path: path.to_string(),
        hash: hash.to_string(),
    }
}

fn write_tree(repo: &mut Repository, records: Vec<Leaf>) -> String {
    let mut object = GitrsObject::TreeObject(Tree { records });
    object.write(repo).unwrap()
}

#[test]
fn checkout_of_one_blob_writes_one_file() {
    let mut repo = Repository::init("/work");
    let blob = GitrsObject::deserialize_and_write(&mut repo, b"hi", ObjectType::Blob).unwrap();
    let tree = Tree {
        records: vec![leaf("100644", "hello.txt", &blob)],
    };
    let mut actions = Vec::new();
    assert_eq!(tree.checkout(&repo, "/dest", &mut actions), Ok(()));
    assert_eq!(
        actions,
        vec![FsAction::WriteFile(
            "/dest/hello.txt".to_string(),
            b"hi".to_vec()
        )]
    );
}

#[test]
fn checkout_goes_into_the_trees_of_a_tree() {
    let mut repo = Repository::init("/work");
    let hi = GitrsObject::deserialize_and_write(&mut repo, b"hi", ObjectType::Blob).unwrap();
    let ho = GitrsObject::deserialize_and_write(&mut repo, b"ho", ObjectType::Blob).unwrap();
    let inner = write_tree(&mut repo, vec![leaf("100644", "ho.txt", &ho)]);
    let middle = write_tree(
        &mut repo,
        vec![leaf("040000", "deep", &inner), leaf("100644", "hi.txt", &hi)],
    );
    let top = write_tree(
        &mut repo,
        vec![leaf("100644", "a.txt", &hi), leaf("040000", "sub", &middle)],
    );
    let tree = match GitrsObject::read(&repo, &top).unwrap() {
        GitrsObject::TreeObject(tree) => tree,
        _ => panic!("a tree was written"),
    };
    let mut actions = vec![FsAction::CreateDir("/before".to_string())];
    assert_eq!(tree.checkout(&repo, "out", &mut actions), Ok(()));
    assert_eq!(
        actions,
        vec![
            FsAction::CreateDir("/before".to_string()),
            FsAction::WriteFile("out/a.txt".to_string(), b"hi".to_vec()),
            FsAction::CreateDir("out/sub".to_string()),
            FsAction::CreateDir("out/sub/deep".to_string()),
            FsAction::WriteFile("out/sub/deep/ho.txt".to_string(), b"ho".to_vec()),
            FsAction::WriteFile("out/sub/hi.txt".to_string(), b"hi".to_vec()),
        ]
    );
}

#[test]
fn checkout_of_an_empty_tree_does_nothing() {
    let repo = Repository::init("/work");
    let mut actions = Vec::new();
    assert_eq!(
        Tree { records: vec![] }.checkout(&repo, "/dest", &mut actions),
        Ok(())
    );
    assert!(actions.is_empty());
}

#[test]
fn checkout_stops_at_an_object_that_is_missing() {
    let mut repo = Repository::init("/work");
    let blob = GitrsObject::deserialize_and_write(&mut repo, b"hi", ObjectType::Blob).unwrap();
    let tree = Tree {
        records: vec![
            leaf("100644", "first", &blob),
            leaf("100644", "gone", "e69de29bb2d1d6434b8b29ae775ad8c2e48c5391"),
            leaf("100644", "later", &blob),
        ],
    };
    let mut actions = Vec::new();
    assert_eq!(
        tree.checkout(&repo, "/dest", &mut actions),
        Err(ObjectError::NotFound)
    );
    assert_eq!(
        actions,
        vec![FsAction::WriteFile("/dest/first".to_string(), b"hi".to_vec())]
    );
}

#[test]
fn checkout_of_a_commit_in_a_tree_violates_the_invariant() {
    let mut repo = Repository::init("/work");
    let commit =
        GitrsObject::deserialize_and_write(&mut repo, COMMIT_BYTES, ObjectType::Commit)
            .unwrap();
    let tree = Tree {
        records: vec![leaf("160000", "module", &commit)],
    };
    let mut actions = Vec::new();
    assert_eq!(
        tree.checkout(&repo, "/dest", &mut actions),
        Err(ObjectError::InvariantViolation {
            digest: commit,
            expected: Some(ObjectType::Commit),
            actual: ObjectType::Commit,
        })
    );
    assert!(actions.is_empty());
}

#[test]
fn checkout_of_a_tag_in_a_tree_names_the_kinds() {
    let mut repo = Repository::init("/work");
    let tag = GitrsObject::deserialize_and_write(
        &mut repo,
        b"object 32f95c0d1244a78b2be1bab8de17906fabb2c4a8\ntag v1\n",
        ObjectType::Tag,
    )
    .unwrap();
    let tree = Tree {
        records: vec![leaf("100644", "file", &tag), leaf("weird", "other", &tag)],
    };
    let mut actions = Vec::new();
    assert_eq!(
        tree.checkout(&repo, "/dest", &mut actions),
        Err(ObjectError::InvariantViolation {
            digest: tag.clone(),
            expected: Some(ObjectType::Blob),
            actual: ObjectType::Tag,
        })
    );
    let unknown = Tree {
        records: vec![leaf("weird", "other", &tag)],
    };
    assert_eq!(
        unknown.checkout(&repo, "/dest", &mut actions),
        Err(ObjectError::InvariantViolation {
            digest: tag,
            expected: None,
            actual: ObjectType::Tag,
        })
    );
}

#[test]
fn checkout_of_a_tree_that_holds_itself_detects_the_cycle() {
    let mut repo = Repository::new("/work");
    let mut tree = Tree {
        records: vec![leaf("040000", "again", HI)],
    };
    let payload = tree.serialize();
    let mut framed = format!("tree {}\0", payload.len()).into_bytes();
    framed.extend_from_slice(&payload);
    assert!(repo
        .upsert_file(&["objects", &HI[..2], &HI[2..]], &framed)
        .is_some());
    let mut actions = Vec::new();
    assert_eq!(
        tree.checkout(&repo, "d", &mut actions),
        Err(ObjectError::CycleDetected)
    );
    assert_eq!(
        actions,
        vec![
            FsAction::CreateDir("d/again".to_string()),
            FsAction::CreateDir("d/again/again".to_string()),
        ]
    );
}
