//! References.

use gitrs::object::error::ObjectError;
use gitrs::refs::{join_bytes, read_ref, split_bytes, Ref};
use gitrs::repository::Repository;

const D: &str = "32f95c0d1244a78b2be1bab8de17906fabb2c4a8";
const E: &str = "e69de29bb2d1d6434b8b29ae775ad8c2e48c5391";

fn path(segments: &[&str]) -> Vec<Vec<u8>> {
    segments.iter().map(|s| s.as_bytes().to_vec()).collect()
}

#[test]
fn resolve_follows_head_to_a_branch() {
    let mut repo = Repository::new("/work");
    assert!(repo.store(&path(&["HEAD"]), b"ref: refs/heads/main\n".to_vec()));
    assert!(repo.store(
        &path(&["refs", "heads", "main"]),
        format!("{}\n", D).into_bytes()
    ));
    assert_eq!(Ref::resolve(&repo, &["HEAD"]), Ok(D.to_string()));
    assert_eq!(
        Ref::resolve(&repo, &["refs", "heads", "main"]),
        Ok(D.to_string())
    );
}

#[test]
fn resolve_strips_one_line_feed_only() {
    let mut repo = Repository::new("/work");
    assert!(repo.store(&path(&["a"]), b"abc\n\n".to_vec()));
    assert!(repo.store(&path(&["b"]), b"abc".to_vec()));
    assert_eq!(Ref::resolve(&repo, &["a"]), Ok("abc\n".to_string()));
    assert_eq!(Ref::resolve(&repo, &["b"]), Ok("abc".to_string()));
}

#[test]
fn resolve_of_a_missing_reference_is_not_found() {
    let repo = Repository::init("/work");
    assert_eq!(
        Ref::resolve(&repo, &["refs", "heads", "none"]),
        Err(ObjectError::NotFound)
    );
    assert_eq!(Ref::resolve(&repo, &["HEAD"]), Err(ObjectError::NotFound));
}

#[test]
fn resolve_of_a_chain_that_turns_back_detects_the_cycle() {
    let mut repo = Repository::new("/work");
    assert!(repo.store(&path(&["a"]), b"ref: b\n".to_vec()));
    assert!(repo.store(&path(&["b"]), b"ref: a\n".to_vec()));
    assert_eq!(Ref::resolve(&repo, &["a"]), Err(ObjectError::CycleDetected));
    assert!(repo.store(&path(&["self"]), b"ref: self".to_vec()));
    assert_eq!(Ref::resolve(&repo, &["self"]), Err(ObjectError::CycleDetected));
}

#[test]
fn resolve_follows_a_chain_through_every_file() {
    let mut repo = Repository::new("/work");
    assert!(repo.store(&path(&["a"]), b"ref: b\n".to_vec()));
    assert!(repo.store(&path(&["b"]), b"ref: c\n".to_vec()));
    assert!(repo.store(&path(&["c"]), format!("{}\n", E).into_bytes()));
    assert_eq!(Ref::resolve(&repo, &["a"]), Ok(E.to_string()));
}

#[test]
fn resolve_of_bytes_that_are_not_utf8_is_malformed() {
    let mut repo = Repository::new("/work");
    assert!(repo.store(&path(&["bad"]), vec![0xff, 0xfe, b'\n']));
    assert_eq!(Ref::resolve(&repo, &["bad"]), Err(ObjectError::Malformed));
    assert!(repo.store(&path(&["marker"]), b"ref:".to_vec()));
    assert_eq!(Ref::resolve(&repo, &["marker"]), Err(ObjectError::Malformed));
}

#[test]
fn read_ref_tells_a_digest_from_a_link() {
    assert_eq!(read_ref(b"abc\n"), Ok(Ok("abc".to_string())));
    assert_eq!(
        read_ref(b"ref: refs/heads/main\n"),
        Ok(Err(path(&["refs", "heads", "main"])))
    );
    assert_eq!(read_ref(b"ref:xrefs/tags"), Ok(Err(path(&["refs", "tags"]))));
    assert_eq!(read_ref(b"ref: "), Ok(Err(path(&[""]))));
    assert_eq!(read_ref(b""), Ok(Ok(String::new())));
}

#[test]
fn split_and_join() {
    assert_eq!(split_bytes(b"a/b/c", b'/'), path(&["a", "b", "c"]));
    assert_eq!(split_bytes(b"", b'/'), path(&[""]));
    assert_eq!(split_bytes(b"/a//", b'/'), path(&["", "a", "", ""]));
    assert_eq!(join_bytes(&path(&["a", "b", "c"])), b"a/b/c".to_vec());
    assert_eq!(join_bytes(&path(&["a"])), b"a".to_vec());
    assert_eq!(join_bytes(&path(&[])), Vec::<u8>::new());
}

#[test]
fn create_at_writes_the_digest_and_a_line_feed() {
    let mut repo = Repository::init("/work");
    assert_eq!(Ref::create_at(&mut repo, D, &["refs", "tags", "v1"]), Ok(()));
    assert_eq!(
        repo.read(&path(&["refs", "tags", "v1"])),
        Some(&format!("{}\n", D).into_bytes())
    );
    assert_eq!(Ref::create_at(&mut repo, E, &["refs", "tags", "v1"]), Ok(()));
    assert_eq!(Ref::resolve(&repo, &["refs", "tags", "v1"]), Ok(E.to_string()));
}

#[test]
fn create_at_makes_the_directories_above() {
    let mut repo = Repository::new("/work");
    assert!(!repo.is_dir(&path(&["refs"])));
    assert_eq!(
        Ref::create_at(&mut repo, D, &["refs", "heads", "topic", "one"]),
        Ok(())
    );
    assert!(repo.is_dir(&path(&["refs"])));
    assert!(repo.is_dir(&path(&["refs", "heads", "topic"])));
}

#[test]
fn create_at_fails_where_a_file_stands_above() {
    let mut repo = Repository::init("/work");
    assert_eq!(Ref::create_at(&mut repo, D, &["refs", "tags", "v1"]), Ok(()));
    assert_eq!(
        Ref::create_at(&mut repo, D, &["refs", "tags", "v1", "sub"]),
        Err(ObjectError::CannotCreate)
    );
    assert_eq!(Ref::create_at(&mut repo, D, &[]), Err(ObjectError::CannotCreate));
}

#[test]
fn list_at_walks_each_directory_by_the_names_of_its_entries() {
    let mut repo = Repository::init("/work");
    for (name, digest) in [
        (vec!["refs", "tags", "v2"], E),
        (vec!["refs", "heads", "main"], D),
        (vec!["refs", "heads", "a.txt"], D),
        (vec!["refs", "heads", "a", "z"], E),
        (vec!["refs", "tags", "v1"], D),
    ] {
        assert_eq!(Ref::create_at(&mut repo, digest, &name), Ok(()));
    }
    let map = Ref::list_at(&repo, &["refs"]).unwrap();
    let listed: Vec<(&str, &str)> = map.iter().map(|(k, v)| (k.as_str(), v.as_str())).collect();
    assert_eq!(
        listed,
        vec![
            ("heads/a/z", E),
            ("heads/a.txt", D),
            ("heads/main", D),
            ("tags/v1", D),
            ("tags/v2", E),
        ]
    );
}

#[test]
fn list_at_resolves_links() {
    let mut repo = Repository::init("/work");
    assert_eq!(Ref::create_at(&mut repo, D, &["refs", "heads", "main"]), Ok(()));
    assert!(repo.store(
        &path(&["refs", "heads", "alias"]),
        b"ref: refs/heads/main\n".to_vec()
    ));
    let map = Ref::list_at(&repo, &["refs", "heads"]).unwrap();
    assert_eq!(map.get("alias").map(|s| s.as_str()), Some(D));
    assert_eq!(map.get("main").map(|s| s.as_str()), Some(D));
    assert_eq!(map.len(), 2);
}

#[test]
fn list_at_of_an_empty_directory_is_empty() {
    let repo = Repository::init("/work");
    assert_eq!(Ref::list_at(&repo, &["refs"]).unwrap().len(), 0);
}

#[test]
fn list_at_of_a_missing_directory_is_not_found() {
    let repo = Repository::init("/work");
    assert_eq!(
        Ref::list_at(&repo, &["refs", "none"]).err(),
        Some(ObjectError::NotFound)
    );
}

#[test]
fn list_at_fails_with_the_first_reference_that_leads_nowhere() {
    let mut repo = Repository::init("/work");
    assert_eq!(Ref::create_at(&mut repo, D, &["refs", "heads", "z"]), Ok(()));
    assert!(repo.store(&path(&["refs", "heads", "dangling"]), b"ref: nowhere\n".to_vec()));
    assert_eq!(
        Ref::list_at(&repo, &["refs"]).err(),
        Some(ObjectError::NotFound)
    );
}
