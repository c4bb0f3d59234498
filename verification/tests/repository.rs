//! The image of the metadata directory.

use gitrs::repository::{
    clone_path, path_eq, path_starts_with, to_path, Repository, StoredFile,
};

fn path(segments: &[&str]) -> Vec<Vec<u8>> {
    segments.iter().map(|s| s.as_bytes().to_vec()).collect()
}

#[test]
fn new_image_has_the_metadata_directory_alone() {
    let repo = Repository::new("/work");
    assert_eq!(repo.worktree(), "/work");
    assert_eq!(repo.gitdir(), "/work/.gitrs");
    assert_eq!(repo.count_files(), 0);
    assert!(repo.is_dir(&[]));
    assert!(!repo.is_dir(&path(&["objects"])));
    assert_eq!(repo.dirs(), &vec![Vec::<Vec<u8>>::new()]);
}

#[test]
fn init_makes_the_layout_of_a_new_repository() {
    let repo = Repository::init("/work");
    for dir in [
        vec![],
        vec!["branches"],
        vec!["objects"],
        vec!["refs"],
        vec!["refs", "tags"],
        vec!["refs", "heads"],
    ] {
        assert!(repo.is_dir(&path(&dir)));
    }
    assert_eq!(repo.dirs().len(), 6);
    assert_eq!(
        repo.read(&path(&["description"])),
        Some(
            &b"Unamed repository; edit this file 'description' to name the repository".to_vec()
        )
    );
    assert_eq!(
        repo.read(&path(&["HEAD"])),
        Some(&b"ref: refs/heads/master".to_vec())
    );
    assert_eq!(repo.read(&path(&["config"])), Some(&Vec::new()));
    assert_eq!(repo.count_files(), 3);
}

#[test]
fn compute_repo_path_joins_the_segments() {
    let repo = Repository::new("/work");
    assert_eq!(repo.compute_repo_path(&[]), "/work/.gitrs");
    assert_eq!(
        repo.compute_repo_path(&["refs", "heads", "main"]),
        "/work/.gitrs/refs/heads/main"
    );
}

#[test]
fn path_to_a_file_that_exists() {
    let mut repo = Repository::init("/work");
    assert_eq!(
        repo.get_path_to_file_if_exists(&["HEAD"]),
        Some("/work/.gitrs/HEAD".to_string())
    );
    assert_eq!(repo.get_path_to_file_if_exists(&["index"]), None);
    assert_eq!(repo.get_path_to_file_if_exists(&["refs"]), None);
    assert_eq!(repo.get_path_to_file_if_exists(&[]), None);
    assert!(repo.store(&path(&["index"]), vec![1]));
    assert_eq!(
        repo.get_path_to_file_if_exists(&["index"]),
        Some("/work/.gitrs/index".to_string())
    );
}

#[test]
fn path_to_a_directory_that_exists() {
    let repo = Repository::init("/work");
    assert_eq!(
        repo.get_path_to_dir_if_exists(&["refs", "tags"]),
        Some("/work/.gitrs/refs/tags".to_string())
    );
    assert_eq!(
        repo.get_path_to_dir_if_exists(&[]),
        Some("/work/.gitrs".to_string())
    );
    assert_eq!(repo.get_path_to_dir_if_exists(&["refs", "remotes"]), None);
    assert_eq!(repo.get_path_to_dir_if_exists(&["HEAD"]), None);
}

#[test]
fn create_file_makes_an_empty_file_and_the_directories_above() {
    let mut repo = Repository::new("/work");
    assert_eq!(
        repo.create_file(&["a", "b", "c"]),
        Some("/work/.gitrs/a/b/c".to_string())
    );
    assert_eq!(repo.read(&path(&["a", "b", "c"])), Some(&Vec::new()));
    assert!(repo.is_dir(&path(&["a"])));
    assert!(repo.is_dir(&path(&["a", "b"])));
    assert!(!repo.is_dir(&path(&["a", "b", "c"])));
}

#[test]
fn create_file_empties_the_file_that_stands_there() {
    let mut repo = Repository::new("/work");
    assert!(repo.store(&path(&["f"]), vec![1, 2, 3]));
    assert_eq!(repo.create_file(&["f"]), Some("/work/.gitrs/f".to_string()));
    assert_eq!(repo.read(&path(&["f"])), Some(&Vec::new()));
    assert_eq!(repo.count_files(), 1);
}

#[test]
fn create_file_fails_at_a_directory_or_below_a_file() {
    let mut repo = Repository::init("/work");
    assert_eq!(repo.create_file(&["refs"]), None);
    assert_eq!(repo.create_file(&["HEAD", "below"]), None);
    assert_eq!(repo.create_file(&[]), None);
    assert_eq!(repo.count_files(), 3);
    assert_eq!(repo.dirs().len(), 6);
}

#[test]
fn upsert_file_stores_the_compressed_bytes() {
    let mut repo = Repository::new("/work");
    let data = vec![7u8; 1000];
    assert_eq!(
        repo.upsert_file(&["objects", "ab", "cd"], &data),
        Some("/work/.gitrs/objects/ab/cd".to_string())
    );
    let stored = repo.read(&path(&["objects", "ab", "cd"])).unwrap();
    assert!(stored.len() < 100);
    assert_eq!(stored[0], 0x78);
}

#[test]
fn store_replaces_the_contents_of_a_file() {
    let mut repo = Repository::new("/work");
    assert!(repo.store(&path(&["f"]), vec![1]));
    assert!(repo.store(&path(&["g"]), vec![2]));
    assert!(repo.store(&path(&["f"]), vec![3]));
    assert_eq!(repo.read(&path(&["f"])), Some(&vec![3]));
    assert_eq!(repo.read(&path(&["g"])), Some(&vec![2]));
    assert_eq!(repo.count_files(), 2);
    assert_eq!(
        repo.files(),
        &vec![
            StoredFile {
                path: path(&["f"]),
                data: vec![3]
            },
            StoredFile {
                path: path(&["g"]),
                data: vec![2]
            },
        ]
    );
}

#[test]
fn make_dirs_fails_where_a_file_stands() {
    let mut repo = Repository::init("/work");
    assert!(!repo.make_dirs(&path(&["HEAD"])));
    assert!(!repo.make_dirs(&path(&["HEAD", "x"])));
    assert!(repo.make_dirs(&path(&["refs", "remotes", "origin"])));
    assert!(repo.is_dir(&path(&["refs", "remotes"])));
    assert!(repo.make_dirs(&path(&["refs"])));
    assert_eq!(repo.dirs().len(), 8);
}

#[test]
fn contains_paths_at_and_below_the_working_tree() {
    let repo = Repository::new("/work");
    assert!(repo.contains("/work"));
    assert!(repo.contains("/work/a/b"));
    assert!(!repo.contains("/workshop"));
    assert!(!repo.contains("/wor"));
    assert!(!repo.contains("/other/work"));
    assert!(Repository::new("/").contains("/anything"));
}

#[test]
fn list_below_gives_the_files_under_a_directory() {
    let mut repo = Repository::init("/work");
    assert!(repo.store(&path(&["refs", "heads", "main"]), vec![]));
    assert!(repo.store(&path(&["refs", "tags", "v", "1"]), vec![]));
    let mut found = repo.list_below(&path(&["refs"]));
    found.sort();
    assert_eq!(found, vec![path(&["heads", "main"]), path(&["tags", "v", "1"])]);
    assert_eq!(repo.list_below(&path(&["refs", "heads", "main"])).len(), 0);
    assert_eq!(repo.list_below(&[]).len(), 5);
}

#[test]
fn paths_compare_segment_by_segment() {
    assert!(path_eq(&path(&["a", "b"]), &path(&["a", "b"])));
    assert!(!path_eq(&path(&["a", "b"]), &path(&["a/b"])));
    assert!(!path_eq(&path(&["a"]), &path(&["a", ""])));
    assert!(path_starts_with(&path(&["a", "b"]), &path(&["a"])));
    assert!(path_starts_with(&path(&["a", "b"]), &[]));
    assert!(!path_starts_with(&path(&["ab"]), &path(&["a"])));
    assert_eq!(clone_path(&path(&["x", "y"])), path(&["x", "y"]));
    assert_eq!(to_path(&["x", "\u{e9}"]), vec![b"x".to_vec(), vec![0xc3, 0xa9]]);
}
