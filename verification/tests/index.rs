//! The index and its file.

use gitrs::index::{Index, IndexEntry, WorkFile, INDEX_VERSION};
use gitrs::object::error::ObjectError;
use gitrs::object::GitrsObject;
use gitrs::repository::Repository;

const HI: &str = "32f95c0d1244a78b2be1bab8de17906fabb2c4a8";
const EMPTY: &str = "e69de29bb2d1d6434b8b29ae775ad8c2e48c5391";

fn path(segments: &[&str]) -> Vec<Vec<u8>> {
    segments.iter().map(|s| s.as_bytes().to_vec()).collect()
}

fn sample() -> IndexEntry {
    IndexEntry::new(0x0102030405060708, HI.to_string(), 258, "/work/a.txt".to_string())
}

fn sample_bytes() -> Vec<u8> {
    let mut bytes = vec![1, 2, 3, 4, 5, 6, 7, 8];
    bytes.extend_from_slice(&[
        0x32, 0xf9, 0x5c, 0x0d, 0x12, 0x44, 0xa7, 0x8b, 0x2b, 0xe1, 0xba, 0xb8, 0xde, 0x17,
        0x90, 0x6f, 0xab, 0xb2, 0xc4, 0xa8,
    ]);
    bytes.extend_from_slice(&[0, 0, 0, 0, 0, 0, 1, 2]);
    bytes.extend_from_slice(&[0, 11]);
    bytes.extend_from_slice(b"/work/a.txt");
    bytes
}

#[test]
fn entry_to_bytes_puts_high_bytes_first() {
    assert_eq!(sample().to_bytes(), sample_bytes());
}

#[test]
fn entry_take_from_reads_what_to_bytes_wrote() {
    let mut data = sample_bytes();
    data.extend_from_slice(b"rest");
    let (entry, next) = IndexEntry::take_from(&data, 0).unwrap();
    assert_eq!(entry, sample());
    assert_eq!(next, data.len() - 4);
}

#[test]
fn entry_take_from_fails_on_short_data() {
    let data = sample_bytes();
    assert!(IndexEntry::take_from(&data[..37], 0).is_none());
    assert!(IndexEntry::take_from(&data[..data.len() - 1], 0).is_none());
    assert!(IndexEntry::take_from(&data, data.len()).is_none());
    assert!(IndexEntry::take_from(&data[..38], 0).is_none());
}

#[test]
fn entry_take_from_fails_on_a_path_that_is_not_utf8() {
    let mut data = sample_bytes();
    let last = data.len() - 1;
    data[last] = 0xff;
    assert!(IndexEntry::take_from(&data, 0).is_none());
}

#[test]
fn entry_validity() {
    assert!(sample().is_valid());
    assert!(!IndexEntry::new(0, "abc".to_string(), 0, "p".to_string()).is_valid());
    assert!(!IndexEntry::new(0, "zz".repeat(20), 0, "p".to_string()).is_valid());
    assert!(!IndexEntry::new(0, HI.to_string(), 0, "x".repeat(65536)).is_valid());
    assert!(IndexEntry::new(0, HI.to_string(), 0, "x".repeat(65535)).is_valid());
}

#[test]
fn index_to_bytes_has_magic_version_and_count() {
    let index = Index {
        version: INDEX_VERSION,
        entries: vec![sample()],
    };
    let mut expected = b"DIRC".to_vec();
    expected.extend_from_slice(&[0, 0, 0, 2, 0, 0, 0, 1]);
    expected.extend_from_slice(&sample_bytes());
    assert_eq!(index.to_bytes(), expected);
    assert_eq!(
        Index::empty().to_bytes(),
        vec![b'D', b'I', b'R', b'C', 0, 0, 0, 2, 0, 0, 0, 0]
    );
}

#[test]
fn index_round_trip_keeps_every_entry() {
    let entries = vec![
        sample(),
        IndexEntry::new(u64::MAX, EMPTY.to_string(), u64::MAX, "/work/sp ace/\u{e9}".to_string()),
        IndexEntry::new(0, HI.to_string(), 0, String::new()),
    ];
    let index = Index {
        version: 0,
        entries: entries.clone(),
    };
    let back = Index::from_bytes(&index.to_bytes()).unwrap();
    assert_eq!(back.version, 2);
    assert_eq!(back.entries, entries);
}

#[test]
fn index_with_a_wrong_magic_is_rejected() {
    let mut bytes = Index::empty().to_bytes();
    bytes[0] = b'X';
    assert!(Index::from_bytes(&bytes).is_none());
    assert!(Index::from_bytes(b"").is_none());
    assert!(Index::from_bytes(b"DIRC\0\0\0\x02\0\0\0").is_none());
}

#[test]
fn index_of_another_version_is_rejected() {
    let mut bytes = Index {
        version: 2,
        entries: vec![sample()],
    }
    .to_bytes();
    bytes[7] = 3;
    assert!(Index::from_bytes(&bytes).is_none());
    bytes[7] = 2;
    bytes[4] = 1;
    assert!(Index::from_bytes(&bytes).is_none());
}

#[test]
fn index_with_fewer_entries_than_it_says_is_rejected() {
    let mut bytes = Index {
        version: 2,
        entries: vec![sample()],
    }
    .to_bytes();
    bytes[11] = 2;
    assert!(Index::from_bytes(&bytes).is_none());
}

#[test]
fn index_read_without_a_file_is_empty() {
    let repo = Repository::init("/work");
    let index = Index::read(&repo).unwrap();
    assert_eq!(index.version, 0);
    assert!(index.entries.is_empty());
}

#[test]
fn index_write_then_read() {
    let mut repo = Repository::init("/work");
    let index = Index {
        version: 2,
        entries: vec![sample()],
    };
    assert_eq!(index.write(&mut repo), Ok(()));
    assert_eq!(repo.read(&path(&["index"])), Some(&index.to_bytes()));
    let back = Index::read(&repo).unwrap();
    assert_eq!(back.entries, vec![sample()]);
}

#[test]
fn index_read_of_a_file_that_holds_no_index_is_none() {
    let mut repo = Repository::init("/work");
    assert!(repo.store(&path(&["index"]), b"not an index".to_vec()));
    assert!(Index::read(&repo).is_none());
}

#[test]
fn add_stages_files_and_writes_the_index() {
    let mut repo = Repository::init("/work");
    let mut index = Index::read(&repo).unwrap();
    let files = vec![
        WorkFile {
            path: "/work/hello.txt".to_string(),
            data: b"hi".to_vec(),
            mtime: 1700000000,
            size_in_bytes: 2,
        },
        WorkFile {
            path: "/work/sub/empty".to_string(),
            data: Vec::new(),
            mtime: 5,
            size_in_bytes: 0,
        },
    ];
    assert_eq!(index.add(&mut repo, &files), Ok(()));
    assert_eq!(
        index.entries,
        vec![
            IndexEntry::new(1700000000, HI.to_string(), 2, "/work/hello.txt".to_string()),
            IndexEntry::new(5, EMPTY.to_string(), 0, "/work/sub/empty".to_string()),
        ]
    );
    assert!(GitrsObject::read(&repo, HI).is_ok());
    assert!(GitrsObject::read(&repo, EMPTY).is_ok());
    assert_eq!(Index::read(&repo).unwrap().entries, index.entries);
}

#[test]
fn add_keeps_the_entries_that_were_staged_before() {
    let mut repo = Repository::init("/work");
    let mut index = Index {
        version: 2,
        entries: vec![sample()],
    };
    let files = vec![WorkFile {
        path: "/work/new.txt".to_string(),
        data: Vec::new(),
        mtime: 9,
        size_in_bytes: 0,
    }];
    assert_eq!(index.add(&mut repo, &files), Ok(()));
    assert_eq!(index.entries.len(), 2);
    assert_eq!(index.entries[0], sample());
    assert_eq!(index.entries[1].sha, EMPTY);
}

#[test]
fn add_puts_a_new_entry_in_the_place_of_the_entries_of_its_path() {
    let mut repo = Repository::init("/work");
    let mut index = Index {
        version: 2,
        entries: vec![
            IndexEntry::new(1, HI.to_string(), 2, "/work/a.txt".to_string()),
            IndexEntry::new(2, HI.to_string(), 2, "/work/b.txt".to_string()),
            IndexEntry::new(3, HI.to_string(), 2, "/work/a.txt".to_string()),
        ],
    };
    let files = vec![WorkFile {
        path: "/work/a.txt".to_string(),
        data: Vec::new(),
        mtime: 9,
        size_in_bytes: 0,
    }];
    assert_eq!(index.add(&mut repo, &files), Ok(()));
    assert_eq!(
        index.entries,
        vec![
            IndexEntry::new(2, HI.to_string(), 2, "/work/b.txt".to_string()),
            IndexEntry::new(9, EMPTY.to_string(), 0, "/work/a.txt".to_string()),
        ]
    );
    assert_eq!(Index::read(&repo).unwrap().entries, index.entries);
}

#[test]
fn add_stops_at_a_file_outside_the_working_tree() {
    let mut repo = Repository::init("/work");
    let mut index = Index::empty();
    let files = vec![
        WorkFile {
            path: "/work/in".to_string(),
            data: b"hi".to_vec(),
            mtime: 1,
            size_in_bytes: 2,
        },
        WorkFile {
            path: "/workshop/out".to_string(),
            data: Vec::new(),
            mtime: 1,
            size_in_bytes: 0,
        },
        WorkFile {
            path: "/work/later".to_string(),
            data: Vec::new(),
            mtime: 1,
            size_in_bytes: 0,
        },
    ];
    assert_eq!(
        index.add(&mut repo, &files),
        Err(ObjectError::OutsideWorktree)
    );
    assert_eq!(index.entries.len(), 1);
    assert!(GitrsObject::read(&repo, HI).is_ok());
    assert_eq!(GitrsObject::read(&repo, EMPTY).err(), Some(ObjectError::NotFound));
    assert!(repo.read(&path(&["index"])).is_none());
}

#[test]
fn index_default_is_empty() {
    let index = Index::default();
    assert_eq!(index.version, 0);
    assert!(index.entries.is_empty());
}
