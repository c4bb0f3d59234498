//! Ignore rules.

use gitrs::ignore::{IgnoreRule, IgnoreRules, MatchKind};
use gitrs::paths::{file_name, parent, upward};
use gitrs::index::{Index, IndexEntry, WorkFile};
use gitrs::object::{GitrsObject, ObjectType};
use gitrs::repository::Repository;

fn rule(pat: &str, kind: MatchKind) -> IgnoreRule {
    IgnoreRule::from((pat, kind))
}

#[test]
fn parse_a_pattern_that_leaves_out() {
    assert_eq!(IgnoreRule::parse("*.log"), Some(rule("*.log", MatchKind::Exclude)));
}

#[test]
fn parse_a_pattern_that_keeps() {
    assert_eq!(
        IgnoreRule::parse("!keep.log"),
        Some(rule("keep.log", MatchKind::Include))
    );
}

#[test]
fn parse_takes_the_escape_away() {
    assert_eq!(
        IgnoreRule::parse("\\!literal"),
        Some(rule("!literal", MatchKind::Exclude))
    );
    assert_eq!(
        IgnoreRule::parse("\\#literal"),
        Some(rule("#literal", MatchKind::Exclude))
    );
}

#[test]
fn parse_skips_blank_lines_and_comments() {
    assert_eq!(IgnoreRule::parse(""), None);
    assert_eq!(IgnoreRule::parse("   \t "), None);
    assert_eq!(IgnoreRule::parse("# a comment"), None);
    assert_eq!(IgnoreRule::parse("   # a comment"), None);
}

#[test]
fn parse_takes_the_white_space_around_a_line_away() {
    assert_eq!(
        IgnoreRule::parse("  target/ \r\n"),
        Some(rule("target/", MatchKind::Exclude))
    );
    assert_eq!(
        IgnoreRule::parse("\t! spaced "),
        Some(rule(" spaced", MatchKind::Include))
    );
}

#[test]
fn parse_trimmed_takes_the_line_as_it_is() {
    assert_eq!(
        IgnoreRule::parse_trimmed(" x"),
        Some(rule(" x", MatchKind::Exclude))
    );
    assert_eq!(
        IgnoreRule::parse_trimmed("!"),
        Some(rule("", MatchKind::Include))
    );
    assert_eq!(
        IgnoreRule::parse_trimmed("\u{e9}t\u{e9}"),
        Some(rule("\u{e9}t\u{e9}", MatchKind::Exclude))
    );
}

#[test]
fn parse_lines_keeps_the_order_of_the_rules() {
    assert_eq!(
        IgnoreRule::parse_lines(&["# build", "target", "", "!target/keep", "*.o"]),
        vec![
            rule("target", MatchKind::Exclude),
            rule("target/keep", MatchKind::Include),
            rule("*.o", MatchKind::Exclude),
        ]
    );
}

#[test]
fn parent_and_name_of_a_path() {
    assert_eq!(parent(b"a/b/c.log"), Some(b"a/b".to_vec()));
    assert_eq!(parent(b"a"), Some(Vec::new()));
    assert_eq!(parent(b"/a"), Some(b"/".to_vec()));
    assert_eq!(parent(b"/"), None);
    assert_eq!(parent(b""), None);
    assert_eq!(file_name(b"a/b/c.log"), Some(b"c.log".to_vec()));
    assert_eq!(file_name(b"c.log"), Some(b"c.log".to_vec()));
    assert_eq!(file_name(b"a/"), None);
    assert_eq!(file_name(b""), None);
}

#[test]
fn check_gives_the_word_of_the_first_rule_that_matches() {
    let rules = IgnoreRules::new(vec![(
        "a/b".to_string(),
        vec![
            rule("*.log", MatchKind::Exclude),
            rule("keep.log", MatchKind::Include),
        ],
    )]);
    assert_eq!(rules.check("a/b/x.log"), Some(MatchKind::Exclude));
    assert_eq!(rules.check("a/b/keep.log"), Some(MatchKind::Exclude));
    assert_eq!(rules.check("a/b/x.txt"), None);
}

#[test]
fn check_matches_a_pattern_against_the_whole_path() {
    let rules = IgnoreRules::new(vec![(
        "a/b".to_string(),
        vec![
            rule("keep.log", MatchKind::Include),
            rule("*keep.log", MatchKind::Include),
            rule("*.log", MatchKind::Exclude),
        ],
    )]);
    assert_eq!(rules.check("a/b/keep.log"), Some(MatchKind::Include));
    assert_eq!(rules.check("a/b/x.log"), Some(MatchKind::Exclude));
}

#[test]
fn check_falls_back_to_the_rules_of_a_directory_above() {
    let rules = IgnoreRules::new(vec![(
        "a/b".to_string(),
        vec![rule("*.log", MatchKind::Exclude)],
    )]);
    assert_eq!(rules.check("a/b/c/deep.log"), Some(MatchKind::Exclude));
    assert_eq!(rules.check("a/b/c/d/e/deep.log"), Some(MatchKind::Exclude));
    assert_eq!(rules.check("a/other.log"), None);
    assert_eq!(rules.check("other.log"), None);
}

#[test]
fn check_takes_the_nearest_directory_with_a_rule_that_matches() {
    let rules = IgnoreRules::new(vec![
        ("a".to_string(), vec![rule("*.log", MatchKind::Exclude)]),
        (
            "a/b".to_string(),
            vec![
                rule("*.tmp", MatchKind::Exclude),
                rule("*.log", MatchKind::Include),
            ],
        ),
    ]);
    assert_eq!(rules.check("a/b/x.log"), Some(MatchKind::Include));
    assert_eq!(rules.check("a/x.log"), Some(MatchKind::Exclude));
    let nearest_without_match = IgnoreRules::new(vec![
        ("a".to_string(), vec![rule("*.log", MatchKind::Exclude)]),
        ("a/b".to_string(), vec![rule("*.tmp", MatchKind::Include)]),
    ]);
    assert_eq!(
        nearest_without_match.check("a/b/x.log"),
        Some(MatchKind::Exclude)
    );
}

#[test]
fn check_takes_the_later_of_two_lists_for_one_directory() {
    let rules = IgnoreRules::new(vec![
        ("a".to_string(), vec![rule("*", MatchKind::Exclude)]),
        ("a".to_string(), vec![rule("*", MatchKind::Include)]),
    ]);
    assert_eq!(rules.check("a/x"), Some(MatchKind::Include));
}

#[test]
fn check_passes_over_a_pattern_that_is_none() {
    let rules = IgnoreRules::new(vec![(
        "a".to_string(),
        vec![
            rule("a/***", MatchKind::Include),
            rule("[", MatchKind::Include),
            rule("a/?", MatchKind::Exclude),
        ],
    )]);
    assert_eq!(rules.check("a/x"), Some(MatchKind::Exclude));
}

#[test]
fn check_of_a_path_without_a_directory() {
    let rules = IgnoreRules::new(vec![(String::new(), vec![rule("*.log", MatchKind::Exclude)])]);
    assert_eq!(rules.check("x.log"), Some(MatchKind::Exclude));
    assert_eq!(rules.check(""), None);
    assert_eq!(rules.check("/"), None);
}

#[test]
fn read_loads_the_rules_of_each_tracked_file_of_rules() {
    let mut repo = Repository::init("/work");
    let mut index = Index::empty();
    let text = b"# logs\n*.log\r\n\n!*keep.log\n";
    let files = vec![
        WorkFile {
            path: "/work/a/b/.gitrsignore".to_string(),
            data: text.to_vec(),
            mtime: 1,
            size_in_bytes: text.len() as u64,
        },
        WorkFile {
            path: "/work/a/b/notes.txt".to_string(),
            data: b"*.txt\n".to_vec(),
            mtime: 1,
            size_in_bytes: 6,
        },
    ];
    assert_eq!(index.add(&mut repo, &files), Ok(()));
    let rules = IgnoreRules::read(&repo).unwrap();
    assert_eq!(rules.check("/work/a/b/x.log"), Some(MatchKind::Exclude));
    assert_eq!(rules.check("/work/a/b/c/x.log"), Some(MatchKind::Exclude));
    assert_eq!(rules.check("/work/a/b/notes.txt"), None);
    assert_eq!(rules.check("/work/a/x.log"), None);
}

#[test]
fn read_without_an_index_has_no_rules() {
    let repo = Repository::init("/work");
    let rules = IgnoreRules::read(&repo).unwrap();
    assert_eq!(rules.check("/work/a/x.log"), None);
}

#[test]
fn read_passes_over_entries_whose_object_is_missing_or_no_text() {
    let mut repo = Repository::init("/work");
    let binary = GitrsObject::deserialize_and_write(&mut repo, &[0xff, 0xfe], ObjectType::Blob)
        .unwrap();
    let index = Index {
        version: 2,
        entries: vec![
            IndexEntry::new(
                1,
                "0000000000000000000000000000000000000000".to_string(),
                0,
                "/work/.gitrsignore".to_string(),
            ),
            IndexEntry::new(1, binary, 2, "/work/sub/.gitrsignore".to_string()),
        ],
    };
    assert_eq!(index.write(&mut repo), Ok(()));
    let rules = IgnoreRules::read(&repo).unwrap();
    assert_eq!(rules.check("/work/sub/x"), None);
}

#[test]
fn read_fails_where_a_file_of_rules_is_no_blob() {
    let mut repo = Repository::init("/work");
    let tree = GitrsObject::deserialize_and_write(&mut repo, b"", ObjectType::Tree).unwrap();
    let index = Index {
        version: 2,
        entries: vec![IndexEntry::new(1, tree, 0, "/work/.gitrsignore".to_string())],
    };
    assert_eq!(index.write(&mut repo), Ok(()));
    assert!(IgnoreRules::read(&repo).is_none());
}

#[test]
fn read_fails_where_the_index_cannot_be_read() {
    let mut repo = Repository::init("/work");
    assert!(repo.store(&[b"index".to_vec()], b"DIRC".to_vec()));
    assert!(IgnoreRules::read(&repo).is_none());
}

#[test]
fn first_verdict_takes_the_first_rule_that_matched() {
    let rules = vec![
        rule("a", MatchKind::Exclude),
        rule("b", MatchKind::Include),
        rule("c", MatchKind::Exclude),
    ];
    assert_eq!(
        IgnoreRules::first_verdict(&rules, &vec![Some(false), Some(true), Some(true)]),
        Some(MatchKind::Include)
    );
    assert_eq!(
        IgnoreRules::first_verdict(&rules, &vec![None, Some(false), Some(true)]),
        Some(MatchKind::Exclude)
    );
    assert_eq!(
        IgnoreRules::first_verdict(&rules, &vec![None, Some(false), None]),
        None
    );
    assert_eq!(IgnoreRules::first_verdict(&rules, &vec![Some(true)]), Some(MatchKind::Exclude));
    assert_eq!(IgnoreRules::first_verdict(&rules, &Vec::new()), None);
}

#[test]
fn upward_lists_the_directories_above_a_path() {
    assert_eq!(
        upward("/home/me/work"),
        vec![
            "/home/me/work".to_string(),
            "/home/me".to_string(),
            "/home".to_string(),
            "/".to_string(),
        ]
    );
    assert_eq!(upward("a/b"), vec!["a/b".to_string(), "a".to_string(), String::new()]);
    assert_eq!(upward(""), vec![String::new()]);
}
