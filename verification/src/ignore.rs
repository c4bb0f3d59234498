//! Ignore rules: patterns, read from the tracked files named `.gitrsignore`, that say which
//! paths are left out and which are kept.
//!
//! The rules of a file hold for the directory of the file and for all that lies under it.
//! A path is judged by the rules of the nearest directory above it that has a rule which
//! matches the path.

use vstd::prelude::*;
use vstd::string::StrSliceExecFns;
use crate::bytes::{bytes_eq, subvec, NEWLINE};
use crate::paths::{file_name, file_name_of, lemma_parent_shorter, parent, parent_of};
use crate::index::{entry_views, EntryView, Index};

use crate::object::{read_spec, GitrsObject, ObjectView};
use crate::refs::{split, split_bytes};
use crate::repository::{path_view, Repository, RepositoryView};
use crate::text::{str_eq, string_from_utf8, text_of, utf8};

verus! {

/// What a rule says of the paths that its pattern matches.
#[derive(Debug, Clone, Copy, PartialEq, Eq, Structural)]
pub enum MatchKind {
    /// The path is kept.
    Include,
    /// The path is left out.
    Exclude,
}

/// What a rule holds.
pub struct RuleView {
    pub pat: Seq<char>,
    pub kind: MatchKind,
}

/// One rule: a pattern in the syntax of the shell, and what it says of the paths that
/// match.
#[derive(Debug, Clone, PartialEq, Eq)]
pub struct IgnoreRule {
    pub pat: String,
    pub kind: MatchKind,
}

/// The rules of a repository.
pub struct IgnoreRules {
    /// The rules from outside the repository. Nothing fills them yet.
    absolute: Vec<IgnoreRule>,
    /// The rules of each directory that has a file of rules, by the path of the
    /// directory. Of two lists for one directory the later one counts.
    relative: Vec<(String, Vec<IgnoreRule>)>,
}

/// What the rules of a repository hold.
pub struct RulesView {
    pub absolute: Seq<RuleView>,
    pub relative: Seq<(Seq<char>, Seq<RuleView>)>,
}

impl View for IgnoreRule {
    type V = RuleView;

    open spec fn view(&self) -> RuleView {
        RuleView { pat: self.pat@, kind: self.kind }
    }
}

/// The function that gives each rule what it holds.
pub open spec fn rule_view() -> spec_fn(IgnoreRule) -> RuleView {
    |r: IgnoreRule| r@
}

/// What a list of rules holds.
pub open spec fn rule_views(rules: Seq<IgnoreRule>) -> Seq<RuleView> {
    rules.map_values(rule_view())
}

/// The function that gives each directory with its rules what it holds.
pub open spec fn table_entry_view() -> spec_fn((String, Vec<IgnoreRule>)) -> (Seq<char>, Seq<RuleView>) {
    |e: (String, Vec<IgnoreRule>)| (e.0@, rule_views(e.1@))
}

/// What a table of rules by directory holds.
pub open spec fn table_view(table: Seq<(String, Vec<IgnoreRule>)>) -> Seq<(Seq<char>, Seq<RuleView>)> {
    table.map_values(table_entry_view())
}

/// What `str::trim` of std makes of a text: the text without the white space at its
/// beginning and at its end.
pub uninterp spec fn trimmed(text: Seq<char>) -> Seq<char>;

/// Whether a pattern of the crate glob matches a path, on the system that the library is
/// built for; `None` where the pattern is none that the crate accepts.
pub uninterp spec fn glob_result(pattern: Seq<char>, path: Seq<char>) -> Option<bool>;

/// `str::trim` of std. Trusted: the result depends on the text alone.
#[verifier::external_body]
fn trim(text: &str) -> (r: &str)
    ensures
        r@ == trimmed(text@),
{
    text.trim()
}

/// `Pattern::new` and `Pattern::matches_path` of the crate glob: compiles the pattern and
/// matches the path against it with the options that the crate takes by itself. Trusted:
/// the result depends on the pattern and the path alone; the crate reads nothing but the
/// two and the separators of paths of the system that it is built for.
#[verifier::external_body]
fn glob_match(pattern: &str, path: &str) -> (r: Option<bool>)
    ensures
        r == glob_result(pattern@, path@),
{
    match glob::Pattern::new(pattern) {
        Ok(compiled) => Some(compiled.matches_path(std::path::Path::new(path))),
        Err(_) => None,
    }
}

/// The rule that a line without white space around it spells. No rule where the line is
/// empty or begins with `#`. A `!` in front makes a rule that keeps; a `\` in front is taken
/// away and the rest leaves out; any other line leaves out what it matches.
pub open spec fn rule_of(line: Seq<char>) -> Option<RuleView> {
    if line.len() == 0 || line[0] == '#' {
        None
    } else if line[0] == '!' {
        Some(RuleView { pat: line.drop_first(), kind: MatchKind::Include })
    } else if line[0] == '\\' {
        Some(RuleView { pat: line.drop_first(), kind: MatchKind::Exclude })
    } else {
        Some(RuleView { pat: line, kind: MatchKind::Exclude })
    }
}

/// The rules that lines spell, in their order.
pub open spec fn rules_of(lines: Seq<Seq<char>>) -> Seq<RuleView>
    decreases lines.len(),
{
    if lines.len() == 0 {
        Seq::empty()
    } else {
        match rule_of(trimmed(lines.last())) {
            Some(rule) => rules_of(lines.drop_last()).push(rule),
            None => rules_of(lines.drop_last()),
        }
    }
}

/// The rules that the lines of a file spell, where the lines are given as bytes. A line
/// that is not UTF-8 spells no rule.
pub open spec fn rules_of_bytes(lines: Seq<Seq<u8>>) -> Seq<RuleView>
    decreases lines.len(),
{
    if lines.len() == 0 {
        Seq::empty()
    } else {
        let front = rules_of_bytes(lines.drop_last());
        match text_of(lines.last()) {
            None => front,
            Some(text) => match rule_of(trimmed(text)) {
                Some(rule) => front.push(rule),
                None => front,
            },
        }
    }
}

/// What the first rule says that matched, where `matched` tells of each rule whether its
/// pattern matched.
pub open spec fn verdict_of(rules: Seq<RuleView>, matched: Seq<Option<bool>>) -> Option<MatchKind>
    decreases rules.len(),
{
    if rules.len() == 0 || matched.len() == 0 {
        None
    } else if matched[0] == Some(true) {
        Some(rules[0].kind)
    } else {
        verdict_of(rules.drop_first(), matched.drop_first())
    }
}

/// Whether the pattern of each rule matches the path.
pub open spec fn matches_of(rules: Seq<RuleView>, path: Seq<char>) -> Seq<Option<bool>> {
    Seq::new(rules.len(), |i: int| glob_result(rules[i].pat, path))
}

/// What the first rule says whose pattern matches the path.
pub open spec fn first_match(rules: Seq<RuleView>, path: Seq<char>) -> Option<MatchKind> {
    verdict_of(rules, matches_of(rules, path))
}

/// The rules of a directory in a table: those of the last entry for the directory.
pub open spec fn rules_at(table: Seq<(Seq<char>, Seq<RuleView>)>, dir: Seq<char>) -> Option<
    Seq<RuleView>,
>
    decreases table.len(),
{
    if table.len() == 0 {
        None
    } else if table.last().0 == dir {
        Some(table.last().1)
    } else {
        rules_at(table.drop_last(), dir)
    }
}

/// What the rules say of a path, judged from the directory `dir` upwards: the word of the
/// first rule that matches the path, among the rules of the nearest directory that has one.
pub open spec fn check_from(
    table: Seq<(Seq<char>, Seq<RuleView>)>,
    dir: Seq<u8>,
    path: Seq<char>,
) -> Option<MatchKind>
    decreases dir.len(),
{
    let here = match text_of(dir) {
        None => None,
        Some(name) => match rules_at(table, name) {
            None => None,
            Some(rules) => first_match(rules, path),
        },
    };
    match here {
        Some(kind) => Some(kind),
        None => match parent_of(dir) {
            None => None,
            Some(above) => {
                proof {
                    lemma_parent_shorter(dir);
                }
                check_from(table, above, path)
            },
        },
    }
}

/// What the rules say of a path: judged from the directory that holds the path upwards.
pub open spec fn check_spec(table: Seq<(Seq<char>, Seq<RuleView>)>, path: Seq<char>) -> Option<
    MatchKind,
> {
    match parent_of(utf8(path)) {
        None => None,
        Some(dir) => check_from(table, dir, path),
    }
}

/// The name of the files that hold rules, as bytes.
pub open spec fn ignore_name() -> Seq<u8> {
    utf8(".gitrsignore"@)
}

/// The entries of the index of a repository: those that its file holds, or none where
/// there is no such file. `None` where the file does not hold an index.
pub open spec fn index_entries(v: RepositoryView) -> Option<Seq<EntryView>> {
    if v.files.contains_key(crate::index::index_path()) {
        crate::index::parse_index(v.files[crate::index::index_path()])
    } else {
        Some(Seq::empty())
    }
}

/// The table that one more entry of the index makes of a table. An entry with another name
/// than that of the files of rules adds nothing, nor does one whose object cannot be read,
/// whose contents are not UTF-8, or whose directory has no name in UTF-8. An entry whose
/// object is no blob fails the whole, which is `None`. Any other entry adds the directory of
/// its path with the rules that the lines of its blob spell.
pub open spec fn load_entry(
    v: RepositoryView,
    table: Seq<(Seq<char>, Seq<RuleView>)>,
    e: EntryView,
) -> Option<Seq<(Seq<char>, Seq<RuleView>)>> {
    if file_name_of(utf8(e.path)) != Some(ignore_name()) {
        Some(table)
    } else {
        match read_spec(v, utf8(e.sha)) {
            Err(_) => Some(table),
            Ok(ObjectView::Blob(data)) => match (text_of(data), parent_of(utf8(e.path))) {
                (Some(_), Some(dir)) => match text_of(dir) {
                    Some(name) => Some(table.push((name, rules_of_bytes(split(data, NEWLINE))))),
                    None => Some(table),
                },
                _ => Some(table),
            },
            Ok(_) => None,
        }
    }
}

/// The table of rules that the entries of an index make, one after the other.
pub open spec fn load(v: RepositoryView, entries: Seq<EntryView>) -> Option<
    Seq<(Seq<char>, Seq<RuleView>)>,
>
    decreases entries.len(),
{
    if entries.len() == 0 {
        Some(Seq::empty())
    } else {
        match load(v, entries.drop_last()) {
            None => None,
            Some(table) => load_entry(v, table, entries.last()),
        }
    }
}

/// A failure among the first entries is the failure of the whole.
proof fn lemma_load_fails(v: RepositoryView, entries: Seq<EntryView>, upto: int)
    requires
        0 <= upto <= entries.len(),
        load(v, entries.subrange(0, upto)) is None,
    ensures
        load(v, entries) is None,
    decreases entries.len() - upto,
{
    if upto == entries.len() {
        assert(entries.subrange(0, upto) =~= entries);
    } else {
        let next = entries.subrange(0, upto + 1);
        assert(next.drop_last() =~= entries.subrange(0, upto));
        lemma_load_fails(v, entries, upto + 1);
    }
}

/// Whether the directory `dir` has no rule that matches the path: it has no rules, or none
/// of its rules matches.
pub open spec fn silent_at(table: Seq<(Seq<char>, Seq<RuleView>)>, dir: Seq<u8>, path: Seq<char>) -> bool {
    match text_of(dir) {
        None => true,
        Some(name) => match rules_at(table, name) {
            None => true,
            Some(rules) => first_match(rules, path) is None,
        },
    }
}

/// A directory without a rule that matches a path leaves the word on the path to the
/// directories above it; a directory with one has the word.
pub proof fn lemma_check_falls_back(
    table: Seq<(Seq<char>, Seq<RuleView>)>,
    dir: Seq<u8>,
    path: Seq<char>,
)
    ensures
        silent_at(table, dir, path) ==> check_from(table, dir, path) == match parent_of(dir) {
            None => None,
            Some(above) => check_from(table, above, path),
        },
        !silent_at(table, dir, path) ==> check_from(table, dir, path) == first_match(
            rules_at(table, text_of(dir)->0)->0,
            path,
        ),
{
}

impl IgnoreRule {
    /// The rule with the pattern `pair.0` that says `pair.1`.
    pub fn from(pair: (&str, MatchKind)) -> (r: IgnoreRule)
        ensures
            r@ == (RuleView { pat: pair.0@, kind: pair.1 }),
    {
        IgnoreRule { pat: pair.0.to_owned(), kind: pair.1 }
    }

    /// The rule that a line without white space around it spells.
    pub fn parse_trimmed(line: &str) -> (r: Option<IgnoreRule>)
        ensures
            match r {
                Some(rule) => rule_of(line@) == Some(rule@),
                None => rule_of(line@) is None,
            },
    {
        let n = line.unicode_len();
        if n == 0 {
            return None;
        }
        let first = line.get_char(0);
        if first == '#' {
            None
        } else if first == '!' {
            let rest = line.substring_char(1, n);
            assert(rest@ =~= line@.drop_first());
            Some(IgnoreRule::from((rest, MatchKind::Include)))
        } else if first == '\\' {
            let rest = line.substring_char(1, n);
            assert(rest@ =~= line@.drop_first());
            Some(IgnoreRule::from((rest, MatchKind::Exclude)))
        } else {
            Some(IgnoreRule::from((line, MatchKind::Exclude)))
        }
    }

    /// The rule that a line spells, once the white space around it is taken away.
    pub fn parse(raw: &str) -> (r: Option<IgnoreRule>)
        ensures
            match r {
                Some(rule) => rule_of(trimmed(raw@)) == Some(rule@),
                None => rule_of(trimmed(raw@)) is None,
            },
    {
        Self::parse_trimmed(trim(raw))
    }

    /// The rules that lines spell, in their order.
    pub fn parse_lines(lines: &[&str]) -> (r: Vec<IgnoreRule>)
        ensures
            rule_views(r@) == rules_of(Seq::new(lines@.len(), |i: int| lines@[i]@)),
    {
        let ghost all = Seq::new(lines@.len(), |i: int| lines@[i]@);
        let mut out: Vec<IgnoreRule> = Vec::new();
        let mut i: usize = 0;
        assert(all.subrange(0, 0) =~= Seq::empty());
        assert(rule_views(out@) =~= Seq::empty());
        while i < lines.len()
            invariant
                i <= lines@.len(),
                all == Seq::new(lines@.len(), |i: int| lines@[i]@),
                rule_views(out@) == rules_of(all.subrange(0, i as int)),
            decreases lines@.len() - i,
        {
            let ghost before = rule_views(out@);
            let ghost next = all.subrange(0, i + 1);
            proof {
                assert(next.drop_last() =~= all.subrange(0, i as int));
                assert(next.last() == lines@[i as int]@);
            }
            match Self::parse(lines[i]) {
                Some(rule) => {
                    out.push(rule);
                    assert(rule_views(out@) =~= before.push(rule@));
                },
                None => {},
            }
            i = i + 1;
        }
        assert(all.subrange(0, all.len() as int) =~= all);
        out
    }

    /// The rules that the lines of a file spell, where the lines are given as bytes.
    pub fn parse_byte_lines(lines: &Vec<Vec<u8>>) -> (r: Vec<IgnoreRule>)
        ensures
            rule_views(r@) == rules_of_bytes(path_view(lines@)),
    {
        let ghost all = path_view(lines@);
        let mut out: Vec<IgnoreRule> = Vec::new();
        let mut i: usize = 0;
        assert(all.subrange(0, 0) =~= Seq::empty());
        assert(rule_views(out@) =~= Seq::empty());
        while i < lines.len()
            invariant
                i <= lines@.len(),
                all == path_view(lines@),
                rule_views(out@) == rules_of_bytes(all.subrange(0, i as int)),
            decreases lines@.len() - i,
        {
            let ghost before = rule_views(out@);
            let ghost next = all.subrange(0, i + 1);
            proof {
                assert(next.drop_last() =~= all.subrange(0, i as int));
                assert(next.last() == lines@[i as int]@);
                let line = lines@[i as int]@;
                assert(line.subrange(0, line.len() as int) =~= line);
            }
            match string_from_utf8(subvec(lines[i].as_slice(), 0, lines[i].len())) {
                Some(text) => match Self::parse(text.as_str()) {
                    Some(rule) => {
                        out.push(rule);
                        assert(rule_views(out@) =~= before.push(rule@));
                    },
                    None => {},
                },
                None => {},
            }
            i = i + 1;
        }
        assert(all.subrange(0, all.len() as int) =~= all);
        out
    }
}

impl View for IgnoreRules {
    type V = RulesView;

    closed spec fn view(&self) -> RulesView {
        RulesView {
            absolute: rule_views(self.absolute@),
            relative: table_view(self.relative@),
        }
    }
}

impl IgnoreRules {
    /// What the first rule says that matched, where `matched` tells of each rule whether
    /// its pattern matched: `Some(true)` where it did.
    pub fn first_verdict(rules: &Vec<IgnoreRule>, matched: &Vec<Option<bool>>) -> (r: Option<
        MatchKind,
    >)
        ensures
            r == verdict_of(rule_views(rules@), matched@),
    {
        let ghost all = rule_views(rules@);
        let mut i: usize = 0;
        assert(all.subrange(0, all.len() as int) =~= all);
        assert(matched@.subrange(0, matched@.len() as int) =~= matched@);
        while i < rules.len() && i < matched.len()
            invariant
                i <= rules@.len(),
                i <= matched@.len(),
                all == rule_views(rules@),
                verdict_of(all, matched@) == verdict_of(
                    all.subrange(i as int, all.len() as int),
                    matched@.subrange(i as int, matched@.len() as int),
                ),
            decreases rules@.len() - i,
        {
            let ghost rest = all.subrange(i as int, all.len() as int);
            let ghost flags = matched@.subrange(i as int, matched@.len() as int);
            assert(rest[0] == rules@[i as int]@);
            assert(flags[0] == matched@[i as int]);
            assert(rest.drop_first() =~= all.subrange(i + 1, all.len() as int));
            assert(flags.drop_first() =~= matched@.subrange(i + 1, matched@.len() as int));
            match matched[i] {
                Some(true) => {
                    return Some(rules[i].kind);
                },
                _ => {},
            }
            i = i + 1;
        }
        None
    }

    /// What the first rule says whose pattern matches the path.
    fn matches_rules(rules: &Vec<IgnoreRule>, path: &str) -> (r: Option<MatchKind>)
        ensures
            r == first_match(rule_views(rules@), path@),
    {
        let mut matched: Vec<Option<bool>> = Vec::new();
        let mut i: usize = 0;
        while i < rules.len()
            invariant
                i <= rules@.len(),
                matched@.len() == i,
                forall|k: int|
                    0 <= k < i ==> matched@[k] == glob_result(
                        (#[trigger] rules@[k])@.pat,
                        path@,
                    ),
            decreases rules@.len() - i,
        {
            matched.push(glob_match(rules[i].pat.as_str(), path));
            i = i + 1;
        }
        assert(matched@ =~= matches_of(rule_views(rules@), path@));
        Self::first_verdict(rules, &matched)
    }

    /// The rules of a directory: those of the last entry of the table for the directory.
    fn rules_for(&self, dir: &str) -> (r: Option<&Vec<IgnoreRule>>)
        ensures
            match r {
                Some(rules) => rules_at(self@.relative, dir@) == Some(rule_views(rules@)),
                None => rules_at(self@.relative, dir@) is None,
            },
    {
        let ghost table = table_view(self.relative@);
        let mut i: usize = self.relative.len();
        assert(table.subrange(0, table.len() as int) =~= table);
        while i > 0
            invariant
                i <= self.relative@.len(),
                table == table_view(self.relative@),
                rules_at(table, dir@) == rules_at(table.subrange(0, i as int), dir@),
            decreases i,
        {
            let ghost head = table.subrange(0, i as int);
            assert(head.last() == table_entry_view()(self.relative@[i - 1]));
            assert(head.drop_last() =~= table.subrange(0, i - 1));
            if str_eq(self.relative[i - 1].0.as_str(), dir) {
                return Some(&self.relative[i - 1].1);
            }
            i = i - 1;
        }
        None
    }

    /// Rules for the directories of a table.
    pub fn new(relative: Vec<(String, Vec<IgnoreRule>)>) -> (r: IgnoreRules)
        ensures
            r@.absolute.len() == 0,
            r@.relative == table_view(relative@),
    {
        IgnoreRules { absolute: Vec::new(), relative }
    }

    /// Reads the rules of a repository from the files of rules that its index lists.
    /// `None` where the index cannot be read, or lists a file of rules whose object is no
    /// blob.
    pub fn read(repository: &Repository) -> (r: Option<IgnoreRules>)
        requires
            repository.wf(),
        ensures
            match r {
                Some(rules) => index_entries(repository@) matches Some(entries) && load(
                    repository@,
                    entries,
                ) == Some(rules@.relative) && rules@.absolute.len() == 0,
                None => match index_entries(repository@) {
                    None => true,
                    Some(entries) => load(repository@, entries) is None,
                },
            },
    {
        let index = match Index::read(repository) {
            Some(index) => index,
            None => {
                return None;
            },
        };
        let ghost entries = entry_views(index.entries@);
        let mut table: Vec<(String, Vec<IgnoreRule>)> = Vec::new();
        let wanted = ".gitrsignore".as_bytes();
        let mut i: usize = 0;
        assert(entries.subrange(0, 0) =~= Seq::empty());
        assert(table_view(table@) =~= Seq::empty());
        assert(index_entries(repository@) == Some(entries)) by {
            if !repository@.files.contains_key(crate::index::index_path()) {
                assert(entries =~= Seq::empty());
            }
        }
        while i < index.entries.len()
            invariant
                repository.wf(),
                i <= index.entries@.len(),
                entries == entry_views(index.entries@),
                index_entries(repository@) == Some(entries),
                wanted@ == ignore_name(),
                load(repository@, entries.subrange(0, i as int)) == Some(table_view(table@)),
            decreases index.entries@.len() - i,
        {
            let entry = &index.entries[i];
            let ghost before = table_view(table@);
            let ghost next = entries.subrange(0, i + 1);
            proof {
                assert(next.drop_last() =~= entries.subrange(0, i as int));
                assert(next.last() == entry@);
            }
            let path = entry.path.as_str().as_bytes();
            let named = match file_name(path) {
                Some(name) => bytes_eq(name.as_slice(), wanted),
                None => false,
            };
            if named {
                match GitrsObject::read(repository, entry.sha.as_str()) {
                    Err(_) => {},
                    Ok(GitrsObject::BlobObject(blob)) => {
                        let data = blob.get_data();
                        let copy = subvec(data.as_slice(), 0, data.len());
                        assert(data@.subrange(0, data@.len() as int) =~= data@);
                        match (string_from_utf8(copy), parent(path)) {
                            (Some(_), Some(dir)) => {
                                match string_from_utf8(dir) {
                                    Some(name) => {
                                        let lines = split_bytes(data.as_slice(), NEWLINE);
                                        let rules = IgnoreRule::parse_byte_lines(&lines);
                                        let ghost added = (name@, rule_views(rules@));
                                        table.push((name, rules));
                                        assert(table_view(table@) =~= before.push(added));
                                    },
                                    None => {},
                                }
                            },
                            _ => {},
                        }
                    },
                    Ok(_) => {
                        proof {
                            lemma_load_fails(repository@, entries, i + 1);
                        }
                        return None;
                    },
                }
            }
            i = i + 1;
        }
        assert(entries.subrange(0, entries.len() as int) =~= entries);
        Some(IgnoreRules { absolute: Vec::new(), relative: table })
    }

    /// What the rules say of a path: the word of the first rule that matches the path,
    /// among the rules of the nearest directory above the path that has one. `None` where no
    /// rule of any directory above the path matches.
    pub fn check(&self, path: &str) -> (r: Option<MatchKind>)
        ensures
            r == check_spec(self@.relative, path@),
    {
        let mut dir = match parent(path.as_bytes()) {
            Some(dir) => dir,
            None => {
                return None;
            },
        };
        loop
            invariant
                check_spec(self@.relative, path@) == check_from(self@.relative, dir@, path@),
            decreases dir@.len(),
        {
            proof {
                lemma_parent_shorter(dir@);
                assert(dir@.subrange(0, dir@.len() as int) =~= dir@);
            }
            match string_from_utf8(subvec(dir.as_slice(), 0, dir.len())) {
                Some(name) => match self.rules_for(name.as_str()) {
                    Some(rules) => match Self::matches_rules(rules, path) {
                        Some(kind) => {
                            return Some(kind);
                        },
                        None => {},
                    },
                    None => {},
                },
                None => {},
            }
            dir = match parent(dir.as_slice()) {
                Some(above) => above,
                None => {
                    return None;
                },
            };
        }
    }
}

} // verus!
