//! The repository: an image in memory of the files and directories below the metadata
//! directory.
//!
//! A path is the list of its segments below the metadata directory, each segment the bytes
//! of one name. The image holds the contents of every file and the set of directories.
//! Whoever owns the disk loads the image before the library works on it and stores what
//! the library changed.

use vstd::prelude::*;
use vstd::string::StringExecFns;
use crate::bytes::{bytes_eq, is_prefix, starts_with, SLASH};
use crate::text::utf8;
use crate::zlib::{deflate, zlib_encoded};

verus! {

/// What a repository holds: where its working tree and its metadata directory lie, the
/// contents of its files by path, and the paths of its directories.
pub struct RepositoryView {
    pub worktree: Seq<char>,
    pub gitdir: Seq<char>,
    pub files: Map<Seq<Seq<u8>>, Seq<u8>>,
    pub dirs: Set<Seq<Seq<u8>>>,
}

/// One file of the image.
#[derive(Debug, Clone, PartialEq, Eq)]
pub struct StoredFile {
    pub path: Vec<Vec<u8>>,
    pub data: Vec<u8>,
}

/// The image of a metadata directory.
pub struct Repository {
    worktree: String,
    gitdir: String,
    files: Vec<StoredFile>,
    dirs: Vec<Vec<Vec<u8>>>,
}

/// The path that a list of byte strings spells.
pub open spec fn path_view(segments: Seq<Vec<u8>>) -> Seq<Seq<u8>> {
    Seq::new(segments.len(), |i: int| segments[i]@)
}

/// The path that a list of names spells.
pub open spec fn path_of(segments: Seq<&str>) -> Seq<Seq<u8>> {
    Seq::new(segments.len(), |i: int| utf8(segments[i]@))
}

/// The paths of the directories above `path`, from the metadata directory itself down to
/// the directory that holds `path`.
pub open spec fn ancestors(path: Seq<Seq<u8>>) -> Set<Seq<Seq<u8>>> {
    Set::new(|d: Seq<Seq<u8>>| d.len() < path.len() && path.subrange(0, d.len() as int) == d)
}

/// The paths of `path` and of the directories above it.
pub open spec fn prefixes(path: Seq<Seq<u8>>) -> Set<Seq<Seq<u8>>> {
    Set::new(|d: Seq<Seq<u8>>| d.len() <= path.len() && path.subrange(0, d.len() as int) == d)
}

/// Whether a file can be created or replaced at `path`: the path has a segment, is no
/// directory, and no file stands where a directory above it would have to stand.
pub open spec fn can_store(v: RepositoryView, path: Seq<Seq<u8>>) -> bool {
    &&& path.len() > 0
    &&& !v.dirs.contains(path)
    &&& forall|d: Seq<Seq<u8>>| #[trigger] ancestors(path).contains(d) ==> !v.files.contains_key(d)
}

/// Whether the directory `path` can be created with those above it: no file stands at the
/// path or above it.
pub open spec fn can_make_dirs(v: RepositoryView, path: Seq<Seq<u8>>) -> bool {
    forall|d: Seq<Seq<u8>>| #[trigger] prefixes(path).contains(d) ==> !v.files.contains_key(d)
}

/// The repository with `data` in the file at `path`, and the directories above the path.
pub open spec fn with_file(v: RepositoryView, path: Seq<Seq<u8>>, data: Seq<u8>) -> RepositoryView {
    RepositoryView {
        worktree: v.worktree,
        gitdir: v.gitdir,
        files: v.files.insert(path, data),
        dirs: v.dirs.union(ancestors(path)),
    }
}

/// The repository with the directory `path` and those above it.
pub open spec fn with_dirs(v: RepositoryView, path: Seq<Seq<u8>>) -> RepositoryView {
    RepositoryView {
        worktree: v.worktree,
        gitdir: v.gitdir,
        files: v.files,
        dirs: v.dirs.union(prefixes(path)),
    }
}

/// The text of a path below `base`: the base, then a slash and a name for each segment.
pub open spec fn joined(base: Seq<char>, segments: Seq<&str>) -> Seq<char>
    decreases segments.len(),
{
    if segments.len() == 0 {
        base
    } else {
        joined(base, segments.drop_last()) + seq!['/'] + segments.last()@
    }
}

/// The map from path to contents that a list of files spells.
pub open spec fn files_map(files: Seq<StoredFile>) -> Map<Seq<Seq<u8>>, Seq<u8>>
    decreases files.len(),
{
    if files.len() == 0 {
        Map::empty()
    } else {
        files_map(files.drop_last()).insert(path_view(files.last().path@), files.last().data@)
    }
}

/// Whether no two files of the list have the same path.
pub open spec fn distinct_paths(files: Seq<StoredFile>) -> bool {
    forall|i: int, j: int|
        0 <= i < j < files.len() ==> path_view((#[trigger] files[i]).path@) != path_view(
            (#[trigger] files[j]).path@,
        )
}

/// The set of paths that a list of directories spells.
pub open spec fn dirs_set(dirs: Seq<Vec<Vec<u8>>>) -> Set<Seq<Seq<u8>>> {
    Set::new(|d: Seq<Seq<u8>>| exists|i: int| 0 <= i < dirs.len() && path_view(#[trigger] dirs[i]@) == d)
}

/// The map of a list of files holds the paths of the list and no others.
pub proof fn lemma_files_map_domain(files: Seq<StoredFile>)
    ensures
        forall|i: int|
            0 <= i < files.len() ==> files_map(files).contains_key(
                path_view((#[trigger] files[i]).path@),
            ),
        forall|p: Seq<Seq<u8>>| #[trigger]
            files_map(files).contains_key(p) ==> exists|i: int|
                0 <= i < files.len() && path_view((#[trigger] files[i]).path@) == p,
    decreases files.len(),
{
    if files.len() > 0 {
        let front = files.drop_last();
        lemma_files_map_domain(front);
        assert forall|i: int| 0 <= i < files.len() implies files_map(files).contains_key(
            path_view((#[trigger] files[i]).path@),
        ) by {
            if i < front.len() {
                assert(front[i] == files[i]);
            }
        }
        assert forall|p: Seq<Seq<u8>>| #[trigger] files_map(files).contains_key(p) implies exists|
            i: int,
        | 0 <= i < files.len() && path_view((#[trigger] files[i]).path@) == p by {
            if p == path_view(files.last().path@) {
                assert(path_view(files[files.len() - 1].path@) == p);
            } else {
                assert(files_map(front).contains_key(p));
                let i = choose|i: int|
                    0 <= i < front.len() && path_view((#[trigger] front[i]).path@) == p;
                assert(front[i] == files[i]);
            }
        }
    }
}

/// The map of a list of files with distinct paths holds the contents of each file.
pub proof fn lemma_files_map_value(files: Seq<StoredFile>, i: int)
    requires
        distinct_paths(files),
        0 <= i < files.len(),
    ensures
        files_map(files).contains_key(path_view(files[i].path@)),
        files_map(files)[path_view(files[i].path@)] == files[i].data@,
    decreases files.len(),
{
    let front = files.drop_last();
    if i < files.len() - 1 {
        assert(distinct_paths(front)) by {
            assert forall|a: int, b: int| 0 <= a < b < front.len() implies path_view(
                (#[trigger] front[a]).path@,
            ) != path_view((#[trigger] front[b]).path@) by {
                assert(front[a] == files[a] && front[b] == files[b]);
            }
        }
        lemma_files_map_value(front, i);
        assert(front[i] == files[i]);
        assert(path_view(files[i].path@) != path_view(files[files.len() - 1].path@));
    }
}

/// New contents for one file of a list with distinct paths change the map at its path alone.
pub proof fn lemma_files_map_update(files: Seq<StoredFile>, i: int, file: StoredFile)
    requires
        distinct_paths(files),
        0 <= i < files.len(),
        path_view(file.path@) == path_view(files[i].path@),
    ensures
        distinct_paths(files.update(i, file)),
        files_map(files.update(i, file)) == files_map(files).insert(
            path_view(file.path@),
            file.data@,
        ),
    decreases files.len(),
{
    let out = files.update(i, file);
    assert(distinct_paths(out)) by {
        assert forall|a: int, b: int| 0 <= a < b < out.len() implies path_view(
            (#[trigger] out[a]).path@,
        ) != path_view((#[trigger] out[b]).path@) by {
            assert(path_view(out[a].path@) == path_view(files[a].path@));
            assert(path_view(out[b].path@) == path_view(files[b].path@));
        }
    }
    let front = files.drop_last();
    if i == files.len() - 1 {
        assert(out.drop_last() =~= front);
        assert(files_map(out) =~= files_map(files).insert(path_view(file.path@), file.data@));
    } else {
        assert(distinct_paths(front)) by {
            assert forall|a: int, b: int| 0 <= a < b < front.len() implies path_view(
                (#[trigger] front[a]).path@,
            ) != path_view((#[trigger] front[b]).path@) by {
                assert(front[a] == files[a] && front[b] == files[b]);
            }
        }
        assert(front[i] == files[i]);
        lemma_files_map_update(front, i, file);
        assert(out.drop_last() =~= front.update(i, file));
        assert(out.last() == files.last());
        assert(path_view(files[i].path@) != path_view(files[files.len() - 1].path@));
        assert(files_map(out) =~= files_map(files).insert(path_view(file.path@), file.data@));
    }
}

/// Whether two paths are the same.
pub fn path_eq(a: &[Vec<u8>], b: &[Vec<u8>]) -> (r: bool)
    ensures
        r == (path_view(a@) == path_view(b@)),
{
    if a.len() != b.len() {
        assert(path_view(a@).len() != path_view(b@).len());
        return false;
    }
    let mut i: usize = 0;
    while i < a.len()
        invariant
            a@.len() == b@.len(),
            i <= a@.len(),
            forall|k: int| 0 <= k < i ==> a@[k]@ == b@[k]@,
        decreases a@.len() - i,
    {
        if !bytes_eq(a[i].as_slice(), b[i].as_slice()) {
            assert(path_view(a@)[i as int] == a@[i as int]@);
            assert(path_view(b@)[i as int] == b@[i as int]@);
            return false;
        }
        i = i + 1;
    }
    assert(path_view(a@) =~= path_view(b@));
    true
}

/// Whether `prefix` is the beginning of `path`, segment by segment.
pub fn path_starts_with(path: &[Vec<u8>], prefix: &[Vec<u8>]) -> (r: bool)
    ensures
        r == prefixes(path_view(path@)).contains(path_view(prefix@)),
{
    if prefix.len() > path.len() {
        return false;
    }
    let ghost p = path_view(path@);
    let ghost d = path_view(prefix@);
    let mut i: usize = 0;
    while i < prefix.len()
        invariant
            prefix@.len() <= path@.len(),
            i <= prefix@.len(),
            p == path_view(path@),
            d == path_view(prefix@),
            forall|k: int| 0 <= k < i ==> path@[k]@ == prefix@[k]@,
        decreases prefix@.len() - i,
    {
        if !bytes_eq(path[i].as_slice(), prefix[i].as_slice()) {
            assert(p.subrange(0, d.len() as int)[i as int] == path@[i as int]@);
            assert(d[i as int] == prefix@[i as int]@);
            return false;
        }
        i = i + 1;
    }
    assert(p.subrange(0, d.len() as int) =~= d);
    true
}

/// Copies a path.
pub fn clone_path(path: &[Vec<u8>]) -> (r: Vec<Vec<u8>>)
    ensures
        path_view(r@) == path_view(path@),
{
    let mut out: Vec<Vec<u8>> = Vec::new();
    let mut i: usize = 0;
    while i < path.len()
        invariant
            i <= path@.len(),
            out@.len() == i,
            forall|k: int| 0 <= k < i ==> out@[k]@ == path@[k]@,
        decreases path@.len() - i,
    {
        out.push(crate::bytes::subvec(path[i].as_slice(), 0, path[i].len()));
        proof {
            let s = path@[i as int]@;
            assert(s.subrange(0, s.len() as int) =~= s);
        }
        i = i + 1;
    }
    assert(path_view(out@) =~= path_view(path@));
    out
}

/// The path of a list of names, as bytes.
pub fn to_path(segments: &[&str]) -> (r: Vec<Vec<u8>>)
    ensures
        path_view(r@) == path_of(segments@),
{
    let mut out: Vec<Vec<u8>> = Vec::new();
    let mut i: usize = 0;
    while i < segments.len()
        invariant
            i <= segments@.len(),
            out@.len() == i,
            forall|k: int| 0 <= k < i ==> out@[k]@ == utf8(segments@[k]@),
        decreases segments@.len() - i,
    {
        let bytes = segments[i].as_bytes();
        out.push(crate::bytes::subvec(bytes, 0, bytes.len()));
        proof {
            let s = utf8(segments@[i as int]@);
            assert(s.subrange(0, s.len() as int) =~= s);
        }
        i = i + 1;
    }
    assert(path_view(out@) =~= path_of(segments@));
    out
}

/// The path of one name.
pub open spec fn one(name: Seq<char>) -> Seq<Seq<u8>> {
    seq![utf8(name)]
}

/// The text that the description of a new repository holds.
pub open spec fn description_text() -> Seq<char> {
    "Unamed repository; edit this file 'description' to name the repository"@
}

/// An image without files for a working tree, with the metadata directory alone.
pub open spec fn blank(worktree: Seq<char>) -> RepositoryView {
    RepositoryView {
        worktree,
        gitdir: worktree + "/.gitrs"@,
        files: Map::empty(),
        dirs: set![Seq::empty()],
    }
}

/// The directories of a new repository: `branches`, `objects`, `refs/tags` and
/// `refs/heads`.
pub open spec fn initial_dirs(worktree: Seq<char>) -> RepositoryView {
    with_dirs(
        with_dirs(
            with_dirs(with_dirs(blank(worktree), one("branches"@)), one("objects"@)),
            seq![utf8("refs"@), utf8("tags"@)],
        ),
        seq![utf8("refs"@), utf8("heads"@)],
    )
}

/// A new repository: its directories, a description, a `HEAD` that names the branch
/// `master`, and an empty file `config`.
pub open spec fn initial(worktree: Seq<char>) -> RepositoryView {
    with_file(
        with_file(
            with_file(initial_dirs(worktree), one("description"@), utf8(description_text())),
            one("HEAD"@),
            utf8("ref: refs/heads/master"@),
        ),
        one("config"@),
        Seq::empty(),
    )
}

/// The names of the files of a new repository are not the names of its directories.
proof fn lemma_initial_names()
    ensures
        utf8("description"@) != utf8("branches"@),
        utf8("description"@) != utf8("objects"@),
        utf8("description"@) != utf8("refs"@),
        utf8("HEAD"@) != utf8("branches"@),
        utf8("HEAD"@) != utf8("objects"@),
        utf8("HEAD"@) != utf8("refs"@),
        utf8("config"@) != utf8("branches"@),
        utf8("config"@) != utf8("objects"@),
        utf8("config"@) != utf8("refs"@),
{
    reveal_strlit("description");
    reveal_strlit("HEAD");
    reveal_strlit("config");
    reveal_strlit("branches");
    reveal_strlit("objects");
    reveal_strlit("refs");
    let d = "description"@;
    let h = "HEAD"@;
    let c = "config"@;
    let b = "branches"@;
    let o = "objects"@;
    let r = "refs"@;
    assert(d[0] == 'd' && h[0] == 'H' && c[0] == 'c' && b[0] == 'b' && o[0] == 'o' && r[0] == 'r');
    if utf8(d) == utf8(b) {
        crate::text::lemma_utf8_injective(d, b);
    }
    if utf8(d) == utf8(o) {
        crate::text::lemma_utf8_injective(d, o);
    }
    if utf8(d) == utf8(r) {
        crate::text::lemma_utf8_injective(d, r);
    }
    if utf8(h) == utf8(b) {
        crate::text::lemma_utf8_injective(h, b);
    }
    if utf8(h) == utf8(o) {
        crate::text::lemma_utf8_injective(h, o);
    }
    if utf8(h) == utf8(r) {
        crate::text::lemma_utf8_injective(h, r);
    }
    if utf8(c) == utf8(b) {
        crate::text::lemma_utf8_injective(c, b);
    }
    if utf8(c) == utf8(o) {
        crate::text::lemma_utf8_injective(c, o);
    }
    if utf8(c) == utf8(r) {
        crate::text::lemma_utf8_injective(c, r);
    }
}

/// A file with a name of its own can be stored directly in the metadata directory, where
/// no file stands at the metadata directory itself and no directory has the name.
proof fn lemma_can_store_one(v: RepositoryView, name: Seq<u8>)
    requires
        !v.dirs.contains(seq![name]),
        !v.files.contains_key(Seq::empty()),
    ensures
        can_store(v, seq![name]),
{
    let path = seq![name];
    assert forall|d: Seq<Seq<u8>>| #[trigger] ancestors(path).contains(d) implies
        !v.files.contains_key(d) by {
        assert(d =~= Seq::empty());
    }
}

impl View for Repository {
    type V = RepositoryView;

    closed spec fn view(&self) -> RepositoryView {
        RepositoryView {
            worktree: self.worktree@,
            gitdir: self.gitdir@,
            files: files_map(self.files@),
            dirs: dirs_set(self.dirs@),
        }
    }
}

impl Repository {
    /// Whether no two files of the image have the same path.
    pub closed spec fn wf(&self) -> bool {
        distinct_paths(self.files@)
    }

    /// An image without files for the working tree `worktree`, whose metadata directory
    /// exists and is empty.
    pub fn new(worktree: &str) -> (r: Repository)
        ensures
            r.wf(),
            r@.worktree == worktree@,
            r@.gitdir == worktree@ + "/.gitrs"@,
            r@.files == Map::<Seq<Seq<u8>>, Seq<u8>>::empty(),
            r@.dirs == set![Seq::<Seq<u8>>::empty()],
    {
        let mut dirs: Vec<Vec<Vec<u8>>> = Vec::new();
        dirs.push(Vec::new());
        let r = Repository {
            worktree: worktree.to_owned(),
            gitdir: worktree.to_owned().concat("/.gitrs"),
            files: Vec::new(),
            dirs,
        };
        proof {
            assert(path_view(r.dirs@[0]@) =~= Seq::<Seq<u8>>::empty());
            assert(r@.dirs =~= set![Seq::<Seq<u8>>::empty()]);
        }
        r
    }

    /// The image holds files at finitely many paths.
    pub proof fn lemma_finite(&self)
        requires
            self.wf(),
        ensures
            self@.files.dom().finite(),
    {
        lemma_count(self.files@);
    }

    /// The number of files in the image.
    pub fn count_files(&self) -> (r: usize)
        requires
            self.wf(),
        ensures
            r == self@.files.dom().len(),
    {
        proof {
            lemma_count(self.files@);
        }
        self.files.len()
    }

    /// A new repository for the working tree `worktree`: the directories `branches`,
    /// `objects`, `refs/tags` and `refs/heads`, a description, a `HEAD` that names the branch
    /// `master`, and an empty file `config`.
    pub fn init(worktree: &str) -> (r: Repository)
        ensures
            r.wf(),
            r@ == initial(worktree@),
    {
        let mut r = Repository::new(worktree);
        assert(r@ =~= blank(worktree@)) by {
            assert(r@.files =~= blank(worktree@).files);
            assert(r@.dirs =~= blank(worktree@).dirs);
        }
        let branches = to_path(&["branches"]);
        let objects = to_path(&["objects"]);
        let tags = to_path(&["refs", "tags"]);
        let heads = to_path(&["refs", "heads"]);
        proof {
            assert(path_view(branches@) =~= one("branches"@));
            assert(path_view(objects@) =~= one("objects"@));
            assert(path_view(tags@) =~= seq![utf8("refs"@), utf8("tags"@)]);
            assert(path_view(heads@) =~= seq![utf8("refs"@), utf8("heads"@)]);
        }
        let made_branches = r.make_dirs(branches.as_slice());
        let made_objects = r.make_dirs(objects.as_slice());
        let made_tags = r.make_dirs(tags.as_slice());
        let made_heads = r.make_dirs(heads.as_slice());
        assert(made_branches && made_objects && made_tags && made_heads);
        assert(r@ == initial_dirs(worktree@));
        let ghost dirs = r@;
        proof {
            lemma_initial_names();
            assert(dirs.files =~= Map::<Seq<Seq<u8>>, Seq<u8>>::empty());
            assert forall|d: Seq<Seq<u8>>| dirs.dirs.contains(d) && d.len() == 1 implies d[0]
                == utf8("branches"@) || d[0] == utf8("objects"@) || d[0] == utf8("refs"@) by {
                let p1 = one("branches"@);
                let p2 = one("objects"@);
                let p3 = seq![utf8("refs"@), utf8("tags"@)];
                let p4 = seq![utf8("refs"@), utf8("heads"@)];
                if prefixes(p1).contains(d) {
                    assert(d == p1.subrange(0, 1));
                } else if prefixes(p2).contains(d) {
                    assert(d == p2.subrange(0, 1));
                } else if prefixes(p3).contains(d) {
                    assert(d == p3.subrange(0, 1));
                } else if prefixes(p4).contains(d) {
                    assert(d == p4.subrange(0, 1));
                }
            }
        }
        let description = to_path(&["description"]);
        let head = to_path(&["HEAD"]);
        let config = to_path(&["config"]);
        proof {
            assert(path_view(description@) =~= one("description"@));
            assert(path_view(head@) =~= one("HEAD"@));
            assert(path_view(config@) =~= one("config"@));
            assert(!dirs.dirs.contains(one("description"@))) by {
                if dirs.dirs.contains(one("description"@)) {
                    assert(one("description"@)[0] == utf8("description"@));
                }
            }
            assert(!dirs.dirs.contains(one("HEAD"@))) by {
                if dirs.dirs.contains(one("HEAD"@)) {
                    assert(one("HEAD"@)[0] == utf8("HEAD"@));
                }
            }
            assert(!dirs.dirs.contains(one("config"@))) by {
                if dirs.dirs.contains(one("config"@)) {
                    assert(one("config"@)[0] == utf8("config"@));
                }
            }
            lemma_can_store_one(dirs, utf8("description"@));
        }
        let text = "Unamed repository; edit this file 'description' to name the repository".as_bytes();
        let stored_description = r.store(
            description.as_slice(),
            crate::bytes::subvec(text, 0, text.len()),
        );
        assert(text@.subrange(0, text@.len() as int) =~= text@);
        let ghost with_description = r@;
        proof {
            assert(!ancestors(one("description"@)).contains(one("HEAD"@)));
            assert(!with_description.files.contains_key(Seq::empty()));
            lemma_can_store_one(with_description, utf8("HEAD"@));
        }
        let target = "ref: refs/heads/master".as_bytes();
        let stored_head = r.store(head.as_slice(), crate::bytes::subvec(target, 0, target.len()));
        assert(target@.subrange(0, target@.len() as int) =~= target@);
        let ghost with_head = r@;
        proof {
            assert(!ancestors(one("description"@)).contains(one("config"@)));
            assert(!ancestors(one("HEAD"@)).contains(one("config"@)));
            assert(!with_head.files.contains_key(Seq::empty()));
            lemma_can_store_one(with_head, utf8("config"@));
        }
        let stored_config = r.store(config.as_slice(), Vec::new());
        assert(stored_description && stored_head && stored_config);
        r
    }

    /// The files of the image, each with its path and its contents.
    pub fn files(&self) -> (r: &Vec<StoredFile>)
        requires
            self.wf(),
        ensures
            distinct_paths(r@),
            files_map(r@) == self@.files,
    {
        &self.files
    }

    /// The directories of the image, each by its path.
    pub fn dirs(&self) -> (r: &Vec<Vec<Vec<u8>>>)
        ensures
            dirs_set(r@) == self@.dirs,
    {
        &self.dirs
    }

    /// Where the working tree lies.
    pub fn worktree(&self) -> (r: &str)
        ensures
            r@ == self@.worktree,
    {
        self.worktree.as_str()
    }

    /// Where the metadata directory lies.
    pub fn gitdir(&self) -> (r: &str)
        ensures
            r@ == self@.gitdir,
    {
        self.gitdir.as_str()
    }

    /// The index of the file at `path` in the list of files.
    fn find_file(&self, path: &[Vec<u8>]) -> (r: Option<usize>)
        ensures
            match r {
                Some(i) => i < self.files@.len() && path_view(self.files@[i as int].path@)
                    == path_view(path@),
                None => forall|k: int|
                    0 <= k < self.files@.len() ==> path_view((#[trigger] self.files@[k]).path@)
                        != path_view(path@),
            },
    {
        let mut i: usize = 0;
        while i < self.files.len()
            invariant
                i <= self.files@.len(),
                forall|k: int|
                    0 <= k < i ==> path_view((#[trigger] self.files@[k]).path@) != path_view(
                        path@,
                    ),
            decreases self.files@.len() - i,
        {
            if path_eq(self.files[i].path.as_slice(), path) {
                return Some(i);
            }
            i = i + 1;
        }
        None
    }

    /// The contents of the file at `path`, where the image holds one.
    pub fn read(&self, path: &[Vec<u8>]) -> (r: Option<&Vec<u8>>)
        requires
            self.wf(),
        ensures
            match r {
                Some(data) => self@.files.contains_key(path_view(path@)) && data@
                    == self@.files[path_view(path@)],
                None => !self@.files.contains_key(path_view(path@)),
            },
    {
        proof {
            lemma_files_map_domain(self.files@);
        }
        match self.find_file(path) {
            Some(i) => {
                proof {
                    lemma_files_map_value(self.files@, i as int);
                }
                Some(&self.files[i].data)
            },
            None => None,
        }
    }

    /// Whether the image holds a file at `path`.
    pub fn is_file(&self, path: &[Vec<u8>]) -> (r: bool)
        requires
            self.wf(),
        ensures
            r == self@.files.contains_key(path_view(path@)),
    {
        self.read(path).is_some()
    }

    /// Whether the image holds a directory at `path`.
    pub fn is_dir(&self, path: &[Vec<u8>]) -> (r: bool)
        ensures
            r == self@.dirs.contains(path_view(path@)),
    {
        let mut i: usize = 0;
        while i < self.dirs.len()
            invariant
                i <= self.dirs@.len(),
                forall|k: int|
                    0 <= k < i ==> path_view(#[trigger] self.dirs@[k]@) != path_view(path@),
            decreases self.dirs@.len() - i,
        {
            if path_eq(self.dirs[i].as_slice(), path) {
                return true;
            }
            i = i + 1;
        }
        false
    }

    /// Whether a file stands at one of the prefixes of `path` of up to `last` segments, the
    /// empty one among them.
    fn file_above(&self, path: &[Vec<u8>], last: usize) -> (r: bool)
        requires
            self.wf(),
            last <= path@.len(),
        ensures
            r == exists|n: int|
                0 <= n <= last && self@.files.contains_key(
                    #[trigger] path_view(path@).subrange(0, n),
                ),
    {
        let ghost p = path_view(path@);
        let mut n: usize = 0;
        loop
            invariant
                self.wf(),
                n <= last <= path@.len(),
                p == path_view(path@),
                forall|k: int| 0 <= k < n ==> !self@.files.contains_key(#[trigger] p.subrange(0, k)),
            ensures
                n == last,
                forall|k: int| 0 <= k <= last ==> !self@.files.contains_key(
                    #[trigger] p.subrange(0, k),
                ),
            decreases last - n,
        {
            let head = vstd::slice::slice_subrange(path, 0, n);
            assert(path_view(head@) =~= p.subrange(0, n as int));
            if self.is_file(head) {
                return true;
            }
            if n == last {
                break;
            }
            n = n + 1;
        }
        false
    }

    /// Adds the prefixes of `path` of up to `last` segments to the directories.
    fn add_dirs(&mut self, path: &[Vec<u8>], last: usize)
        requires
            last <= path@.len(),
        ensures
            final(self).files == old(self).files,
            final(self).worktree == old(self).worktree,
            final(self).gitdir == old(self).gitdir,
            dirs_set(final(self).dirs@) == dirs_set(old(self).dirs@).union(
                Set::new(
                    |d: Seq<Seq<u8>>|
                        d.len() <= last && path_view(path@).subrange(0, d.len() as int) == d,
                ),
            ),
    {
        let ghost p = path_view(path@);
        let ghost start = dirs_set(self.dirs@);
        let mut n: usize = 0;
        assert(dirs_set(self.dirs@) =~= start.union(
            Set::new(|d: Seq<Seq<u8>>| d.len() < 0 && p.subrange(0, d.len() as int) == d),
        ));
        loop
            invariant_except_break
                dirs_set(self.dirs@) == start.union(
                    Set::new(|d: Seq<Seq<u8>>| d.len() < n && p.subrange(0, d.len() as int) == d),
                ),
            invariant
                n <= last <= path@.len(),
                p == path_view(path@),
                self.files == old(self).files,
                self.worktree == old(self).worktree,
                self.gitdir == old(self).gitdir,
                start == dirs_set(old(self).dirs@),
            ensures
                self.files == old(self).files,
                self.worktree == old(self).worktree,
                self.gitdir == old(self).gitdir,
                dirs_set(self.dirs@) == start.union(
                    Set::new(
                        |d: Seq<Seq<u8>>| d.len() <= last && p.subrange(0, d.len() as int) == d,
                    ),
                ),
            decreases last - n,
        {
            let head = vstd::slice::slice_subrange(path, 0, n);
            assert(path_view(head@) =~= p.subrange(0, n as int));
            let ghost before = self.dirs@;
            if !self.is_dir(head) {
                let copy = clone_path(head);
                self.dirs.push(copy);
                assert(path_view(self.dirs@[before.len() as int]@) == p.subrange(0, n as int));
                assert forall|k: int| 0 <= k < before.len() implies self.dirs@[k] == before[k] by {}
            }
            proof {
                let target = start.union(
                    Set::new(|d: Seq<Seq<u8>>| d.len() <= n && p.subrange(0, d.len() as int) == d),
                );
                let now = dirs_set(self.dirs@);
                assert forall|d: Seq<Seq<u8>>| now.contains(d) == target.contains(d) by {
                    if now.contains(d) {
                        let k = choose|k: int|
                            0 <= k < self.dirs@.len() && path_view(#[trigger] self.dirs@[k]@) == d;
                        if k < before.len() {
                            assert(self.dirs@[k] == before[k]);
                            assert(dirs_set(before).contains(d));
                        }
                    }
                    if target.contains(d) {
                        if dirs_set(before).contains(d) {
                            let k = choose|k: int|
                                0 <= k < before.len() && path_view(#[trigger] before[k]@) == d;
                            assert(self.dirs@[k] == before[k]);
                        } else {
                            assert(d == p.subrange(0, n as int));
                        }
                    }
                }
                assert(now =~= target);
                assert(target =~= start.union(
                    Set::new(
                        |d: Seq<Seq<u8>>| d.len() < n + 1 && p.subrange(0, d.len() as int) == d,
                    ),
                ));
            }
            if n == last {
                break;
            }
            n = n + 1;
        }
    }

    /// Creates the directory `path` and those above it. Nothing changes where a file
    /// stands in the way.
    pub fn make_dirs(&mut self, path: &[Vec<u8>]) -> (r: bool)
        requires
            old(self).wf(),
        ensures
            final(self).wf(),
            r == can_make_dirs(old(self)@, path_view(path@)),
            r ==> final(self)@ == with_dirs(old(self)@, path_view(path@)),
            !r ==> final(self)@ == old(self)@,
    {
        let ghost p = path_view(path@);
        let blocked = self.file_above(path, path.len());
        proof {
            if blocked {
                let n = choose|n: int|
                    0 <= n <= path@.len() && self@.files.contains_key(
                        #[trigger] p.subrange(0, n),
                    );
                assert(prefixes(p).contains(p.subrange(0, n))) by {
                    assert(p.subrange(0, p.subrange(0, n).len() as int) =~= p.subrange(0, n));
                }
            } else {
                assert forall|d: Seq<Seq<u8>>| #[trigger]
                    prefixes(p).contains(d) implies !self@.files.contains_key(d) by {
                    assert(d == p.subrange(0, d.len() as int));
                }
            }
        }
        if blocked {
            return false;
        }
        self.add_dirs(path, path.len());
        proof {
            assert(Set::new(
                |d: Seq<Seq<u8>>| d.len() <= path@.len() && p.subrange(0, d.len() as int) == d,
            ) =~= prefixes(p));
        }
        true
    }

    /// Puts `data` into the file at `path`, new or not, and creates the directories above
    /// it. Nothing changes where the path is empty or a directory, or a file stands above
    /// it.
    pub fn store(&mut self, path: &[Vec<u8>], data: Vec<u8>) -> (r: bool)
        requires
            old(self).wf(),
        ensures
            final(self).wf(),
            r == can_store(old(self)@, path_view(path@)),
            r ==> final(self)@ == with_file(old(self)@, path_view(path@), data@),
            !r ==> final(self)@ == old(self)@,
    {
        let ghost p = path_view(path@);
        if path.len() == 0 {
            return false;
        }
        if self.is_dir(path) {
            return false;
        }
        let blocked = self.file_above(path, path.len() - 1);
        proof {
            if blocked {
                let n = choose|n: int|
                    0 <= n <= path@.len() - 1 && self@.files.contains_key(
                        #[trigger] p.subrange(0, n),
                    );
                assert(ancestors(p).contains(p.subrange(0, n))) by {
                    assert(p.subrange(0, p.subrange(0, n).len() as int) =~= p.subrange(0, n));
                }
            } else {
                assert forall|d: Seq<Seq<u8>>| #[trigger]
                    ancestors(p).contains(d) implies !self@.files.contains_key(d) by {
                    assert(d == p.subrange(0, d.len() as int));
                }
            }
        }
        if blocked {
            return false;
        }
        self.add_dirs(path, path.len() - 1);
        proof {
            assert(Set::new(
                |d: Seq<Seq<u8>>| d.len() <= path@.len() - 1 && p.subrange(0, d.len() as int) == d,
            ) =~= ancestors(p));
            lemma_files_map_domain(self.files@);
        }
        let file = StoredFile { path: clone_path(path), data };
        match self.find_file(path) {
            Some(i) => {
                proof {
                    lemma_files_map_update(self.files@, i as int, file);
                }
                self.files.set(i, file);
            },
            None => {
                let ghost before = self.files@;
                self.files.push(file);
                proof {
                    assert(self.files@.drop_last() =~= before);
                    assert forall|a: int, b: int| 0 <= a < b < self.files@.len() implies path_view(
                        (#[trigger] self.files@[a]).path@,
                    ) != path_view((#[trigger] self.files@[b]).path@) by {
                        assert(self.files@[a] == before[a]);
                        if b < before.len() {
                            assert(self.files@[b] == before[b]);
                        }
                    }
                }
            },
        }
        true
    }

    /// The text of the path of `paths` below the metadata directory.
    pub fn compute_repo_path(&self, paths: &[&str]) -> (r: String)
        ensures
            r@ == joined(self@.gitdir, paths@),
    {
        let mut out = self.gitdir.clone();
        let mut i: usize = 0;
        assert(paths@.subrange(0, 0) =~= Seq::<&str>::empty());
        while i < paths.len()
            invariant
                i <= paths@.len(),
                out@ == joined(self.gitdir@, paths@.subrange(0, i as int)),
            decreases paths@.len() - i,
        {
            proof {
                reveal_strlit("/");
                let next = paths@.subrange(0, i + 1);
                assert(next.drop_last() =~= paths@.subrange(0, i as int));
                assert(next.last() == paths@[i as int]);
                assert("/"@ =~= seq!['/']);
            }
            out.append("/");
            out.append(paths[i]);
            i = i + 1;
        }
        assert(paths@.subrange(0, paths@.len() as int) =~= paths@);
        out
    }

    /// The text of the path of the file at `paths`, where the image holds that file.
    pub fn get_path_to_file_if_exists(&self, paths: &[&str]) -> (r: Option<String>)
        requires
            self.wf(),
        ensures
            match r {
                Some(path) => self@.files.contains_key(path_of(paths@)) && path@ == joined(
                    self@.gitdir,
                    paths@,
                ),
                None => !self@.files.contains_key(path_of(paths@)),
            },
    {
        let path = to_path(paths);
        if self.is_file(path.as_slice()) {
            Some(self.compute_repo_path(paths))
        } else {
            None
        }
    }

    /// The text of the path of the directory at `paths`, where the image holds that
    /// directory.
    pub fn get_path_to_dir_if_exists(&self, paths: &[&str]) -> (r: Option<String>)
        ensures
            match r {
                Some(path) => self@.dirs.contains(path_of(paths@)) && path@ == joined(
                    self@.gitdir,
                    paths@,
                ),
                None => !self@.dirs.contains(path_of(paths@)),
            },
    {
        let path = to_path(paths);
        if self.is_dir(path.as_slice()) {
            Some(self.compute_repo_path(paths))
        } else {
            None
        }
    }

    /// Creates an empty file at `paths`, or empties the file that stands there, and creates
    /// the directories above it. Gives the text of its path, or `None` where the file cannot
    /// be created; nothing changes then.
    pub fn create_file(&mut self, paths: &[&str]) -> (r: Option<String>)
        requires
            old(self).wf(),
        ensures
            final(self).wf(),
            match r {
                Some(path) => can_store(old(self)@, path_of(paths@)) && final(self)@ == with_file(
                    old(self)@,
                    path_of(paths@),
                    Seq::empty(),
                ) && path@ == joined(old(self)@.gitdir, paths@),
                None => !can_store(old(self)@, path_of(paths@)) && final(self)@ == old(self)@,
            },
    {
        let path = to_path(paths);
        if self.store(path.as_slice(), Vec::new()) {
            Some(self.compute_repo_path(paths))
        } else {
            None
        }
    }

    /// Compresses `data` and puts it into the file at `paths`, new or not. Gives the text
    /// of its path, or `None` where the compressor fails or the file cannot be created;
    /// nothing changes then.
    pub fn upsert_file(&mut self, paths: &[&str], data: &Vec<u8>) -> (r: Option<String>)
        requires
            old(self).wf(),
        ensures
            final(self).wf(),
            match r {
                Some(path) => can_store(old(self)@, path_of(paths@)) && zlib_encoded(data@) is Some
                    && final(self)@ == with_file(
                    old(self)@,
                    path_of(paths@),
                    zlib_encoded(data@)->0,
                ) && path@ == joined(old(self)@.gitdir, paths@),
                None => (zlib_encoded(data@) is None || !can_store(old(self)@, path_of(paths@)))
                    && final(self)@ == old(self)@,
            },
    {
        let stored = match deflate(data.as_slice()) {
            Some(bytes) => bytes,
            None => {
                return None;
            },
        };
        let path = to_path(paths);
        if self.store(path.as_slice(), stored) {
            Some(self.compute_repo_path(paths))
        } else {
            None
        }
    }

    /// Whether `path`, the text of a path without `.` and `..` in it, lies in the working
    /// tree: it is the working tree or begins with it and a slash.
    pub fn contains(&self, path: &str) -> (r: bool)
        ensures
            r == is_below(utf8(path@), utf8(self@.worktree)),
    {
        let p = path.as_bytes();
        let base = self.worktree.as_str().as_bytes();
        if !starts_with(p, base) {
            return false;
        }
        p.len() == base.len() || p[base.len()] == SLASH || (base.len() > 0 && base[base.len() - 1]
            == SLASH)
    }

    /// The paths, below the directory `dir`, of all files that the image holds in it and
    /// in the directories under it.
    pub fn list_below(&self, dir: &[Vec<u8>]) -> (r: Vec<Vec<Vec<u8>>>)
        requires
            self.wf(),
        ensures
            forall|k: int|
                0 <= k < r@.len() ==> path_view((#[trigger] r@[k])@).len() > 0
                    && self@.files.contains_key(path_view(dir@) + path_view(r@[k]@)),
            forall|rel: Seq<Seq<u8>>|
                rel.len() > 0 && #[trigger] self@.files.contains_key(path_view(dir@) + rel)
                    ==> exists|k: int| 0 <= k < r@.len() && path_view((#[trigger] r@[k])@) == rel,
            forall|a: int, b: int|
                0 <= a < b < r@.len() ==> path_view((#[trigger] r@[a])@) != path_view(
                    (#[trigger] r@[b])@,
                ),
    {
        let ghost d = path_view(dir@);
        let mut out: Vec<Vec<Vec<u8>>> = Vec::new();
        let ghost mut source: Seq<int> = Seq::empty();
        let mut i: usize = 0;
        while i < self.files.len()
            invariant
                self.wf(),
                i <= self.files@.len(),
                d == path_view(dir@),
                source.len() == out@.len(),
                forall|k: int|
                    0 <= k < out@.len() ==> 0 <= #[trigger] source[k] < i && path_view(
                        self.files@[source[k]].path@,
                    ) == d + path_view(out@[k]@) && path_view(out@[k]@).len() > 0,
                forall|a: int, b: int| 0 <= a < b < out@.len() ==> #[trigger] source[a] < #[trigger] source[b],
                forall|j: int|
                    0 <= j < i && path_view((#[trigger] self.files@[j]).path@).len() > d.len()
                        && prefixes(path_view(self.files@[j].path@)).contains(d) ==> exists|k: int|
                        0 <= k < out@.len() && #[trigger] source[k] == j,
            decreases self.files@.len() - i,
        {
            let file = &self.files[i];
            let ghost p = path_view(file.path@);
            let ghost before = out@;
            let ghost before_source = source;
            if file.path.len() > dir.len() && path_starts_with(file.path.as_slice(), dir) {
                let rel = clone_path(
                    vstd::slice::slice_subrange(file.path.as_slice(), dir.len(), file.path.len()),
                );
                proof {
                    assert(p.subrange(0, d.len() as int) == d);
                    assert(path_view(rel@) =~= p.subrange(d.len() as int, p.len() as int));
                    assert(p =~= d + path_view(rel@));
                    source = source.push(i as int);
                }
                out.push(rel);
                proof {
                    assert forall|k: int| 0 <= k < out@.len() implies 0 <= #[trigger] source[k] < i
                        + 1 && path_view(self.files@[source[k]].path@) == d + path_view(out@[k]@)
                        && path_view(out@[k]@).len() > 0 by {
                        if k < before.len() {
                            assert(out@[k] == before[k]);
                            assert(source[k] == before_source[k]);
                        }
                    }
                    assert forall|a: int, b: int| 0 <= a < b < out@.len() implies #[trigger] source[a]
                        < #[trigger] source[b] by {
                        assert(source[a] == before_source[a]);
                        if b < before.len() {
                            assert(source[b] == before_source[b]);
                        }
                    }
                    assert(source[before.len() as int] == i);
                }
            }
            proof {
                assert forall|j: int|
                    0 <= j < i + 1 && path_view((#[trigger] self.files@[j]).path@).len() > d.len()
                        && prefixes(path_view(self.files@[j].path@)).contains(d) implies exists|
                    k: int,
                | 0 <= k < out@.len() && #[trigger] source[k] == j by {
                    if j < i {
                        let k = choose|k: int|
                            0 <= k < before.len() && #[trigger] before_source[k] == j;
                        assert(source[k] == j);
                    } else {
                        assert(source[out@.len() - 1] == j);
                    }
                }
            }
            i = i + 1;
        }
        proof {
            lemma_files_map_domain(self.files@);
            assert forall|k: int| 0 <= k < out@.len() implies path_view((#[trigger] out@[k])@).len()
                > 0 && self@.files.contains_key(d + path_view(out@[k]@)) by {
                let j = source[k];
                assert(self@.files.contains_key(path_view(self.files@[j].path@)));
            }
            assert forall|rel: Seq<Seq<u8>>|
                rel.len() > 0 && #[trigger] self@.files.contains_key(d + rel) implies exists|k: int|
                0 <= k < out@.len() && path_view((#[trigger] out@[k])@) == rel by {
                let j = choose|j: int|
                    0 <= j < self.files@.len() && path_view((#[trigger] self.files@[j]).path@) == d
                        + rel;
                assert((d + rel).subrange(0, d.len() as int) =~= d);
                let k = choose|k: int| 0 <= k < out@.len() && #[trigger] source[k] == j;
                assert(d + path_view(out@[k]@) == d + rel);
                assert(path_view(out@[k]@) =~= (d + path_view(out@[k]@)).subrange(
                    d.len() as int,
                    (d + path_view(out@[k]@)).len() as int,
                ));
                assert(rel =~= (d + rel).subrange(d.len() as int, (d + rel).len() as int));
            }
            assert forall|a: int, b: int| 0 <= a < b < out@.len() implies path_view(
                (#[trigger] out@[a])@,
            ) != path_view((#[trigger] out@[b])@) by {
                assert(source[a] < source[b]);
                let fa = self.files@[source[a]];
                let fb = self.files@[source[b]];
                assert(path_view(fa.path@) != path_view(fb.path@));
            }
        }
        out
    }
}

/// Whether the path that the bytes `path` spell lies at or below the one that `base`
/// spells.
pub open spec fn is_below(path: Seq<u8>, base: Seq<u8>) -> bool {
    is_prefix(base, path) && (path.len() == base.len() || path[base.len() as int] == SLASH || (
    base.len() > 0 && base.last() == SLASH))
}

/// A list of files with distinct paths has as many files as its map has paths.
pub proof fn lemma_count(files: Seq<StoredFile>)
    requires
        distinct_paths(files),
    ensures
        files_map(files).dom().finite(),
        files_map(files).dom().len() == files.len(),
    decreases files.len(),
{
    if files.len() > 0 {
        let front = files.drop_last();
        assert(distinct_paths(front)) by {
            assert forall|a: int, b: int| 0 <= a < b < front.len() implies path_view(
                (#[trigger] front[a]).path@,
            ) != path_view((#[trigger] front[b]).path@) by {
                assert(front[a] == files[a] && front[b] == files[b]);
            }
        }
        lemma_count(front);
        lemma_files_map_domain(front);
        let p = path_view(files.last().path@);
        assert(!files_map(front).contains_key(p)) by {
            if files_map(front).contains_key(p) {
                let i = choose|i: int|
                    0 <= i < front.len() && path_view((#[trigger] front[i]).path@) == p;
                assert(front[i] == files[i]);
                assert(path_view(files[i].path@) != path_view(files[files.len() - 1].path@));
            }
        }
        assert(files_map(files).dom() =~= files_map(front).dom().insert(p));
    }
}

} // verus!
