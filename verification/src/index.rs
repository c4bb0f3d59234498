//! The index: the list of the files that are staged, with what was known of each when it
//! was staged.
//!
//! The file of the index holds the four bytes `DIRC`, the version in four bytes, the number
//! of entries in four bytes, and the entries. An entry is the time of the last change in
//! seconds in eight bytes, the 20 bytes of the digest, the size in eight bytes, the length
//! of the path in two bytes, and the path. All numbers have their high byte first.

use vstd::prelude::*;

use crate::bytes::{append, subvec};
use crate::digest::{from_hex, hex_decode, hex_encode, is_digest, is_hex, to_hex};

use crate::object::error::{ErrorView, ObjectError};
use crate::object::{write_spec, GitrsObject, ObjectType};
use crate::repository::{
    can_store, is_below, path_view, with_file, Repository, RepositoryView,
};
use crate::text::{lemma_text_of_utf8, string_from_utf8, text_of, utf8};

verus! {

/// The version of the format that is read and written.
pub const INDEX_VERSION: u32 = 2;

/// The length of an entry without its path.
pub const ENTRY_HEAD: usize = 38;

/// What an entry of the index holds.
pub struct EntryView {
    pub mtime: u64,
    pub sha: Seq<char>,
    pub size_in_bytes: u64,
    pub path: Seq<char>,
}

/// One staged file.
#[derive(Debug, Clone, PartialEq, Eq)]
pub struct IndexEntry {
    /// When the file was last changed, in seconds since the first of January 1970.
    pub mtime: u64,
    /// The digest of the blob of the file, in 40 hexadecimal digits.
    pub sha: String,
    /// The size of the file in bytes.
    pub size_in_bytes: u64,
    /// The path of the file, from the root of the file system.
    pub path: String,
}

/// The staging area.
pub struct Index {
    pub version: u32,
    pub entries: Vec<IndexEntry>,
}

/// A file of the working tree as it is handed over for staging.
#[derive(Debug, Clone, PartialEq, Eq)]
pub struct WorkFile {
    /// The path of the file from the root of the file system, without `.` and `..` in it.
    pub path: String,
    /// The contents of the file.
    pub data: Vec<u8>,
    /// When the file was last changed, in seconds since the first of January 1970.
    pub mtime: u64,
    /// The size of the file in bytes.
    pub size_in_bytes: u64,
}

impl View for IndexEntry {
    type V = EntryView;

    open spec fn view(&self) -> EntryView {
        EntryView {
            mtime: self.mtime,
            sha: self.sha@,
            size_in_bytes: self.size_in_bytes,
            path: self.path@,
        }
    }
}

/// The function that gives each entry what it holds.
pub open spec fn entry_view() -> spec_fn(IndexEntry) -> EntryView {
    |e: IndexEntry| e@
}

/// What a list of entries holds.
pub open spec fn entry_views(entries: Seq<IndexEntry>) -> Seq<EntryView> {
    entries.map_values(entry_view())
}

/// The bytes of the magic word `DIRC`.
pub open spec fn magic() -> Seq<u8> {
    seq![68u8, 73u8, 82u8, 67u8]
}

/// The number `value` in `width` bytes, the high byte first.
pub open spec fn be_bytes(value: nat, width: nat) -> Seq<u8>
    decreases width,
{
    if width == 0 {
        Seq::empty()
    } else {
        be_bytes(value / 256, (width - 1) as nat).push((value % 256) as u8)
    }
}

/// The number that bytes spell, the high byte first.
pub open spec fn be_value(bytes: Seq<u8>) -> nat
    decreases bytes.len(),
{
    if bytes.len() == 0 {
        0
    } else {
        be_value(bytes.drop_last()) * 256 + bytes.last() as nat
    }
}

/// The number of values that `width` bytes can spell.
pub open spec fn span(width: nat) -> nat
    decreases width,
{
    if width == 0 {
        1
    } else {
        256 * span((width - 1) as nat)
    }
}

/// A number in `width` bytes has `width` bytes, and they spell the number where it is
/// small enough for them.
pub proof fn lemma_be_round_trip(value: nat, width: nat)
    ensures
        be_bytes(value, width).len() == width,
        value < span(width) ==> be_value(be_bytes(value, width)) == value,
    decreases width,
{
    if width > 0 {
        lemma_be_round_trip(value / 256, (width - 1) as nat);
        let bytes = be_bytes(value, width);
        assert(bytes.drop_last() =~= be_bytes(value / 256, (width - 1) as nat));
        if value < span(width) {
            assert(value / 256 < span((width - 1) as nat));
        }
    }
}

/// What bytes spell is less than the number of values that so many bytes can spell.
pub proof fn lemma_be_value_bound(bytes: Seq<u8>)
    ensures
        be_value(bytes) < span(bytes.len()),
    decreases bytes.len(),
{
    if bytes.len() > 0 {
        lemma_be_value_bound(bytes.drop_last());
    }
}

/// Two, four and eight bytes spell the numbers of 16, 32 and 64 bits.
pub proof fn lemma_spans()
    ensures
        span(2) == 0x1_0000,
        span(4) == 0x1_0000_0000,
        span(8) == 0x1_0000_0000_0000_0000,
{
    reveal_with_fuel(span, 9);
}

/// Whether an entry can be encoded: its digest is 40 hexadecimal digits and its path
/// has at most 65535 bytes.
pub open spec fn valid_entry(e: EntryView) -> bool {
    is_hex(e.sha) && e.sha.len() == 40 && utf8(e.path).len() <= 0xffff
}

/// Whether every entry of a list can be encoded.
pub open spec fn valid_entries(entries: Seq<EntryView>) -> bool {
    forall|i: int| 0 <= i < entries.len() ==> valid_entry(#[trigger] entries[i])
}

/// The encoding of one entry.
pub open spec fn entry_bytes(e: EntryView) -> Seq<u8> {
    be_bytes(e.mtime as nat, 8) + from_hex(e.sha) + be_bytes(e.size_in_bytes as nat, 8) + be_bytes(
        utf8(e.path).len(),
        2,
    ) + utf8(e.path)
}

/// The encoding of a list of entries, one behind the other.
pub open spec fn entries_bytes(entries: Seq<EntryView>) -> Seq<u8>
    decreases entries.len(),
{
    if entries.len() == 0 {
        Seq::empty()
    } else {
        entries_bytes(entries.drop_last()) + entry_bytes(entries.last())
    }
}

/// The contents of the file of an index with the entries `entries`.
pub open spec fn index_bytes(entries: Seq<EntryView>) -> Seq<u8> {
    magic() + be_bytes(INDEX_VERSION as nat, 4) + be_bytes(entries.len(), 4) + entries_bytes(
        entries,
    )
}

/// The entry that stands at `pos` in `data`, and the index behind it. `None` where the
/// data end before the entry does, or where the path is not UTF-8.
#[verifier::opaque]
pub open spec fn take_entry(data: Seq<u8>, pos: int) -> Option<(EntryView, int)> {
    if pos < 0 || data.len() - pos < ENTRY_HEAD {
        None
    } else {
        let len = be_value(data.subrange(pos + 36, pos + 38));
        if data.len() - (pos + 38) < len {
            None
        } else {
            match text_of(data.subrange(pos + 38, pos + 38 + len)) {
                None => None,
                Some(path) => Some(
                    (
                        EntryView {
                            mtime: be_value(data.subrange(pos, pos + 8)) as u64,
                            sha: to_hex(data.subrange(pos + 8, pos + 28)),
                            size_in_bytes: be_value(data.subrange(pos + 28, pos + 36)) as u64,
                            path,
                        },
                        pos + 38 + len,
                    ),
                ),
            }
        }
    }
}

/// The `count` entries that stand in `data` from `pos` on, behind the entries read so
/// far. `None` where one of them cannot be read.
pub open spec fn take_entries(data: Seq<u8>, pos: int, count: nat, entries: Seq<EntryView>) -> Option<
    Seq<EntryView>,
>
    decreases count,
{
    if count == 0 {
        Some(entries)
    } else {
        match take_entry(data, pos) {
            None => None,
            Some((e, next)) => take_entries(data, next, (count - 1) as nat, entries.push(e)),
        }
    }
}

/// The entries that the contents of the file of an index hold. `None` where the contents
/// are shorter than twelve bytes, do not begin with the magic word, are of another version
/// than 2, or hold fewer entries than they say.
pub open spec fn parse_index(data: Seq<u8>) -> Option<Seq<EntryView>> {
    if data.len() < 12 || data.subrange(0, 4) != magic() {
        None
    } else if be_value(data.subrange(4, 8)) != INDEX_VERSION {
        None
    } else {
        take_entries(data, 12, be_value(data.subrange(8, 12)), Seq::empty())
    }
}

/// The path of the file of the index.
pub open spec fn index_path() -> Seq<Seq<u8>> {
    seq![utf8("index"@)]
}

/// What a file holds that is handed over for staging.
pub struct WorkFileView {
    pub path: Seq<char>,
    pub data: Seq<u8>,
    pub mtime: u64,
    pub size_in_bytes: u64,
}

impl View for WorkFile {
    type V = WorkFileView;

    open spec fn view(&self) -> WorkFileView {
        WorkFileView {
            path: self.path@,
            data: self.data@,
            mtime: self.mtime,
            size_in_bytes: self.size_in_bytes,
        }
    }
}

/// The function that gives each file what it holds.
pub open spec fn work_file_view() -> spec_fn(WorkFile) -> WorkFileView {
    |f: WorkFile| f@
}

/// What a list of files holds.
pub open spec fn work_file_views(files: Seq<WorkFile>) -> Seq<WorkFileView> {
    files.map_values(work_file_view())
}

/// The entries without those of the path `path`.
pub open spec fn without_path(entries: Seq<EntryView>, path: Seq<char>) -> Seq<EntryView>
    decreases entries.len(),
{
    if entries.len() == 0 {
        Seq::empty()
    } else if entries.last().path == path {
        without_path(entries.drop_last(), path)
    } else {
        without_path(entries.drop_last(), path).push(entries.last())
    }
}

/// The entries without those of a path are entries that were there, and no more than were
/// there.
pub proof fn lemma_without_path(entries: Seq<EntryView>, path: Seq<char>)
    ensures
        without_path(entries, path).len() <= entries.len(),
        valid_entries(entries) ==> valid_entries(without_path(entries, path)),
        forall|i: int|
            0 <= i < without_path(entries, path).len() ==> (#[trigger] without_path(
                entries,
                path,
            )[i]).path != path,
    decreases entries.len(),
{
    if entries.len() > 0 {
        let front = entries.drop_last();
        lemma_without_path(front, path);
        if valid_entries(entries) {
            assert(valid_entries(front)) by {
                assert forall|i: int| 0 <= i < front.len() implies valid_entry(
                    #[trigger] front[i],
                ) by {
                    assert(front[i] == entries[i]);
                }
            }
            assert(valid_entry(entries[entries.len() - 1]));
        }
    }
}

/// How far staging came: the repository with the blobs that were written, the entries of
/// the index, and the failure that ended it.
pub struct Staged {
    pub repository: RepositoryView,
    pub entries: Seq<EntryView>,
    pub failure: Option<ErrorView>,
}

/// What staging the files `files`, one after the other, makes of a repository and of the
/// entries of an index. The blob of each file is written, and an entry for the file comes
/// last in the index, in the place of the entries that the index had for its path. The
/// first file that lies outside the working tree, or whose blob cannot be written, ends
/// the staging; what was done before it stays.
pub open spec fn stage(v: RepositoryView, entries: Seq<EntryView>, files: Seq<WorkFileView>) -> Staged
    decreases files.len(),
{
    if files.len() == 0 {
        Staged { repository: v, entries, failure: None }
    } else {
        let before = stage(v, entries, files.drop_last());
        let file = files.last();
        if before.failure is Some {
            before
        } else if !is_below(utf8(file.path), utf8(v.worktree)) {
            Staged {
                repository: before.repository,
                entries: before.entries,
                failure: Some(ErrorView::OutsideWorktree),
            }
        } else {
            match write_spec(before.repository, ObjectType::Blob, file.data) {
                Err(e) => Staged {
                    repository: before.repository,
                    entries: before.entries,
                    failure: Some(e),
                },
                Ok((sha, after)) => Staged {
                    repository: after,
                    entries: without_path(before.entries, file.path).push(
                        EntryView {
                            mtime: file.mtime,
                            sha,
                            size_in_bytes: file.size_in_bytes,
                            path: file.path,
                        },
                    ),
                    failure: None,
                },
            }
        }
    }
}

/// Staging keeps the place of the working tree.
pub proof fn lemma_stage_keeps_worktree(
    v: RepositoryView,
    entries: Seq<EntryView>,
    files: Seq<WorkFileView>,
)
    ensures
        stage(v, entries, files).repository.worktree == v.worktree,
    decreases files.len(),
{
    if files.len() > 0 {
        lemma_stage_keeps_worktree(v, entries, files.drop_last());
    }
}

/// A failure among the first files is the failure of the whole staging.
proof fn lemma_stage_fails(
    v: RepositoryView,
    entries: Seq<EntryView>,
    files: Seq<WorkFileView>,
    upto: int,
)
    requires
        0 <= upto <= files.len(),
        stage(v, entries, files.subrange(0, upto)).failure is Some,
    ensures
        stage(v, entries, files) == stage(v, entries, files.subrange(0, upto)),
    decreases files.len() - upto,
{
    if upto == files.len() {
        assert(files.subrange(0, upto) =~= files);
    } else {
        let next = files.subrange(0, upto + 1);
        assert(next.drop_last() =~= files.subrange(0, upto));
        lemma_stage_fails(v, entries, files, upto + 1);
    }
}

/// Appends `value` in `width` bytes, the high byte first.
pub fn put_be(out: &mut Vec<u8>, value: u64, width: usize)
    ensures
        final(out)@ == old(out)@ + be_bytes(value as nat, width as nat),
    decreases width,
{
    if width == 0 {
        assert(out@ =~= old(out)@ + Seq::<u8>::empty());
    } else {
        put_be(out, value / 256, width - 1);
        out.push((value % 256) as u8);
        assert(out@ =~= old(out)@ + be_bytes(value as nat, width as nat));
    }
}

/// Reads the number that the `width` bytes of `data` from `from` on spell.
fn get_be(data: &[u8], from: usize, width: usize) -> (r: u64)
    requires
        width <= 8,
        from + width <= data@.len(),
    ensures
        r == be_value(data@.subrange(from as int, from + width)),
{
    let mut value: u64 = 0;
    let mut i: usize = 0;
    assert(data@.subrange(from as int, from as int) =~= Seq::<u8>::empty());
    while i < width
        invariant
            i <= width <= 8,
            from + width <= data@.len(),
            value == be_value(data@.subrange(from as int, from + i)),
        decreases width - i,
    {
        let ghost before = data@.subrange(from as int, from + i);
        let ghost after = data@.subrange(from as int, from + i + 1);
        proof {
            assert(after.drop_last() =~= before);
            assert(after.last() == data@[from + i]);
            lemma_be_value_bound(before);
            lemma_be_value_bound(after);
            lemma_span_monotone(i as nat + 1, 8);
            lemma_spans();
        }
        assert(from + i < data.len());
        value = value * 256 + data[from + i] as u64;
        i = i + 1;
    }
    value
}

/// More bytes spell no fewer values.
proof fn lemma_span_monotone(a: nat, b: nat)
    requires
        a <= b,
    ensures
        span(a) <= span(b),
        span(a) > 0,
    decreases b,
{
    if a < b {
        lemma_span_monotone(a, (b - 1) as nat);
    } else if a > 0 {
        lemma_span_monotone((a - 1) as nat, (a - 1) as nat);
    }
}

impl IndexEntry {
    /// An entry of the index.
    pub fn new(mtime: u64, sha: String, size_in_bytes: u64, path: String) -> (r: IndexEntry)
        ensures
            r@ == (EntryView { mtime, sha: sha@, size_in_bytes, path: path@ }),
    {
        IndexEntry { mtime, sha, size_in_bytes, path }
    }

    /// Whether the entry can be encoded.
    pub fn is_valid(&self) -> (r: bool)
        ensures
            r == valid_entry(self@),
    {
        match hex_decode(self.sha.as_str()) {
            Some(raw) => {
                proof {
                    crate::digest::lemma_hex_is_ascii(self.sha@);
                }
                raw.len() == 20 && self.path.as_str().as_bytes().len() <= 0xffff
            },
            None => false,
        }
    }

    /// Encodes the entry.
    pub fn to_bytes(&self) -> (r: Vec<u8>)
        requires
            valid_entry(self@),
        ensures
            r@ == entry_bytes(self@),
    {
        let mut buf: Vec<u8> = Vec::new();
        put_be(&mut buf, self.mtime, 8);
        match hex_decode(self.sha.as_str()) {
            Some(raw) => {
                append(&mut buf, raw.as_slice());
            },
            None => {},
        }
        put_be(&mut buf, self.size_in_bytes, 8);
        let path = self.path.as_str().as_bytes();
        put_be(&mut buf, path.len() as u64, 2);
        append(&mut buf, path);
        assert(buf@ =~= entry_bytes(self@));
        buf
    }

    /// Reads the entry that stands at `pos` in `data`, and gives the index behind it.
    pub fn take_from(data: &[u8], pos: usize) -> (r: Option<(IndexEntry, usize)>)
        requires
            pos <= data@.len(),
        ensures
            match r {
                Some((entry, next)) => take_entry(data@, pos as int) == Some(
                    (entry@, next as int),
                ) && pos < next <= data@.len(),
                None => take_entry(data@, pos as int) is None,
            },
    {
        proof {
            reveal(take_entry);
        }
        if data.len() - pos < ENTRY_HEAD {
            return None;
        }
        let mtime = get_be(data, pos, 8);
        let sha = hex_encode(vstd::slice::slice_subrange(data, pos + 8, pos + 28));
        let size_in_bytes = get_be(data, pos + 28, 8);
        let len = get_be(data, pos + 36, 2);
        proof {
            lemma_be_value_bound(data@.subrange(pos + 36, pos + 38));
            lemma_spans();
        }
        if ((data.len() - (pos + 38)) as u64) < len {
            return None;
        }
        let len = len as usize;
        let path = match string_from_utf8(subvec(data, pos + 38, pos + 38 + len)) {
            Some(s) => s,
            None => {
                return None;
            },
        };
        Some((IndexEntry { mtime, sha, size_in_bytes, path }, pos + 38 + len))
    }
}

impl Default for Index {
    /// An index without entries, of no version yet.
    fn default() -> (r: Index)
        ensures
            r.version == 0,
            r.entries@.len() == 0,
    {
        Index { version: 0, entries: Vec::new() }
    }
}

impl Index {
    /// Whether the index can be written: every entry can be encoded, and the entries can be
    /// counted in four bytes.
    pub open spec fn wf(&self) -> bool {
        valid_entries(entry_views(self.entries@)) && self.entries@.len() <= u32::MAX
    }

    /// An index without entries, of no version yet.
    pub fn empty() -> (r: Index)
        ensures
            r.version == 0,
            r.entries@.len() == 0,
            r.wf(),
    {
        Index { version: 0, entries: Vec::new() }
    }

    /// Reads the entries that the contents of the file of an index hold.
    pub fn from_bytes(data: &[u8]) -> (r: Option<Index>)
        ensures
            match r {
                Some(index) => parse_index(data@) == Some(entry_views(index.entries@))
                    && index.version == INDEX_VERSION,
                None => parse_index(data@) is None,
            },
    {
        if data.len() < 12 {
            return None;
        }
        if !(data[0] == 68 && data[1] == 73 && data[2] == 82 && data[3] == 67) {
            assert(data@.subrange(0, 4)[0] == data@[0]);
            assert(data@.subrange(0, 4)[1] == data@[1]);
            assert(data@.subrange(0, 4)[2] == data@[2]);
            assert(data@.subrange(0, 4)[3] == data@[3]);
            return None;
        }
        assert(data@.subrange(0, 4) =~= magic());
        let version = get_be(data, 4, 4);
        if version != INDEX_VERSION as u64 {
            return None;
        }
        let count = get_be(data, 8, 4);
        let mut entries: Vec<IndexEntry> = Vec::new();
        let mut pos: usize = 12;
        let mut left: u64 = count;
        assert(entry_views(entries@) =~= Seq::empty());
        while left > 0
            invariant
                pos <= data@.len(),
                parse_index(data@) == take_entries(
                    data@,
                    pos as int,
                    left as nat,
                    entry_views(entries@),
                ),
            decreases left,
        {
            let ghost before = entry_views(entries@);
            match IndexEntry::take_from(data, pos) {
                Some((entry, next)) => {
                    entries.push(entry);
                    assert(entry_views(entries@) =~= before.push(entry@));
                    pos = next;
                },
                None => {
                    return None;
                },
            }
            left = left - 1;
        }
        Some(Index { version: INDEX_VERSION, entries })
    }

    /// The contents of the file of the index.
    pub fn to_bytes(&self) -> (r: Vec<u8>)
        requires
            self.wf(),
        ensures
            r@ == index_bytes(entry_views(self.entries@)),
    {
        let mut out: Vec<u8> = Vec::new();
        out.push(68);
        out.push(73);
        out.push(82);
        out.push(67);
        assert(out@ =~= magic());
        put_be(&mut out, INDEX_VERSION as u64, 4);
        put_be(&mut out, self.entries.len() as u64, 4);
        let ghost head = out@;
        let ghost all = entry_views(self.entries@);
        let mut i: usize = 0;
        assert(all.subrange(0, 0) =~= Seq::empty());
        assert(out@ =~= head + Seq::<u8>::empty());
        while i < self.entries.len()
            invariant
                i <= self.entries@.len(),
                all == entry_views(self.entries@),
                valid_entries(all),
                out@ == head + entries_bytes(all.subrange(0, i as int)),
            decreases self.entries@.len() - i,
        {
            let ghost before = all.subrange(0, i as int);
            let ghost after = all.subrange(0, i + 1);
            proof {
                assert(after.drop_last() =~= before);
                assert(after.last() == self.entries@[i as int]@);
                assert(valid_entry(all[i as int]));
            }
            let bytes = self.entries[i].to_bytes();
            append(&mut out, bytes.as_slice());
            i = i + 1;
            assert(out@ =~= head + entries_bytes(after));
        }
        assert(all.subrange(0, all.len() as int) =~= all);
        out
    }

    /// Reads the index of a repository. A repository without the file of an index has an
    /// index without entries. `None` where the file does not hold an index.
    pub fn read(repository: &Repository) -> (r: Option<Index>)
        requires
            repository.wf(),
        ensures
            match r {
                Some(index) => if repository@.files.contains_key(index_path()) {
                    parse_index(repository@.files[index_path()]) == Some(
                        entry_views(index.entries@),
                    ) && index.version == INDEX_VERSION
                } else {
                    index.entries@.len() == 0 && index.version == 0
                },
                None => repository@.files.contains_key(index_path()) && parse_index(
                    repository@.files[index_path()],
                ) is None,
            },
    {
        let path = Self::path();
        match repository.read(path.as_slice()) {
            Some(data) => Self::from_bytes(data.as_slice()),
            None => Some(Self::empty()),
        }
    }

    /// The path of the file of the index.
    fn path() -> (r: Vec<Vec<u8>>)
        ensures
            path_view(r@) == index_path(),
    {
        let mut path: Vec<Vec<u8>> = Vec::new();
        let name = "index".as_bytes();
        path.push(subvec(name, 0, name.len()));
        assert(name@.subrange(0, name@.len() as int) =~= name@);
        assert(path_view(path@) =~= index_path());
        path
    }

    /// Takes the entries of the path `path` out of the index.
    fn remove_path(&mut self, path: &str)
        ensures
            final(self).version == old(self).version,
            entry_views(final(self).entries@) == without_path(
                entry_views(old(self).entries@),
                path@,
            ),
    {
        let mut rest: Vec<IndexEntry> = Vec::new();
        std::mem::swap(&mut self.entries, &mut rest);
        let ghost all = entry_views(rest@);
        let ghost mut done: int = 0;
        assert(all.subrange(0, 0) =~= Seq::empty());
        assert(entry_views(self.entries@) =~= Seq::empty());
        while rest.len() > 0
            invariant
                0 <= done <= all.len(),
                self.version == old(self).version,
                all == entry_views(old(self).entries@),
                entry_views(rest@) == all.subrange(done, all.len() as int),
                entry_views(self.entries@) == without_path(all.subrange(0, done), path@),
            decreases rest@.len(),
        {
            let ghost kept = entry_views(self.entries@);
            let ghost left = entry_views(rest@);
            let ghost had = rest@;
            proof {
                assert(left.len() == rest@.len());
                assert(left.len() == all.len() - done);
                assert(left[0] == all[done]);
            }
            let entry = rest.remove(0);
            proof {
                assert(left[0] == entry@);
                assert(entry@ == all[done]);
                let next = all.subrange(0, done + 1);
                assert(next.drop_last() =~= all.subrange(0, done));
                assert(next.last() == entry@);
                assert(rest@ =~= had.subrange(1, had.len() as int));
                assert forall|k: int| 0 <= k < rest@.len() implies entry_views(rest@)[k]
                    == all[done + 1 + k] by {
                    assert(rest@[k] == had[k + 1]);
                    assert(left[k + 1] == had[k + 1]@);
                }
                assert(entry_views(rest@) =~= all.subrange(done + 1, all.len() as int));
            }
            if !crate::text::str_eq(entry.path.as_str(), path) {
                self.entries.push(entry);
                assert(entry_views(self.entries@) =~= kept.push(entry@));
            }
            proof {
                done = done + 1;
            }
        }
        assert(all.subrange(0, all.len() as int) =~= all);
    }

    /// Stages the files `files`: writes the blob of each, puts an entry for each last in
    /// the index, in the place of the entries that the index had for its path, and writes
    /// the index. The first file that lies outside the working tree, or whose blob cannot be
    /// written, ends the staging; the index is not written then, and what was done before
    /// stays.
    pub fn add(&mut self, repository: &mut Repository, files: &Vec<WorkFile>) -> (r: Result<
        (),
        ObjectError,
    >)
        requires
            old(self).wf(),
            old(repository).wf(),
            old(self).entries@.len() + files@.len() <= u32::MAX,
            forall|i: int| 0 <= i < files@.len() ==> utf8((#[trigger] files@[i]).path@).len() <= 0xffff,
        ensures
            final(self).wf(),
            final(repository).wf(),
            final(self).version == old(self).version,
            ({
                let staged = stage(
                    old(repository)@,
                    entry_views(old(self).entries@),
                    work_file_views(files@),
                );
                &&& entry_views(final(self).entries@) == staged.entries
                &&& match staged.failure {
                    Some(failure) => r matches Err(e) && e@ == failure && final(repository)@
                        == staged.repository,
                    None => match r {
                        Ok(_) => can_store(staged.repository, index_path()) && final(repository)@
                            == with_file(
                            staged.repository,
                            index_path(),
                            index_bytes(staged.entries),
                        ),
                        Err(e) => e == ObjectError::CannotCreate && !can_store(
                            staged.repository,
                            index_path(),
                        ) && final(repository)@ == staged.repository,
                    },
                }
            }),
    {
        let ghost start = old(repository)@;
        let ghost had = entry_views(old(self).entries@);
        let ghost all = work_file_views(files@);
        let mut i: usize = 0;
        assert(all.subrange(0, 0) =~= Seq::empty());
        while i < files.len()
            invariant
                i <= files@.len(),
                start == old(repository)@,
                had == entry_views(old(self).entries@),
                all == work_file_views(files@),
                self.version == old(self).version,
                repository.wf(),
                self.entries@.len() <= old(self).entries@.len() + i,
                old(self).entries@.len() + files@.len() <= u32::MAX,
                forall|k: int|
                    0 <= k < files@.len() ==> utf8((#[trigger] files@[k]).path@).len() <= 0xffff,
                valid_entries(entry_views(self.entries@)),
                stage(start, had, all.subrange(0, i as int)) == (Staged {
                    repository: repository@,
                    entries: entry_views(self.entries@),
                    failure: None,
                }),
            decreases files@.len() - i,
        {
            let file = &files[i];
            let ghost before = stage(start, had, all.subrange(0, i as int));
            let ghost next = all.subrange(0, i + 1);
            proof {
                assert(next.drop_last() =~= all.subrange(0, i as int));
                assert(next.last() == file@);
                lemma_stage_keeps_worktree(start, had, all.subrange(0, i as int));
            }
            if !repository.contains(file.path.as_str()) {
                proof {
                    lemma_stage_fails(start, had, all, i + 1);
                }
                return Err(ObjectError::OutsideWorktree);
            }
            let sha = match GitrsObject::deserialize_and_write(
                repository,
                file.data.as_slice(),
                ObjectType::Blob,
            ) {
                Ok(sha) => sha,
                Err(e) => {
                    proof {
                        lemma_stage_fails(start, had, all, i + 1);
                    }
                    return Err(e);
                },
            };
            let entry = IndexEntry {
                mtime: file.mtime,
                sha,
                size_in_bytes: file.size_in_bytes,
                path: file.path.clone(),
            };
            proof {
                lemma_without_path(entry_views(self.entries@), file.path@);
            }
            self.remove_path(file.path.as_str());
            let ghost views_before = entry_views(self.entries@);
            self.entries.push(entry);
            proof {
                assert(entry_views(self.entries@) =~= views_before.push(entry@));
                assert(valid_entry(entry@));
                assert forall|k: int| 0 <= k < entry_views(self.entries@).len() implies valid_entry(
                    #[trigger] entry_views(self.entries@)[k],
                ) by {
                    if k < views_before.len() {
                        assert(entry_views(self.entries@)[k] == views_before[k]);
                    }
                }
            }
            i = i + 1;
        }
        assert(all.subrange(0, all.len() as int) =~= all);
        self.write(repository)
    }

    /// Writes the index into its file in the repository, in the place of what the file
    /// held.
    pub fn write(&self, repository: &mut Repository) -> (r: Result<(), ObjectError>)
        requires
            self.wf(),
            old(repository).wf(),
        ensures
            final(repository).wf(),
            match r {
                Ok(_) => can_store(old(repository)@, index_path()) && final(repository)@
                    == with_file(
                    old(repository)@,
                    index_path(),
                    index_bytes(entry_views(self.entries@)),
                ),
                Err(e) => e == ObjectError::CannotCreate && !can_store(
                    old(repository)@,
                    index_path(),
                ) && final(repository)@ == old(repository)@,
            },
    {
        let bytes = self.to_bytes();
        let path = Self::path();
        if repository.store(path.as_slice(), bytes) {
            Ok(())
        } else {
            Err(ObjectError::CannotCreate)
        }
    }
}

/// Whether an entry comes back from its encoding as it is: it can be encoded, and its
/// digest is in lower case.
pub open spec fn plain_entry(e: EntryView) -> bool {
    valid_entry(e) && is_digest(e.sha)
}

/// Whether every entry of a list comes back from its encoding as it is.
pub open spec fn plain_entries(entries: Seq<EntryView>) -> bool {
    forall|i: int| 0 <= i < entries.len() ==> plain_entry(#[trigger] entries[i])
}

/// Reading the encoding of one entry, whatever stands before and behind it, gives the
/// entry and the index behind its encoding.
proof fn lemma_take_entry_bytes(data: Seq<u8>, before: Seq<u8>, e: EntryView, behind: Seq<u8>)
    requires
        data == before + entry_bytes(e) + behind,
        plain_entry(e),
    ensures
        take_entry(data, before.len() as int) == Some(
            (e, (before.len() + entry_bytes(e).len()) as int),
        ),
        entry_bytes(e).len() == 38 + utf8(e.path).len(),
{
    reveal(take_entry);
    let pos = before.len() as int;
    let path = utf8(e.path);
    lemma_spans();
    lemma_be_round_trip(e.mtime as nat, 8);
    lemma_be_round_trip(e.size_in_bytes as nat, 8);
    lemma_be_round_trip(path.len(), 2);
    assert(from_hex(e.sha).len() == 20);
    assert(data.subrange(pos, pos + 8) =~= be_bytes(e.mtime as nat, 8));
    assert(data.subrange(pos + 8, pos + 28) =~= from_hex(e.sha));
    assert(data.subrange(pos + 28, pos + 36) =~= be_bytes(e.size_in_bytes as nat, 8));
    assert(data.subrange(pos + 36, pos + 38) =~= be_bytes(path.len(), 2));
    assert(data.subrange(pos + 38, pos + 38 + path.len()) =~= path);
    lemma_text_of_utf8(e.path);
}

/// Reading entries begins with reading one entry.
proof fn lemma_take_entries_step(
    data: Seq<u8>,
    pos: int,
    count: nat,
    found: Seq<EntryView>,
    e: EntryView,
    next: int,
)
    requires
        count > 0,
        take_entry(data, pos) == Some((e, next)),
    ensures
        take_entries(data, pos, count, found) == take_entries(
            data,
            next,
            (count - 1) as nat,
            found.push(e),
        ),
{
}

/// Reading as many entries as a list has from its encoding, whatever stands before and
/// behind it, passes over the encoding and finds the entries.
proof fn lemma_take_entries_bytes(
    before: Seq<u8>,
    entries: Seq<EntryView>,
    behind: Seq<u8>,
    more: nat,
    found: Seq<EntryView>,
)
    requires
        plain_entries(entries),
    ensures
        take_entries(
            before + entries_bytes(entries) + behind,
            before.len() as int,
            entries.len() + more,
            found,
        ) == take_entries(
            before + entries_bytes(entries) + behind,
            (before.len() + entries_bytes(entries).len()) as int,
            more,
            found + entries,
        ),
    decreases entries.len(),
{
    let data = before + entries_bytes(entries) + behind;
    if entries.len() == 0 {
        assert(found + entries =~= found);
    } else {
        let front = entries.drop_last();
        let last = entries.last();
        assert(plain_entries(front)) by {
            assert forall|i: int| 0 <= i < front.len() implies plain_entry(#[trigger] front[i]) by {
                assert(front[i] == entries[i]);
            }
        }
        assert(plain_entry(entries[entries.len() - 1]));
        let tail = entry_bytes(last) + behind;
        let head = before + entries_bytes(front);
        assert(data == before + entries_bytes(front) + tail) by {
            assert(data =~= before + entries_bytes(front) + tail);
        }
        assert(data == head + entry_bytes(last) + behind) by {
            assert(data =~= head + entry_bytes(last) + behind);
        }
        lemma_take_entries_bytes(before, front, tail, more + 1, found);
        lemma_take_entry_bytes(data, head, last, behind);
        let pos = head.len() as int;
        let next = pos + entry_bytes(last).len();
        lemma_take_entries_step(data, pos, more + 1, found + front, last, next);
        assert((found + front).push(last) == found + entries) by {
            assert((found + front).push(last) =~= found + entries);
        }
    }
}

/// Reading the file of an index gives back the entries that were written: as many, each
/// with its time, its digest, its size and its path. This holds of all entries that can be
/// encoded and whose digests are in lower case, up to as many as four bytes can count.
pub proof fn lemma_index_round_trip(entries: Seq<EntryView>)
    requires
        plain_entries(entries),
        entries.len() <= u32::MAX,
    ensures
        parse_index(index_bytes(entries)) == Some(entries),
{
    let data = index_bytes(entries);
    let head = magic() + be_bytes(INDEX_VERSION as nat, 4) + be_bytes(entries.len(), 4);
    lemma_spans();
    lemma_be_round_trip(INDEX_VERSION as nat, 4);
    lemma_be_round_trip(entries.len(), 4);
    assert(head.len() == 12);
    assert(data.subrange(0, 4) =~= magic());
    assert(data.subrange(4, 8) =~= be_bytes(INDEX_VERSION as nat, 4));
    assert(data.subrange(8, 12) =~= be_bytes(entries.len(), 4));
    assert(data =~= head + entries_bytes(entries) + Seq::<u8>::empty());
    lemma_take_entries_bytes(head, entries, Seq::empty(), 0, Seq::empty());
    assert(Seq::<EntryView>::empty() + entries =~= entries);
}

} // verus!
