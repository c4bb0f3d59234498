//! The tree: the snapshot of a directory.
//!
//! A tree is a list of records. The encoding of a record is its mode, a space, its name, a
//! zero byte and the 20 bytes of the digest of what it names. The records stand in the
//! order of their names, the name of a directory taken with a slash behind it.

use vstd::prelude::*;

use crate::bytes::{
    append, bytes_le, find_byte, first_index_from, lemma_first_index_from, lemma_first_index_is,
    subvec, NUL, SLASH, SPACE,
};
use crate::digest::{from_hex, hex_decode, hex_encode, is_digest, is_hex, lemma_hex_round_trip, to_hex};
use crate::object::error::ObjectError;
use crate::object::{Object, ObjectType};
use crate::sorting::{
    is_sorted, key_of, lemma_sort_items, lemma_sort_map, lemma_sort_spec, lemma_sort_twice,
    path_le, sort, sort_spec, Keyed,
};
use crate::text::{lemma_text_of_utf8, string_from_utf8, text_of, utf8};

verus! {

/// What a record of a tree holds.
pub struct LeafView {
    pub mode: Seq<char>,
    pub path: Seq<char>,
    pub hash: Seq<char>,
}

/// One record of a tree: the mode of an entry of the directory, its name, and the digest
/// of the object that holds it, in 40 hexadecimal digits.
#[derive(Debug, Clone, PartialEq, Eq)]
pub struct Leaf {
    pub file_mode: String,
    pub path: String,
    pub hash: String,
}

/// The snapshot of a directory.
pub struct Tree {
    pub records: Vec<Leaf>,
}

impl View for Leaf {
    type V = LeafView;

    open spec fn view(&self) -> LeafView {
        LeafView { mode: self.file_mode@, path: self.path@, hash: self.hash@ }
    }
}

/// The kind of object that a mode stands for, by its leading digits: `4` of five digits or
/// `04` for a tree, `10` or `12` for a blob, `16` for a commit.
pub open spec fn kind_of_mode(mode: Seq<u8>) -> Option<ObjectType> {
    if mode.len() == 5 {
        if mode[0] == 52 {
            Some(ObjectType::Tree)
        } else {
            None
        }
    } else if mode.len() >= 2 {
        if mode[0] == 48 && mode[1] == 52 {
            Some(ObjectType::Tree)
        } else if mode[0] == 49 && (mode[1] == 48 || mode[1] == 50) {
            Some(ObjectType::Blob)
        } else if mode[0] == 49 && mode[1] == 54 {
            Some(ObjectType::Commit)
        } else {
            None
        }
    } else {
        None
    }
}

/// The name by which a record is ordered: its name, with a slash behind it where the
/// record stands for a directory.
pub open spec fn leaf_key(l: LeafView) -> Seq<u8> {
    if kind_of_mode(utf8(l.mode)) == Some(ObjectType::Tree) {
        utf8(l.path).push(SLASH)
    } else {
        utf8(l.path)
    }
}

/// The encoding of one record.
pub open spec fn leaf_bytes(l: LeafView) -> Seq<u8> {
    utf8(l.mode).push(SPACE) + utf8(l.path).push(NUL) + from_hex(l.hash)
}

/// The encoding of a list of records, one behind the other.
pub open spec fn entries_bytes(records: Seq<LeafView>) -> Seq<u8>
    decreases records.len(),
{
    if records.len() == 0 {
        Seq::empty()
    } else {
        entries_bytes(records.drop_last()) + leaf_bytes(records.last())
    }
}

/// The function that gives each record what it holds.
pub open spec fn leaf_view() -> spec_fn(Leaf) -> LeafView {
    |l: Leaf| l@
}

/// What a list of records holds.
pub open spec fn views(records: Seq<Leaf>) -> Seq<LeafView> {
    records.map_values(leaf_view())
}

/// The function that gives each record the key by which it is ordered.
pub open spec fn leaf_order() -> spec_fn(LeafView) -> Seq<Seq<u8>> {
    |l: LeafView| seq![leaf_key(l)]
}

/// The records in the order of their names, the name of a directory taken with a slash
/// behind it; records with equal names keep their order.
pub open spec fn sorted_records(records: Seq<LeafView>) -> Seq<LeafView> {
    sort_spec(records, leaf_order())
}

/// The payload of a tree with the records `records`: the encoding of the sorted records.
pub open spec fn tree_payload(records: Seq<LeafView>) -> Seq<u8> {
    entries_bytes(sorted_records(records))
}

/// Whether the digest of a record is 40 hexadecimal digits.
pub open spec fn valid_leaf(l: LeafView) -> bool {
    is_hex(l.hash) && l.hash.len() == 40
}

/// Whether every record of the list has a digest of 40 hexadecimal digits.
pub open spec fn valid_records(records: Seq<LeafView>) -> bool {
    forall|i: int| 0 <= i < records.len() ==> valid_leaf(#[trigger] records[i])
}

/// The record that stands at `pos` in `data`, and the index behind it. A mode of five
/// bytes gets a `0` in front. `None` where the space, the zero byte or one of the 20 bytes of
/// the digest is missing, or where the mode or the name is not UTF-8.
pub open spec fn parse_leaf(data: Seq<u8>, pos: int) -> Option<(LeafView, int)> {
    let space = first_index_from(data, SPACE, pos);
    let nul = first_index_from(data, NUL, space);
    if pos < 0 || space >= data.len() || nul >= data.len() || nul + 21 > data.len() {
        None
    } else {
        let raw_mode = data.subrange(pos, space);
        let mode = if raw_mode.len() == 5 {
            seq![48u8] + raw_mode
        } else {
            raw_mode
        };
        match (text_of(mode), text_of(data.subrange(space + 1, nul))) {
            (Some(m), Some(p)) => Some(
                (
                    LeafView { mode: m, path: p, hash: to_hex(data.subrange(nul + 1, nul + 21)) },
                    nul + 21,
                ),
            ),
            _ => None,
        }
    }
}

/// A record that was read ends behind where it began, inside the data, and has a digest
/// of 40 hexadecimal digits.
pub proof fn lemma_parse_leaf(data: Seq<u8>, pos: int)
    requires
        0 <= pos <= data.len(),
    ensures
        parse_leaf(data, pos) matches Some((l, next)) ==> pos < next <= data.len() && is_digest(
            l.hash,
        ) && valid_leaf(l),
{
    lemma_first_index_from(data, SPACE, pos);
    let space = first_index_from(data, SPACE, pos);
    if space < data.len() {
        lemma_first_index_from(data, NUL, space);
        let nul = first_index_from(data, NUL, space);
        if nul + 21 <= data.len() {
            lemma_hex_round_trip(data.subrange(nul + 1, nul + 21));
        }
    }
}

/// What the bytes of `data` from `pos` on add to the records read so far. `None` where a
/// record cannot be read.
pub open spec fn parse_entries(data: Seq<u8>, pos: int, records: Seq<LeafView>) -> Option<
    Seq<LeafView>,
>
    decreases data.len() - pos,
{
    if pos < 0 || pos >= data.len() {
        Some(records)
    } else {
        match parse_leaf(data, pos) {
            Some((l, next)) => {
                proof {
                    lemma_parse_leaf(data, pos);
                }
                parse_entries(data, next, records.push(l))
            },
            None => None,
        }
    }
}

/// The records that the payload `data` holds.
pub open spec fn parse_tree(data: Seq<u8>) -> Option<Seq<LeafView>> {
    parse_entries(data, 0, Seq::empty())
}

/// The kind that the bytes of a mode stand for.
fn mode_kind(mode: &[u8]) -> (r: Option<ObjectType>)
    ensures
        r == kind_of_mode(mode@),
{
    if mode.len() == 5 {
        if mode[0] == 52 {
            Some(ObjectType::Tree)
        } else {
            None
        }
    } else if mode.len() >= 2 {
        if mode[0] == 48 && mode[1] == 52 {
            Some(ObjectType::Tree)
        } else if mode[0] == 49 && (mode[1] == 48 || mode[1] == 50) {
            Some(ObjectType::Blob)
        } else if mode[0] == 49 && mode[1] == 54 {
            Some(ObjectType::Commit)
        } else {
            None
        }
    } else {
        None
    }
}

impl Leaf {
    /// The name by which the record is ordered, as bytes.
    fn key(&self) -> (r: Vec<u8>)
        ensures
            r@ == leaf_key(self@),
    {
        let name = self.path.as_str().as_bytes();
        let mut out = subvec(name, 0, name.len());
        assert(name@.subrange(0, name@.len() as int) =~= name@);
        match mode_kind(self.file_mode.as_str().as_bytes()) {
            Some(ObjectType::Tree) => {
                out.push(SLASH);
            },
            _ => {},
        }
        out
    }

    /// Reads the record that stands at `pos` in `data`, and gives the index behind it.
    pub fn parse(data: &[u8], pos: usize) -> (r: Result<(Leaf, usize), ObjectError>)
        requires
            pos <= data@.len(),
        ensures
            match r {
                Ok((leaf, next)) => parse_leaf(data@, pos as int) == Some((leaf@, next as int)),
                Err(e) => parse_leaf(data@, pos as int) is None && e == ObjectError::Malformed,
            },
    {
        let space = match find_byte(data, SPACE, pos) {
            Some(i) => i,
            None => {
                return Err(ObjectError::Malformed);
            },
        };
        let nul = match find_byte(data, NUL, space) {
            Some(i) => i,
            None => {
                return Err(ObjectError::Malformed);
            },
        };
        if data.len() - nul < 21 {
            return Err(ObjectError::Malformed);
        }
        let mut mode_bytes: Vec<u8> = Vec::new();
        if space - pos == 5 {
            mode_bytes.push(48);
        }
        append(&mut mode_bytes, vstd::slice::slice_subrange(data, pos, space));
        proof {
            let raw_mode = data@.subrange(pos as int, space as int);
            if raw_mode.len() == 5 {
                assert(mode_bytes@ =~= seq![48u8] + raw_mode);
            } else {
                assert(mode_bytes@ =~= raw_mode);
            }
        }
        let file_mode = match string_from_utf8(mode_bytes) {
            Some(s) => s,
            None => {
                return Err(ObjectError::Malformed);
            },
        };
        let path = match string_from_utf8(subvec(data, space + 1, nul)) {
            Some(s) => s,
            None => {
                return Err(ObjectError::Malformed);
            },
        };
        let hash = hex_encode(vstd::slice::slice_subrange(data, nul + 1, nul + 21));
        Ok((Leaf { file_mode, path, hash }, nul + 21))
    }

    /// The kind of object that a record with the mode `file_mode` names.
    pub fn get_type_from_mode(file_mode: &str) -> (r: Result<ObjectType, ObjectError>)
        ensures
            match r {
                Ok(kind) => kind_of_mode(utf8(file_mode@)) == Some(kind),
                Err(e) => kind_of_mode(utf8(file_mode@)) is None && e == ObjectError::Malformed,
            },
    {
        match mode_kind(file_mode.as_bytes()) {
            Some(kind) => Ok(kind),
            None => Err(ObjectError::Malformed),
        }
    }
}

impl Keyed for Leaf {
    open spec fn sort_key(&self) -> Seq<Seq<u8>> {
        seq![leaf_key(self@)]
    }

    fn before_or_equal(&self, other: &Self) -> (r: bool) {
        let a = self.key();
        let b = other.key();
        let ghost ka = self.sort_key();
        let ghost kb = other.sort_key();
        proof {
            assert(ka.drop_first() =~= Seq::<Seq<u8>>::empty());
            assert(path_le(ka.drop_first(), kb.drop_first()));
            if ka[0] == kb[0] {
                crate::bytes::lemma_lex_le_refl(ka[0]);
            }
        }
        bytes_le(a.as_slice(), b.as_slice())
    }
}

/// The sorted list of valid records holds valid records.
pub proof fn lemma_sorted_valid(records: Seq<LeafView>)
    requires
        valid_records(records),
    ensures
        valid_records(sorted_records(records)),
{
    let sorted = sorted_records(records);
    assert forall|i: int| 0 <= i < sorted.len() implies valid_leaf(#[trigger] sorted[i]) by {
        let k = lemma_sort_items(records, leaf_order(), i);
        assert(valid_leaf(records[k]));
    }
}

/// What the sorted records of a tree hold are the sorted records of what the tree holds.
pub proof fn lemma_sorted_views(records: Seq<Leaf>)
    ensures
        views(sort_spec(records, key_of::<Leaf>())) == sorted_records(views(records)),
{
    assert forall|l: Leaf| #[trigger] key_of::<Leaf>()(l) == leaf_order()(leaf_view()(l)) by {}
    lemma_sort_map(records, leaf_view(), key_of::<Leaf>(), leaf_order());
}

impl Object for Tree {
    open spec fn valid(&self) -> bool {
        valid_records(views(self.records@))
    }

    open spec fn payload(&self) -> Seq<u8> {
        tree_payload(views(self.records@))
    }

    open spec fn parses(data: Seq<u8>) -> bool {
        parse_tree(data) is Some
    }

    /// Sorts the records by their names, the name of a directory taken with a slash behind
    /// it, and encodes them in that order.
    fn serialize(&mut self) -> (out: Vec<u8>)
        ensures
            views(final(self).records@) == sorted_records(views(old(self).records@)),
            out@ == entries_bytes(views(final(self).records@)),
    {
        let mut records: Vec<Leaf> = Vec::new();
        std::mem::swap(&mut self.records, &mut records);
        self.records = sort(records);
        proof {
            lemma_sorted_views(old(self).records@);
            lemma_sorted_valid(views(old(self).records@));
            lemma_sort_twice(views(old(self).records@), leaf_order());
        }
        let mut out: Vec<u8> = Vec::new();
        let mut i: usize = 0;
        let ghost all = views(self.records@);
        assert(all.subrange(0, 0) =~= Seq::empty());
        while i < self.records.len()
            invariant
                i <= self.records@.len(),
                all == views(self.records@),
                valid_records(all),
                out@ == entries_bytes(all.subrange(0, i as int)),
            decreases self.records@.len() - i,
        {
            let leaf = &self.records[i];
            let ghost before = all.subrange(0, i as int);
            let ghost after = all.subrange(0, i + 1);
            let ghost start = out@;
            proof {
                assert(after.drop_last() =~= before);
                assert(all[i as int] == leaf@);
                assert(after.last() == leaf@);
                assert(valid_leaf(all[i as int]));
            }
            append(&mut out, leaf.file_mode.as_str().as_bytes());
            out.push(SPACE);
            append(&mut out, leaf.path.as_str().as_bytes());
            out.push(NUL);
            match hex_decode(leaf.hash.as_str()) {
                Some(raw) => {
                    append(&mut out, raw.as_slice());
                },
                None => {},
            }
            assert(out@ =~= start + leaf_bytes(leaf@));
            i = i + 1;
        }
        assert(all.subrange(0, all.len() as int) =~= all);
        out
    }

    /// Reads the records of a tree, one behind the other, until the payload ends.
    fn deserialize(data: &[u8]) -> (r: Result<Self, ObjectError>)
        ensures
            r matches Ok(tree) ==> parse_tree(data@) == Some(views(tree.records@)),
    {
        let mut records: Vec<Leaf> = Vec::new();
        let mut pos: usize = 0;
        assert(views(records@) =~= Seq::empty());
        while pos < data.len()
            invariant
                pos <= data@.len(),
                parse_tree(data@) == parse_entries(data@, pos as int, views(records@)),
                valid_records(views(records@)),
            decreases data@.len() - pos,
        {
            proof {
                lemma_parse_leaf(data@, pos as int);
            }
            let ghost before = views(records@);
            match Leaf::parse(data, pos) {
                Ok((leaf, next)) => {
                    records.push(leaf);
                    assert(views(records@) =~= before.push(leaf@));
                    pos = next;
                },
                Err(_) => {
                    return Err(ObjectError::Malformed);
                },
            }
        }
        Ok(Tree { records })
    }
}

/// Whether a record comes back from its encoding as it is: its mode holds no space and is
/// not five bytes long, its name holds no zero character, and its digest is 40
/// hexadecimal digits in lower case.
pub open spec fn plain_leaf(l: LeafView) -> bool {
    &&& utf8(l.mode).len() != 5
    &&& forall|i: int| 0 <= i < l.mode.len() ==> (#[trigger] l.mode[i]) != ' '
    &&& forall|i: int| 0 <= i < l.path.len() ==> (#[trigger] l.path[i]) != '\0'
    &&& is_digest(l.hash)
}

/// Whether every record of the list comes back from its encoding as it is.
pub open spec fn plain_records(records: Seq<LeafView>) -> bool {
    forall|i: int| 0 <= i < records.len() ==> plain_leaf(#[trigger] records[i])
}

/// The bytes of a record that comes back from its encoding: no space in the mode, no zero
/// byte in the name.
pub proof fn lemma_plain_leaf(l: LeafView)
    requires
        plain_leaf(l),
    ensures
        byte_leaf(l),
{
    crate::text::lemma_utf8_without_char(l.mode, ' ', SPACE);
    crate::text::lemma_utf8_without_char(l.path, '\0', NUL);
}

/// Whether the bytes of a record come back from its encoding as they are.
pub open spec fn byte_leaf(l: LeafView) -> bool {
    &&& utf8(l.mode).len() != 5
    &&& forall|i: int| 0 <= i < utf8(l.mode).len() ==> (#[trigger] utf8(l.mode)[i]) != SPACE
    &&& forall|i: int| 0 <= i < utf8(l.path).len() ==> (#[trigger] utf8(l.path)[i]) != NUL
    &&& is_digest(l.hash)
}

/// Whether the bytes of every record of the list come back as they are.
pub open spec fn byte_records(records: Seq<LeafView>) -> bool {
    forall|i: int| 0 <= i < records.len() ==> byte_leaf(#[trigger] records[i])
}

/// Reading the encoding of one record, whatever stands before and behind it, gives the
/// record and the index behind its encoding.
proof fn lemma_parse_leaf_bytes(data: Seq<u8>, before: Seq<u8>, l: LeafView, behind: Seq<u8>)
    requires
        data == before + leaf_bytes(l) + behind,
        byte_leaf(l),
    ensures
        parse_leaf(data, before.len() as int) == Some(
            (l, (before.len() + leaf_bytes(l).len()) as int),
        ),
{
    let pos = before.len() as int;
    let mb = utf8(l.mode);
    let pb = utf8(l.path);
    let hb = from_hex(l.hash);
    let space = pos + mb.len();
    let nul = space + 1 + pb.len();
    assert(hb.len() == 20);
    assert(leaf_bytes(l).len() == mb.len() + 1 + pb.len() + 1 + 20);
    assert forall|t: int| pos <= t < space implies data[t] != SPACE by {
        assert(data[t] == mb[t - pos]);
    }
    assert(data[space] == SPACE);
    lemma_first_index_is(data, SPACE, pos, space);
    assert forall|t: int| space <= t < nul implies data[t] != NUL by {
        if t > space {
            assert(data[t] == pb[t - space - 1]);
        }
    }
    assert(data[nul] == NUL);
    lemma_first_index_is(data, NUL, space, nul);
    assert(data.subrange(pos, space) =~= mb);
    assert(data.subrange(space + 1, nul) =~= pb);
    assert(data.subrange(nul + 1, nul + 21) =~= hb);
    lemma_text_of_utf8(l.mode);
    lemma_text_of_utf8(l.path);
}

/// Reading the encoding of a list of records, whatever stands behind it, passes over the
/// encoding and finds the records.
proof fn lemma_parse_entries_bytes(records: Seq<LeafView>, behind: Seq<u8>)
    requires
        byte_records(records),
    ensures
        parse_tree(entries_bytes(records) + behind) == parse_entries(
            entries_bytes(records) + behind,
            entries_bytes(records).len() as int,
            records,
        ),
    decreases records.len(),
{
    let data = entries_bytes(records) + behind;
    if records.len() == 0 {
        assert(records =~= Seq::empty());
    } else {
        let front = records.drop_last();
        let last = records.last();
        assert(byte_records(front)) by {
            assert forall|i: int| 0 <= i < front.len() implies byte_leaf(#[trigger] front[i]) by {
                assert(front[i] == records[i]);
            }
        }
        assert(byte_leaf(records[records.len() - 1]));
        assert(data =~= entries_bytes(front) + (leaf_bytes(last) + behind));
        lemma_parse_entries_bytes(front, leaf_bytes(last) + behind);
        let pos = entries_bytes(front).len() as int;
        assert(data =~= entries_bytes(front) + leaf_bytes(last) + behind);
        lemma_parse_leaf_bytes(data, entries_bytes(front), last, behind);
        assert(leaf_bytes(last).len() > 0);
        assert(front.push(last) =~= records);
    }
}

/// Reading the encoding of a list of records gives the list back, where every record
/// comes back from its encoding as it is.
pub proof fn lemma_parse_tree_entries(records: Seq<LeafView>)
    requires
        byte_records(records),
    ensures
        parse_tree(entries_bytes(records)) == Some(records),
{
    lemma_parse_entries_bytes(records, Seq::empty());
    assert(entries_bytes(records) + Seq::<u8>::empty() =~= entries_bytes(records));
}

/// What holds of the encoding of a tree. The payload holds the records in the order of
/// their names, the name of a directory taken with a slash behind it; those are the records
/// of the tree, each as often as the tree has it; and reading the payload gives the records
/// in that order, where every record comes back from its encoding as it is.
pub proof fn lemma_tree_round_trip(records: Seq<LeafView>)
    requires
        plain_records(records),
    ensures
        is_sorted(sorted_records(records), leaf_order()),
        sorted_records(records).to_multiset() == records.to_multiset(),
        parse_tree(tree_payload(records)) == Some(sorted_records(records)),
{
    let sorted = sorted_records(records);
    lemma_sort_spec(records, leaf_order());
    assert(byte_records(sorted)) by {
        assert forall|i: int| 0 <= i < sorted.len() implies byte_leaf(#[trigger] sorted[i]) by {
            let k = lemma_sort_items(records, leaf_order(), i);
            assert(plain_leaf(records[k]));
            lemma_plain_leaf(records[k]);
        }
    }
    lemma_parse_tree_entries(sorted);
}

} // verus!
