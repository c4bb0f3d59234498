//! The four kinds of object and how they are stored.
//!
//! A stored object is the zlib compression of a frame: the name of the kind, a space, the
//! length of the payload in decimal digits, a zero byte, and the payload. The digest of the
//! frame names the object: the file of the object stands in the directory `objects`, in
//! a directory named by the first two digits, under the name of the other 38.

pub mod blob;
pub mod checkout;
pub mod commit;
pub mod error;
pub mod find;
pub mod laws;
pub mod tag;
pub mod tree;

use vstd::prelude::*;

use crate::bytes::{append, decimal, find_byte, first_index_from, lemma_decimal_round_trip, lemma_first_index_is, parse_length, read_length, subvec, write_decimal, NUL, SPACE};
use crate::digest::{digest_hex, hash_hex, hex_encode, is_digest, lemma_digest_bytes, to_hex};
use crate::index::{be_bytes, put_be};
use vstd::string::StringExecFns;
use crate::kvlm::{no_empty_values, parse_spec, serialize_spec, KvlmView};
use crate::ordered::distinct_keys;
use crate::object::blob::Blob;
use crate::object::commit::{has_key, Commit};
use crate::object::error::{ErrorView, ObjectError};
use crate::object::tag::Tag;
use crate::object::tree::{
    parse_tree, sorted_records, tree_payload, valid_records, views, LeafView, Tree,
};
use crate::repository::{can_store, path_view, with_file, Repository, RepositoryView};
use crate::text::{lemma_ascii_utf8, lemma_text_of_utf8, str_eq, string_from_utf8, text_of, utf8};
use crate::zlib::{inflate, pack, packed, zlib_decoded};

verus! {

/// The kind of an object.
#[derive(Clone, Copy, Debug, PartialEq, Eq, Structural)]
pub enum ObjectType {
    Blob,
    Commit,
    Tag,
    Tree,
}

/// What every kind of object can do: give its payload and be read from one.
pub trait Object: Sized {
    /// Whether the object can be encoded.
    spec fn valid(&self) -> bool;

    /// The payload of the object.
    spec fn payload(&self) -> Seq<u8>;

    /// Whether `data` is the payload of an object of this kind.
    spec fn parses(data: Seq<u8>) -> bool;

    /// Encodes the object. The object may bring itself into its normal form first.
    fn serialize(&mut self) -> (out: Vec<u8>)
        requires
            old(self).valid(),
        ensures
            final(self).valid(),
            out@ == final(self).payload(),
            final(self).payload() == old(self).payload(),
    ;

    /// Reads an object from its payload.
    fn deserialize(data: &[u8]) -> (r: Result<Self, ObjectError>)
        ensures
            r is Ok <==> Self::parses(data@),
            r matches Ok(object) ==> object.valid(),
            r matches Err(e) ==> e == ObjectError::Malformed,
    ;
}

/// An object of one of the four kinds.
pub enum GitrsObject {
    BlobObject(Blob),
    CommitObject(Commit),
    TagObject(Tag),
    TreeObject(Tree),
}

/// What an object holds.
pub enum ObjectView {
    Blob(Seq<u8>),
    Commit(KvlmView),
    Tag(KvlmView),
    Tree(Seq<LeafView>),
}

/// How to look for an object by name.
pub struct ObjectFindOptions {
    /// The kind that the object must have.
    pub object_type: ObjectType,
    /// Whether to go on from a tag to what it names, and from a commit to its tree.
    pub should_follow: bool,
}

/// The kind of what an object holds.
pub open spec fn kind_of_view(view: ObjectView) -> ObjectType {
    match view {
        ObjectView::Blob(_) => ObjectType::Blob,
        ObjectView::Commit(_) => ObjectType::Commit,
        ObjectView::Tag(_) => ObjectType::Tag,
        ObjectView::Tree(_) => ObjectType::Tree,
    }
}

/// Whether an object that holds `view` can be encoded: the keys of a commit or a tag are
/// distinct and have a value each, a commit has the key `tree`, a tag the keys `object` and
/// `tag`, and the digests of the records of a tree are 40 hexadecimal digits.
pub open spec fn valid_view(view: ObjectView) -> bool {
    match view {
        ObjectView::Blob(_) => true,
        ObjectView::Commit(v) => distinct_keys(v.headers) && no_empty_values(v.headers)
            && has_key(v, "tree"@),
        ObjectView::Tag(v) => distinct_keys(v.headers) && no_empty_values(v.headers) && has_key(
            v,
            "object"@,
        ) && has_key(v, "tag"@),
        ObjectView::Tree(records) => valid_records(records),
    }
}

/// The payload of an object that holds `view`.
pub open spec fn payload_of(view: ObjectView) -> Seq<u8> {
    match view {
        ObjectView::Blob(data) => data,
        ObjectView::Commit(v) => serialize_spec(v),
        ObjectView::Tag(v) => serialize_spec(v),
        ObjectView::Tree(records) => tree_payload(records),
    }
}

/// What an object holds once it was encoded: the records of a tree are sorted.
pub open spec fn normal_view(view: ObjectView) -> ObjectView {
    match view {
        ObjectView::Tree(records) => ObjectView::Tree(sorted_records(records)),
        _ => view,
    }
}

/// The name of a kind.
pub open spec fn kind_name(kind: ObjectType) -> Seq<char> {
    match kind {
        ObjectType::Blob => "blob"@,
        ObjectType::Commit => "commit"@,
        ObjectType::Tag => "tag"@,
        ObjectType::Tree => "tree"@,
    }
}

/// The kind that a name stands for.
pub open spec fn kind_of_name(name: Seq<char>) -> Option<ObjectType> {
    if name == "blob"@ {
        Some(ObjectType::Blob)
    } else if name == "commit"@ {
        Some(ObjectType::Commit)
    } else if name == "tag"@ {
        Some(ObjectType::Tag)
    } else if name == "tree"@ {
        Some(ObjectType::Tree)
    } else {
        None
    }
}

/// The frame of a payload: the name of the kind, a space, the length of the payload in
/// decimal digits, a zero byte, and the payload.
pub open spec fn frame_bytes(kind: ObjectType, payload: Seq<u8>) -> Seq<u8> {
    utf8(kind_name(kind)).push(SPACE) + decimal(payload.len()).push(NUL) + payload
}

/// The kind and the payload that a frame holds. `Malformed` where the space or the zero
/// byte is missing, the name of the kind is not UTF-8, the length is no number, or the
/// length is not that of the payload; `UnrecognizedObjectType` where the name stands for
/// no kind.
pub open spec fn parse_frame(data: Seq<u8>) -> Result<(ObjectType, Seq<u8>), ErrorView> {
    let type_end = first_index_from(data, SPACE, 0);
    let size_end = first_index_from(data, NUL, type_end);
    if type_end >= data.len() || size_end >= data.len() {
        Err(ErrorView::Malformed)
    } else {
        match text_of(data.subrange(0, type_end)) {
            None => Err(ErrorView::Malformed),
            Some(name) => match kind_of_name(name) {
                None => Err(ErrorView::UnrecognizedObjectType(name)),
                Some(kind) => {
                    let payload = data.subrange(size_end + 1, data.len() as int);
                    if parse_length(data.subrange(type_end + 1, size_end)) == Some(
                        payload.len(),
                    ) {
                        Ok((kind, payload))
                    } else {
                        Err(ErrorView::Malformed)
                    }
                },
            },
        }
    }
}

/// The object of kind `kind` that a payload holds.
pub open spec fn decode_payload(kind: ObjectType, payload: Seq<u8>) -> Option<ObjectView> {
    match kind {
        ObjectType::Blob => Some(ObjectView::Blob(payload)),
        ObjectType::Commit => match parse_spec(payload) {
            Some(v) => if has_key(v, "tree"@) {
                Some(ObjectView::Commit(v))
            } else {
                None
            },
            None => None,
        },
        ObjectType::Tag => match parse_spec(payload) {
            Some(v) => if has_key(v, "object"@) && has_key(v, "tag"@) {
                Some(ObjectView::Tag(v))
            } else {
                None
            },
            None => None,
        },
        ObjectType::Tree => match parse_tree(payload) {
            Some(records) => Some(ObjectView::Tree(records)),
            None => None,
        },
    }
}

/// The object that a frame holds.
pub open spec fn decode_frame(data: Seq<u8>) -> Result<ObjectView, ErrorView> {
    match parse_frame(data) {
        Ok((kind, payload)) => match decode_payload(kind, payload) {
            Some(object) => Ok(object),
            None => Err(ErrorView::Malformed),
        },
        Err(e) => Err(e),
    }
}

/// The path of the file of the object with the digest `sha`, of two digits at least.
pub open spec fn object_path(sha: Seq<u8>) -> Seq<Seq<u8>> {
    seq![utf8("objects"@), sha.subrange(0, 2), sha.subrange(2, sha.len() as int)]
}

/// The object that the repository holds under the digest `sha`. `NotFound` where the
/// digest is shorter than two bytes or there is no file for it; `Compression` where the file
/// is no zlib stream; else what the frame in the file holds.
pub open spec fn read_spec(v: RepositoryView, sha: Seq<u8>) -> Result<ObjectView, ErrorView> {
    if sha.len() < 2 || !v.files.contains_key(object_path(sha)) {
        Err(ErrorView::NotFound)
    } else {
        match zlib_decoded(v.files[object_path(sha)]) {
            None => Err(ErrorView::Compression),
            Some(frame) => decode_frame(frame),
        }
    }
}

/// The digest under which a payload of a kind is stored, and the repository with it.
/// `Compression` where the compressor fails or the decompressor does not give the frame
/// back; `CannotCreate` where the file of the object cannot be created.
pub open spec fn write_spec(v: RepositoryView, kind: ObjectType, payload: Seq<u8>) -> Result<
    (Seq<char>, RepositoryView),
    ErrorView,
> {
    let frame = frame_bytes(kind, payload);
    let sha = digest_hex(frame);
    let path = object_path(utf8(sha));
    match packed(frame) {
        None => Err(ErrorView::Compression),
        Some(stored) => if can_store(v, path) {
            Ok((sha, with_file(v, path, stored)))
        } else {
            Err(ErrorView::CannotCreate)
        },
    }
}

impl ObjectType {
    /// The name of the kind.
    pub fn name(&self) -> (r: &'static str)
        ensures
            r@ == kind_name(*self),
    {
        match self {
            ObjectType::Blob => "blob",
            ObjectType::Commit => "commit",
            ObjectType::Tag => "tag",
            ObjectType::Tree => "tree",
        }
    }

    /// The name of the kind, as a string of its own.
    pub fn to_string(&self) -> (r: String)
        ensures
            r@ == kind_name(*self),
    {
        self.name().to_owned()
    }

    /// The kind that a name stands for.
    pub fn try_from(value: &str) -> (r: Result<ObjectType, ObjectError>)
        ensures
            match r {
                Ok(kind) => kind_of_name(value@) == Some(kind),
                Err(e) => kind_of_name(value@) is None && e@ == ErrorView::UnrecognizedObjectType(
                    value@,
                ),
            },
    {
        if str_eq(value, "blob") {
            Ok(ObjectType::Blob)
        } else if str_eq(value, "commit") {
            Ok(ObjectType::Commit)
        } else if str_eq(value, "tag") {
            Ok(ObjectType::Tag)
        } else if str_eq(value, "tree") {
            Ok(ObjectType::Tree)
        } else {
            Err(ObjectError::UnrecognizedObjectType(value.to_owned()))
        }
    }
}

impl ObjectType {
    /// The kind that a name stands for, or the text of the error.
    pub fn from_str(s: &str) -> (r: Result<ObjectType, String>)
        ensures
            match r {
                Ok(kind) => kind_of_name(s@) == Some(kind),
                Err(message) => kind_of_name(s@) is None && message@
                    == crate::object::error::message_of(ErrorView::UnrecognizedObjectType(s@)),
            },
    {
        match ObjectType::try_from(s) {
            Ok(kind) => Ok(kind),
            Err(e) => Err(e.to_string()),
        }
    }
}

/// The digits of the index of a byte in a dump: eight hexadecimal digits, or sixteen
/// where eight do not suffice.
pub open spec fn offset_text(i: nat) -> Seq<char> {
    if i < 0x1_0000_0000 {
        to_hex(be_bytes(i, 4))
    } else {
        to_hex(be_bytes(i, 8))
    }
}

/// What a dump shows of the byte at the index `i`: its two hexadecimal digits and a space,
/// behind a new line with the index where the index is a multiple of 16.
pub open spec fn dump_piece(i: nat, byte: u8) -> Seq<char> {
    if i % 16 == 0 {
        seq!['\n'] + offset_text(i) + seq![':', ' '] + to_hex(seq![byte]) + seq![' ']
    } else {
        to_hex(seq![byte]) + seq![' ']
    }
}

/// What a dump shows of bytes, without the line feed at its end.
pub open spec fn dump_body(buf: Seq<u8>) -> Seq<char>
    decreases buf.len(),
{
    if buf.len() == 0 {
        Seq::empty()
    } else {
        dump_body(buf.drop_last()) + dump_piece((buf.len() - 1) as nat, buf.last())
    }
}

/// The bytes of the names of the kinds: letters, one byte each.
pub proof fn lemma_kind_names(kind: ObjectType)
    ensures
        kind_of_name(kind_name(kind)) == Some(kind),
        utf8(kind_name(kind)).len() > 0,
        forall|i: int|
            0 <= i < utf8(kind_name(kind)).len() ==> #[trigger] utf8(kind_name(kind))[i] != SPACE,
{
    reveal_strlit("blob");
    reveal_strlit("commit");
    reveal_strlit("tag");
    reveal_strlit("tree");
    let name = kind_name(kind);
    assert("blob"@.len() == 4 && "commit"@.len() == 6 && "tag"@.len() == 3 && "tree"@.len() == 4);
    assert("blob"@[0] == 'b' && "tree"@[0] == 't');
    assert forall|i: int| 0 <= i < name.len() implies '\0' <= #[trigger] name[i] <= '\u{7f}'
        && name[i] != ' ' by {
        match kind {
            ObjectType::Blob => {
                assert(name[0] == 'b' && name[1] == 'l' && name[2] == 'o' && name[3] == 'b');
            },
            ObjectType::Commit => {
                assert(name[0] == 'c' && name[1] == 'o' && name[2] == 'm' && name[3] == 'm'
                    && name[4] == 'i' && name[5] == 't');
            },
            ObjectType::Tag => {
                assert(name[0] == 't' && name[1] == 'a' && name[2] == 'g');
            },
            ObjectType::Tree => {
                assert(name[0] == 't' && name[1] == 'r' && name[2] == 'e' && name[3] == 'e');
            },
        }
    }
    lemma_ascii_utf8(name);
    assert forall|i: int| 0 <= i < utf8(name).len() implies #[trigger] utf8(name)[i] != SPACE by {
        assert(utf8(name)[i] == name[i] as u8);
        assert(name[i] != ' ');
    }
}

/// The digits of a number hold no zero byte and begin with no plus sign.
proof fn lemma_decimal_bytes(n: nat)
    ensures
        decimal(n).len() > 0,
        forall|i: int| 0 <= i < decimal(n).len() ==> 48 <= #[trigger] decimal(n)[i] <= 57,
{
    lemma_decimal_round_trip(n);
}

/// A frame holds the kind and the payload that it was made of.
pub proof fn lemma_frame_round_trip(kind: ObjectType, payload: Seq<u8>)
    requires
        payload.len() <= usize::MAX,
    ensures
        parse_frame(frame_bytes(kind, payload)) == Ok::<(ObjectType, Seq<u8>), ErrorView>(
            (kind, payload),
        ),
{
    let name = utf8(kind_name(kind));
    let digits = decimal(payload.len());
    let data = frame_bytes(kind, payload);
    lemma_kind_names(kind);
    lemma_decimal_bytes(payload.len());
    lemma_decimal_round_trip(payload.len());
    let type_end = name.len() as int;
    let size_end = type_end + 1 + digits.len();
    assert forall|t: int| 0 <= t < type_end implies data[t] != SPACE by {
        assert(data[t] == name[t]);
    }
    assert(data[type_end] == SPACE);
    lemma_first_index_is(data, SPACE, 0, type_end);
    assert forall|t: int| type_end <= t < size_end implies data[t] != NUL by {
        if t > type_end {
            assert(data[t] == digits[t - type_end - 1]);
        }
    }
    assert(data[size_end] == NUL);
    lemma_first_index_is(data, NUL, type_end, size_end);
    assert(data.subrange(0, type_end) =~= name);
    assert(data.subrange(type_end + 1, size_end) =~= digits);
    assert(data.subrange(size_end + 1, data.len() as int) =~= payload);
    lemma_text_of_utf8(kind_name(kind));
    assert(digits[0] != 43);
}

/// The frame of a payload.
pub fn frame(kind: ObjectType, payload: &[u8]) -> (out: Vec<u8>)
    ensures
        out@ == frame_bytes(kind, payload@),
{
    let mut out: Vec<u8> = Vec::new();
    append(&mut out, kind.name().as_bytes());
    out.push(SPACE);
    let digits = write_decimal(payload.len());
    append(&mut out, digits.as_slice());
    out.push(NUL);
    append(&mut out, payload);
    assert(out@ =~= frame_bytes(kind, payload@));
    out
}

/// The kind that a frame names and the index at which its payload begins.
pub fn unframe(data: &[u8]) -> (r: Result<(ObjectType, usize), ObjectError>)
    ensures
        match r {
            Ok((kind, start)) => start <= data@.len() && parse_frame(data@) == Ok::<
                (ObjectType, Seq<u8>),
                ErrorView,
            >((kind, data@.subrange(start as int, data@.len() as int))),
            Err(e) => parse_frame(data@) == Err::<(ObjectType, Seq<u8>), ErrorView>(e@),
        },
{
    let type_end = match find_byte(data, SPACE, 0) {
        Some(i) => i,
        None => {
            return Err(ObjectError::Malformed);
        },
    };
    let size_end = match find_byte(data, NUL, type_end) {
        Some(i) => i,
        None => {
            return Err(ObjectError::Malformed);
        },
    };
    let name = match string_from_utf8(subvec(data, 0, type_end)) {
        Some(s) => s,
        None => {
            return Err(ObjectError::Malformed);
        },
    };
    let kind = match ObjectType::try_from(name.as_str()) {
        Ok(kind) => kind,
        Err(e) => {
            return Err(e);
        },
    };
    let declared = match read_length(vstd::slice::slice_subrange(data, type_end + 1, size_end)) {
        Some(n) => n,
        None => {
            return Err(ObjectError::Malformed);
        },
    };
    if declared != data.len() - size_end - 1 {
        return Err(ObjectError::Malformed);
    }
    Ok((kind, size_end + 1))
}

impl View for GitrsObject {
    type V = ObjectView;

    open spec fn view(&self) -> ObjectView {
        match self {
            GitrsObject::BlobObject(blob) => ObjectView::Blob(blob@),
            GitrsObject::CommitObject(commit) => ObjectView::Commit(commit@),
            GitrsObject::TagObject(tag) => ObjectView::Tag(tag@),
            GitrsObject::TreeObject(tree) => ObjectView::Tree(views(tree.records@)),
        }
    }
}

impl GitrsObject {
    /// The kind of the object.
    pub open spec fn kind(&self) -> ObjectType {
        kind_of_view(self@)
    }

    /// Whether the object can be encoded.
    pub open spec fn valid(&self) -> bool {
        valid_view(self@)
    }

    /// The payload of the object.
    pub open spec fn payload(&self) -> Seq<u8> {
        payload_of(self@)
    }

    /// The kind of the object.
    pub fn get_type(&self) -> (r: ObjectType)
        ensures
            r == self.kind(),
    {
        match self {
            GitrsObject::BlobObject(_) => ObjectType::Blob,
            GitrsObject::CommitObject(_) => ObjectType::Commit,
            GitrsObject::TagObject(_) => ObjectType::Tag,
            GitrsObject::TreeObject(_) => ObjectType::Tree,
        }
    }

    /// Encodes the object: its payload, without the frame. A tree sorts its records first.
    pub fn serialize(&mut self) -> (out: Vec<u8>)
        requires
            old(self).valid(),
        ensures
            final(self).valid(),
            final(self)@ == normal_view(old(self)@),
            out@ == payload_of(old(self)@),
    {
        match self {
            GitrsObject::BlobObject(blob) => blob.serialize(),
            GitrsObject::CommitObject(commit) => commit.serialize(),
            GitrsObject::TagObject(tag) => tag.serialize(),
            GitrsObject::TreeObject(tree) => tree.serialize(),
        }
    }

    /// Reads an object of the kind `object_type` from its payload.
    pub fn deserialize(data: &[u8], object_type: ObjectType) -> (r: Result<Self, ObjectError>)
        ensures
            match r {
                Ok(object) => object.valid() && decode_payload(object_type, data@) == Some(
                    object@,
                ),
                Err(e) => decode_payload(object_type, data@) is None && e == ObjectError::Malformed,
            },
    {
        match object_type {
            ObjectType::Blob => match Blob::deserialize(data) {
                Ok(blob) => Ok(GitrsObject::BlobObject(blob)),
                Err(e) => Err(e),
            },
            ObjectType::Commit => match Commit::deserialize(data) {
                Ok(commit) => Ok(GitrsObject::CommitObject(commit)),
                Err(e) => Err(e),
            },
            ObjectType::Tag => match Tag::deserialize(data) {
                Ok(tag) => Ok(GitrsObject::TagObject(tag)),
                Err(e) => Err(e),
            },
            ObjectType::Tree => match Tree::deserialize(data) {
                Ok(tree) => Ok(GitrsObject::TreeObject(tree)),
                Err(e) => Err(e),
            },
        }
    }

    /// Reads the object that a frame holds.
    pub fn from_frame(data: &[u8]) -> (r: Result<Self, ObjectError>)
        ensures
            match r {
                Ok(object) => object.valid() && decode_frame(data@) == Ok::<ObjectView, ErrorView>(
                    object@,
                ),
                Err(e) => decode_frame(data@) == Err::<ObjectView, ErrorView>(e@),
            },
    {
        match unframe(data) {
            Ok((kind, start)) => Self::deserialize(
                vstd::slice::slice_subrange(data, start, data.len()),
                kind,
            ),
            Err(e) => Err(e),
        }
    }

    /// The path of the file of the object with the digest `sha`.
    fn path_for(sha: &[u8]) -> (r: Vec<Vec<u8>>)
        requires
            sha@.len() >= 2,
        ensures
            path_view(r@) == object_path(sha@),
    {
        let mut path: Vec<Vec<u8>> = Vec::new();
        let dir = "objects".as_bytes();
        path.push(subvec(dir, 0, dir.len()));
        path.push(subvec(sha, 0, 2));
        path.push(subvec(sha, 2, sha.len()));
        assert(dir@.subrange(0, dir@.len() as int) =~= dir@);
        assert(path_view(path@) =~= object_path(sha@));
        path
    }

    /// Reads the object with the digest `sha` from the repository.
    pub fn read(repository: &Repository, sha: &str) -> (r: Result<Self, ObjectError>)
        requires
            repository.wf(),
        ensures
            match r {
                Ok(object) => object.valid() && read_spec(repository@, utf8(sha@)) == Ok::<
                    ObjectView,
                    ErrorView,
                >(object@),
                Err(e) => read_spec(repository@, utf8(sha@)) == Err::<ObjectView, ErrorView>(e@),
            },
    {
        let digits = sha.as_bytes();
        if digits.len() < 2 {
            return Err(ObjectError::NotFound);
        }
        let path = Self::path_for(digits);
        let stored = match repository.read(path.as_slice()) {
            Some(data) => data,
            None => {
                return Err(ObjectError::NotFound);
            },
        };
        let framed = match inflate(stored.as_slice()) {
            Some(data) => data,
            None => {
                return Err(ObjectError::Compression);
            },
        };
        Self::from_frame(framed.as_slice())
    }

    /// The text of a dump of `buf` in hexadecimal digits: lines of 16 bytes, each behind the
    /// index of its first byte, and a line feed at the end.
    pub fn dump(buf: &Vec<u8>) -> (r: String)
        ensures
            r@ == dump_body(buf@) + seq!['\n'],
    {
        let mut out = String::new();
        let mut i: usize = 0;
        proof {
            reveal_strlit("\n");
            reveal_strlit(": ");
            reveal_strlit(" ");
            assert("\n"@ =~= seq!['\n']);
            assert(": "@ =~= seq![':', ' ']);
            assert(" "@ =~= seq![' ']);
            assert(buf@.subrange(0, 0) =~= Seq::<u8>::empty());
        }
        while i < buf.len()
            invariant
                i <= buf@.len(),
                "\n"@ == seq!['\n'],
                ": "@ == seq![':', ' '],
                " "@ == seq![' '],
                out@ == dump_body(buf@.subrange(0, i as int)),
            decreases buf@.len() - i,
        {
            let ghost before = buf@.subrange(0, i as int);
            let ghost after = buf@.subrange(0, i + 1);
            let ghost start = out@;
            proof {
                assert(after.drop_last() =~= before);
                assert(after.last() == buf@[i as int]);
            }
            if i % 16 == 0 {
                out.append("\n");
                let mut offset: Vec<u8> = Vec::new();
                if (i as u64) < 0x1_0000_0000 {
                    put_be(&mut offset, i as u64, 4);
                } else {
                    put_be(&mut offset, i as u64, 8);
                }
                let digits = hex_encode(offset.as_slice());
                assert(digits@ == offset_text(i as nat));
                out.append(digits.as_str());
                out.append(": ");
            }
            let mut one: Vec<u8> = Vec::new();
            one.push(buf[i]);
            assert(one@ =~= seq![buf@[i as int]]);
            let byte = hex_encode(one.as_slice());
            out.append(byte.as_str());
            out.append(" ");
            assert(out@ =~= start + dump_piece(i as nat, buf@[i as int]));
            i = i + 1;
        }
        assert(buf@.subrange(0, buf@.len() as int) =~= buf@);
        out.append("\n");
        out
    }

    /// The digest of a frame, in hexadecimal digits.
    fn hash(data: &Vec<u8>) -> (r: String)
        ensures
            r@ == digest_hex(data@),
            is_digest(r@),
    {
        hash_hex(data.as_slice())
    }

    /// Stores the object in the repository and gives its digest. A tree sorts its records
    /// first. The compressed frame is decompressed once before it is stored, so that what is
    /// stored can be read.
    pub fn write(&mut self, repository: &mut Repository) -> (r: Result<String, ObjectError>)
        requires
            old(self).valid(),
            old(repository).wf(),
        ensures
            final(self).valid(),
            final(self)@ == normal_view(old(self)@),
            final(repository).wf(),
            match r {
                Ok(sha) => is_digest(sha@) && write_spec(
                    old(repository)@,
                    kind_of_view(old(self)@),
                    payload_of(old(self)@),
                ) == Ok::<(Seq<char>, RepositoryView), ErrorView>((sha@, final(repository)@)),
                Err(e) => write_spec(
                    old(repository)@,
                    kind_of_view(old(self)@),
                    payload_of(old(self)@),
                ) == Err::<(Seq<char>, RepositoryView), ErrorView>(e@) && final(repository)@
                    == old(repository)@,
            },
    {
        let ghost kind = kind_of_view(old(self)@);
        let ghost payload = payload_of(old(self)@);
        let data = self.serialize();
        let framed = frame(self.get_type(), data.as_slice());
        assert(framed@ == frame_bytes(kind, payload));
        let sha = Self::hash(&framed);
        proof {
            lemma_digest_bytes(sha@);
        }
        let stored = match pack(framed.as_slice()) {
            Some(bytes) => bytes,
            None => {
                return Err(ObjectError::Compression);
            },
        };
        let path = Self::path_for(sha.as_str().as_bytes());
        assert(path_view(path@) == object_path(utf8(digest_hex(frame_bytes(kind, payload)))));
        if repository.store(path.as_slice(), stored) {
            Ok(sha)
        } else {
            Err(ObjectError::CannotCreate)
        }
    }

    /// Reads an object of the kind `object_type` from its payload and stores it.
    pub fn deserialize_and_write(
        repository: &mut Repository,
        data: &[u8],
        object_type: ObjectType,
    ) -> (r: Result<String, ObjectError>)
        requires
            old(repository).wf(),
        ensures
            final(repository).wf(),
            match decode_payload(object_type, data@) {
                None => r == Err::<String, ObjectError>(ObjectError::Malformed)
                    && final(repository)@ == old(repository)@,
                Some(view) => match r {
                    Ok(sha) => is_digest(sha@) && write_spec(
                        old(repository)@,
                        object_type,
                        payload_of(view),
                    ) == Ok::<
                        (Seq<char>, RepositoryView),
                        ErrorView,
                    >((sha@, final(repository)@)),
                    Err(e) => write_spec(old(repository)@, object_type, payload_of(view)) == Err::<
                        (Seq<char>, RepositoryView),
                        ErrorView,
                    >(e@) && final(repository)@ == old(repository)@,
                },
            },
    {
        match Self::deserialize(data, object_type) {
            Ok(mut object) => object.write(repository),
            Err(e) => Err(e),
        }
    }
}

} // verus!
