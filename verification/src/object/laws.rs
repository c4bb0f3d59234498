//! What holds of the store: an object that was written is read back as it was written, and
//! writing it once more changes nothing.

use vstd::prelude::*;
use crate::digest::{digest_hex, is_digest, lemma_hex_is_ascii};
use crate::kvlm::laws::{lemma_parse_serialize, valid_keys};
use crate::object::error::ErrorView;
use crate::object::tree::{lemma_tree_round_trip, plain_records};
use crate::object::{
    decode_frame, decode_payload, frame_bytes, kind_of_view, lemma_frame_round_trip, normal_view,
    object_path, payload_of, read_spec, valid_view, write_spec, ObjectType, ObjectView,
};
use crate::repository::{ancestors, can_store, with_file, RepositoryView};
use crate::text::utf8;
use crate::zlib::packed;

verus! {

/// Whether what an object holds comes back from its payload: the keys of a commit or a tag
/// can stand in a header line, and every record of a tree comes back from its encoding as
/// it is.
pub open spec fn comes_back(view: ObjectView) -> bool {
    match view {
        ObjectView::Blob(_) => true,
        ObjectView::Commit(v) => valid_keys(v.headers),
        ObjectView::Tag(v) => valid_keys(v.headers),
        ObjectView::Tree(records) => plain_records(records),
    }
}

/// Reading the payload of an object gives the object back, a tree with its records sorted.
pub proof fn lemma_decode_payload(view: ObjectView)
    requires
        valid_view(view),
        comes_back(view),
    ensures
        decode_payload(kind_of_view(view), payload_of(view)) == Some(normal_view(view)),
{
    match view {
        ObjectView::Blob(_) => {},
        ObjectView::Commit(v) => {
            lemma_parse_serialize(v);
        },
        ObjectView::Tag(v) => {
            lemma_parse_serialize(v);
        },
        ObjectView::Tree(records) => {
            lemma_tree_round_trip(records);
        },
    }
}

/// Reading the frame of an object gives the object back, a tree with its records sorted.
pub proof fn lemma_decode_frame(view: ObjectView)
    requires
        valid_view(view),
        comes_back(view),
        payload_of(view).len() <= usize::MAX,
    ensures
        decode_frame(frame_bytes(kind_of_view(view), payload_of(view))) == Ok::<
            ObjectView,
            ErrorView,
        >(normal_view(view)),
{
    lemma_frame_round_trip(kind_of_view(view), payload_of(view));
    lemma_decode_payload(view);
}

/// An object that was written is read back under its digest as it was written, a tree with
/// its records sorted.
pub proof fn lemma_read_after_write(
    before: RepositoryView,
    view: ObjectView,
    sha: Seq<char>,
    after: RepositoryView,
)
    requires
        valid_view(view),
        comes_back(view),
        payload_of(view).len() <= usize::MAX,
        write_spec(before, kind_of_view(view), payload_of(view)) == Ok::<
            (Seq<char>, RepositoryView),
            ErrorView,
        >((sha, after)),
        is_digest(sha),
    ensures
        read_spec(after, utf8(sha)) == Ok::<ObjectView, ErrorView>(normal_view(view)),
{
    lemma_decode_frame(view);
    lemma_hex_is_ascii(sha);
}

/// A payload that was written is read back under its digest: the object that is read is
/// of the kind that was written and has the payload that was written. This holds of every
/// payload that is the encoding of what it holds, as every payload of a blob is.
pub proof fn lemma_read_payload_after_write(
    before: RepositoryView,
    kind: ObjectType,
    payload: Seq<u8>,
    sha: Seq<char>,
    after: RepositoryView,
)
    requires
        payload.len() <= usize::MAX,
        decode_payload(kind, payload) matches Some(view) && payload_of(view) == payload,
        write_spec(before, kind, payload) == Ok::<(Seq<char>, RepositoryView), ErrorView>(
            (sha, after),
        ),
        is_digest(sha),
    ensures
        read_spec(after, utf8(sha)) matches Ok(view) && kind_of_view(view) == kind && payload_of(
            view,
        ) == payload,
{
    lemma_frame_round_trip(kind, payload);
    lemma_hex_is_ascii(sha);
}

/// Writing an object that was written changes nothing: the digest is the same, the
/// repository stays as it is, and the second writing fails no more than the first.
pub proof fn lemma_write_twice(
    before: RepositoryView,
    kind: ObjectType,
    payload: Seq<u8>,
    sha: Seq<char>,
    after: RepositoryView,
)
    requires
        write_spec(before, kind, payload) == Ok::<(Seq<char>, RepositoryView), ErrorView>(
            (sha, after),
        ),
    ensures
        write_spec(after, kind, payload) == Ok::<(Seq<char>, RepositoryView), ErrorView>(
            (sha, after),
        ),
{
    let frame = frame_bytes(kind, payload);
    let path = object_path(utf8(digest_hex(frame)));
    let stored = packed(frame)->0;
    lemma_store_twice(before, path, stored);
}

/// A file that was stored can be stored once more, and the same contents change nothing.
pub proof fn lemma_store_twice(before: RepositoryView, path: Seq<Seq<u8>>, data: Seq<u8>)
    requires
        can_store(before, path),
    ensures
        can_store(with_file(before, path, data), path),
        with_file(with_file(before, path, data), path, data) == with_file(before, path, data),
{
    let after = with_file(before, path, data);
    assert(!ancestors(path).contains(path));
    assert forall|d: Seq<Seq<u8>>| #[trigger] ancestors(path).contains(d) implies
        !after.files.contains_key(d) by {
        assert(d != path);
    }
    let twice = with_file(after, path, data);
    assert(twice.files =~= after.files);
    assert(twice.dirs =~= after.dirs);
}

} // verus!
