//! The commit: a key-value list whose key `tree` names the snapshot of a directory.

use vstd::prelude::*;
use crate::kvlm::{no_empty_values, parse_spec, serialize_spec, Kvlm, KvlmView};
use crate::object::error::ObjectError;
use crate::object::Object;
use crate::ordered::{distinct_keys, index_of_key, lemma_index_of_key};
use crate::text::utf8;

verus! {

/// A node of the history.
pub struct Commit {
    kvlm: Kvlm,
}

/// Whether the headers have the key `key`.
pub open spec fn has_key(v: KvlmView, key: Seq<char>) -> bool {
    index_of_key(v.headers, key) < v.headers.len()
}

/// The first value of the key `key`.
pub open spec fn first_value(v: KvlmView, key: Seq<char>) -> Seq<char> {
    v.headers[index_of_key(v.headers, key)].1[0]
}

impl View for Commit {
    type V = KvlmView;

    closed spec fn view(&self) -> KvlmView {
        self.kvlm@
    }
}

impl Object for Commit {
    open spec fn valid(&self) -> bool {
        distinct_keys(self@.headers) && no_empty_values(self@.headers) && has_key(self@, "tree"@)
    }

    open spec fn payload(&self) -> Seq<u8> {
        serialize_spec(self@)
    }

    open spec fn parses(data: Seq<u8>) -> bool {
        parse_spec(data) matches Some(v) && has_key(v, "tree"@)
    }

    fn serialize(&mut self) -> (out: Vec<u8>)
        ensures
            final(self)@ == old(self)@,
    {
        self.kvlm.serialize()
    }

    fn deserialize(data: &[u8]) -> (r: Result<Self, ObjectError>)
        ensures
            r matches Ok(commit) ==> parse_spec(data@) == Some(commit@),
    {
        match Kvlm::new(data) {
            Ok(kvlm) => {
                if kvlm.get_key("tree").is_some() {
                    Ok(Commit { kvlm })
                } else {
                    Err(ObjectError::Malformed)
                }
            },
            Err(_) => Err(ObjectError::Malformed),
        }
    }
}

impl Commit {
    /// The first seven bytes of a digest, or all of it where it is shorter or its
    /// seventh byte does not end a character.
    pub fn short(sha: &str) -> (r: &str)
        ensures
            utf8(r@) == if utf8(sha@).len() >= 7 && vstd::utf8::is_char_boundary(utf8(sha@), 7) {
                utf8(sha@).subrange(0, 7)
            } else {
                utf8(sha@)
            },
    {
        proof {
            vstd::utf8::encode_utf8_valid_utf8(sha@);
        }
        if sha.as_bytes().len() >= 7 && sha.is_char_boundary(7) {
            let head = sha.split_at(7).0;
            assert(utf8(head@) == utf8(sha@).subrange(0, 7));
            head
        } else {
            sha
        }
    }

    /// Whether the commit has a message.
    pub fn has_message(&self) -> (r: bool)
        ensures
            r == self@.message is Some,
    {
        self.kvlm.has_message()
    }

    /// The message of the commit.
    pub fn message(&self) -> (r: &str)
        requires
            self@.message is Some,
        ensures
            Some(r@) == self@.message,
    {
        self.kvlm.get_message()
    }

    /// The digest of the tree that the commit names: the first value of its key `tree`.
    pub fn get_tree_hash(&self) -> (r: &String)
        requires
            self.valid(),
        ensures
            r@ == first_value(self@, "tree"@),
    {
        proof {
            lemma_index_of_key(self.kvlm@.headers, "tree"@);
        }
        match self.kvlm.get_key("tree") {
            Some(values) => {
                assert(values.deep_view()[0] == values@[0]@);
                &values[0]
            },
            None => {
                proof {
                    assert(false);
                }
                vstd::pervasive::unreached()
            },
        }
    }
}

} // verus!
