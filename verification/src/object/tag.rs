//! The tag: a key-value list whose key `object` names what is tagged and whose key `tag`
//! gives the name.

use vstd::prelude::*;
use crate::kvlm::{no_empty_values, parse_spec, serialize_spec, Kvlm, KvlmView};
use crate::object::commit::{first_value, has_key};
use crate::object::error::ObjectError;
use crate::object::Object;
use crate::bytes::NEWLINE;
use crate::object::error::ErrorView;
use crate::object::{payload_of, write_spec, GitrsObject, ObjectType, ObjectView};
use crate::ordered::{distinct_keys, index_of_key, lemma_index_of_key};
use crate::refs::Ref;
use crate::repository::{can_store, with_file, Repository, RepositoryView};
use crate::text::utf8;

verus! {

/// An annotation of another object.
pub struct Tag {
    kvlm: Kvlm,
}

/// The two ways to tag: a reference alone, or an object of its own and a reference to it.
pub enum TagType {
    Lightweight,
    Object,
}

impl View for Tag {
    type V = KvlmView;

    closed spec fn view(&self) -> KvlmView {
        self.kvlm@
    }
}

impl Object for Tag {
    open spec fn valid(&self) -> bool {
        distinct_keys(self@.headers) && no_empty_values(self@.headers) && has_key(self@, "object"@)
            && has_key(self@, "tag"@)
    }

    open spec fn payload(&self) -> Seq<u8> {
        serialize_spec(self@)
    }

    open spec fn parses(data: Seq<u8>) -> bool {
        parse_spec(data) matches Some(v) && has_key(v, "object"@) && has_key(v, "tag"@)
    }

    fn serialize(&mut self) -> (out: Vec<u8>)
        ensures
            final(self)@ == old(self)@,
    {
        self.kvlm.serialize()
    }

    fn deserialize(data: &[u8]) -> (r: Result<Self, ObjectError>)
        ensures
            r matches Ok(tag) ==> parse_spec(data@) == Some(tag@),
    {
        match Kvlm::new(data) {
            Ok(kvlm) => {
                if kvlm.get_key("object").is_some() && kvlm.get_key("tag").is_some() {
                    Ok(Tag { kvlm })
                } else {
                    Err(ObjectError::Malformed)
                }
            },
            Err(_) => Err(ObjectError::Malformed),
        }
    }
}

/// The path of the reference of the tag `name`.
pub open spec fn tag_path(name: Seq<char>) -> Seq<Seq<u8>> {
    seq![utf8("refs"@), utf8("tags"@), utf8(name)]
}

/// What the object of a tag holds that gives the object `hash` the name `name`.
pub open spec fn annotation(name: Seq<char>, hash: Seq<char>) -> ObjectView {
    ObjectView::Tag(
        KvlmView {
            headers: seq![("object"@, seq![hash]), ("tag"@, seq![name])],
            message: None,
        },
    )
}

/// The repository with the tag `name` for the object `hash`. A light tag is the reference
/// `refs/tags/` and the name, which holds the digest. Any other tag is an object of its own
/// that names the object, and the reference holds the digest of that object.
pub open spec fn tagged(v: RepositoryView, name: Seq<char>, hash: Seq<char>, light: bool) -> Result<
    RepositoryView,
    (RepositoryView, ErrorView),
> {
    if light {
        if can_store(v, tag_path(name)) {
            Ok(with_file(v, tag_path(name), utf8(hash).push(NEWLINE)))
        } else {
            Err((v, ErrorView::CannotCreate))
        }
    } else {
        match write_spec(v, ObjectType::Tag, payload_of(annotation(name, hash))) {
            Err(e) => Err((v, e)),
            Ok((sha, written)) => if can_store(written, tag_path(name)) {
                Ok(with_file(written, tag_path(name), utf8(sha).push(NEWLINE)))
            } else {
                Err((written, ErrorView::CannotCreate))
            },
        }
    }
}

impl Tag {
    /// Gives the object `hash` the name `name`: as a light tag, which is a reference to the
    /// object, or as a tag with an object of its own, to which the reference leads. Where
    /// the reference cannot be created, the object of the tag stays written.
    pub fn create(repository: &mut Repository, name: &str, hash: &str, tag_type: TagType) -> (r:
        Result<(), ObjectError>)
        requires
            old(repository).wf(),
        ensures
            final(repository).wf(),
            match r {
                Ok(_) => tagged(old(repository)@, name@, hash@, tag_type is Lightweight) == Ok::<
                    RepositoryView,
                    (RepositoryView, ErrorView),
                >(final(repository)@),
                Err(e) => tagged(old(repository)@, name@, hash@, tag_type is Lightweight) == Err::<
                    RepositoryView,
                    (RepositoryView, ErrorView),
                >((final(repository)@, e@)),
            },
    {
        let path: [&str; 3] = ["refs", "tags", name];
        assert(crate::repository::path_of(path@) =~= tag_path(name@));
        match tag_type {
            TagType::Lightweight => Ref::create_at(repository, hash, &path),
            TagType::Object => {
                let mut kvlm = Kvlm::init();
                proof {
                    reveal_strlit("object");
                    reveal_strlit("tag");
                    assert("object"@.len() != "tag"@.len());
                    assert(kvlm@.headers =~= Seq::empty());
                }
                kvlm.insert("object", hash);
                let ghost first = kvlm@.headers;
                proof {
                    assert(first =~= seq![("object"@, seq![hash@])]);
                    assert(first.drop_first() =~= Seq::empty());
                    assert(index_of_key(first.drop_first(), "tag"@) == 0);
                    assert(index_of_key(first, "tag"@) == 1);
                }
                kvlm.insert("tag", name);
                proof {
                    assert(kvlm@.headers =~= seq![("object"@, seq![hash@]), ("tag"@, seq![name@])]);
                    assert(index_of_key(kvlm@.headers, "object"@) == 0);
                    assert(kvlm@.headers.drop_first() =~= seq![("tag"@, seq![name@])]);
                    assert(index_of_key(kvlm@.headers.drop_first(), "tag"@) == 0);
                    assert(index_of_key(kvlm@.headers, "tag"@) == 1);
                }
                let mut object = GitrsObject::TagObject(Tag::new(kvlm));
                assert(object@ == annotation(name@, hash@));
                let sha = match object.write(repository) {
                    Ok(sha) => sha,
                    Err(e) => {
                        return Err(e);
                    },
                };
                Ref::create_at(repository, sha.as_str(), &path)
            },
        }
    }

    /// The tag that a key-value list with the keys `object` and `tag` spells.
    pub fn new(kvlm: Kvlm) -> (r: Tag)
        requires
            kvlm.wf(),
            has_key(kvlm@, "object"@),
            has_key(kvlm@, "tag"@),
        ensures
            r.valid(),
            r@ == kvlm@,
    {
        Tag { kvlm }
    }

    /// The digest of the object that the tag names: the first value of its key `object`.
    pub fn get_object_hash(&self) -> (r: &String)
        requires
            self.valid(),
        ensures
            r@ == first_value(self@, "object"@),
    {
        proof {
            lemma_index_of_key(self.kvlm@.headers, "object"@);
        }
        match self.kvlm.get_key("object") {
            Some(values) => {
                assert(values.deep_view()[0] == values@[0]@);
                &values[0]
            },
            None => {
                proof {
                    assert(false);
                }
                vstd::pervasive::unreached()
            },
        }
    }
}

} // verus!
