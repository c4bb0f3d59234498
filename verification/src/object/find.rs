//! Finding an object by a name: the name `HEAD`, the beginning of a digest, or the name of
//! a tag or a branch.

use vstd::prelude::*;

use crate::bytes::{append, is_prefix, starts_with, subvec, SLASH};
use crate::object::commit::first_value;
use crate::object::error::{ErrorView, ObjectError};
use crate::object::{
    kind_of_view, read_spec, GitrsObject, ObjectFindOptions, ObjectType, ObjectView,
};
use crate::refs::{resolve_in, split, split_bytes, Ref};
use crate::repository::{path_view, Repository, RepositoryView};
use crate::text::{lemma_utf8_text_of, str_eq, string_from_utf8, text_of, texts, utf8};

verus! {

/// Whether a byte is a hexadecimal digit of either case.
pub open spec fn is_hex_byte(b: u8) -> bool {
    (48 <= b <= 57) || (97 <= b <= 102) || (65 <= b <= 70)
}

/// Whether a name is the beginning of a digest: two hexadecimal digits or more, and
/// nothing else.
pub open spec fn is_hex_name(name: Seq<u8>) -> bool {
    name.len() >= 2 && forall|i: int| 0 <= i < name.len() ==> is_hex_byte(#[trigger] name[i])
}

/// A name with its capital letters made small.
pub open spec fn lowered(name: Seq<u8>) -> Seq<u8> {
    Seq::new(
        name.len(),
        |i: int|
            if 65 <= name[i] <= 90 {
                (name[i] + 32) as u8
            } else {
                name[i]
            },
    )
}

/// The path of the directory of the objects whose digests begin with the two bytes `dir`.
pub open spec fn fan_out(dir: Seq<u8>) -> Seq<Seq<u8>> {
    seq![utf8("objects"@), dir]
}

/// The digests of the stored objects that begin with the name `name`, taken in small
/// letters.
pub open spec fn prefix_matches(v: RepositoryView, name: Seq<u8>) -> Set<Seq<char>> {
    let low = lowered(name);
    Set::new(
        |digest: Seq<char>|
            exists|file: Seq<u8>|
                #![trigger v.files.contains_key(fan_out(low.subrange(0, 2)).push(file))]
                v.files.contains_key(fan_out(low.subrange(0, 2)).push(file)) && is_prefix(
                    low.subrange(2, low.len() as int),
                    file,
                ) && text_of(low.subrange(0, 2) + file) == Some(digest),
    )
}

/// The path of the reference `name` among the tags, the branches or the branches of
/// others: the name is cut at its slashes.
pub open spec fn ref_path(space: Seq<char>, name: Seq<u8>) -> Seq<Seq<u8>> {
    seq![utf8("refs"@), utf8(space)] + split(name, SLASH)
}

/// The digest that the reference `name` of one kind leads to, as a list of one digest or
/// of none.
pub open spec fn ref_candidate(v: RepositoryView, space: Seq<char>, name: Seq<u8>) -> Seq<
    Seq<char>,
> {
    match resolve_in(v, ref_path(space, name)) {
        Ok(digest) => seq![digest],
        Err(_) => Seq::empty(),
    }
}

/// The digests that the name of a reference leads to: as a tag, as a branch, and as a
/// branch of others, in that order.
pub open spec fn ref_candidates(v: RepositoryView, name: Seq<u8>) -> Seq<Seq<char>> {
    ref_candidate(v, "tags"@, name) + ref_candidate(v, "heads"@, name) + ref_candidate(
        v,
        "remotes"@,
        name,
    )
}

/// The path of the reference `HEAD`.
pub open spec fn head_path() -> Seq<Seq<u8>> {
    seq![utf8("HEAD"@)]
}

/// Whether `found` are the digests that a name stands for. The name `HEAD` stands for what
/// the reference `HEAD` leads to. Two hexadecimal digits or more stand for the stored
/// objects whose digests begin with them, each once, in any order. Any other name stands
/// for what it leads to as a tag, as a branch and as a branch of others.
pub open spec fn stands_for(v: RepositoryView, name: Seq<char>, found: Seq<Seq<char>>) -> bool {
    if name == "HEAD"@ {
        resolve_in(v, head_path()) == Ok::<Seq<char>, ErrorView>(found[0]) && found.len() == 1
    } else if is_hex_name(utf8(name)) {
        found.no_duplicates() && forall|digest: Seq<char>|
            found.contains(digest) <==> prefix_matches(v, utf8(name)).contains(digest)
    } else {
        found == ref_candidates(v, utf8(name))
    }
}

/// The failure of a name that stands for nothing because the reference `HEAD` leads
/// nowhere.
pub open spec fn fails_with(v: RepositoryView, name: Seq<char>) -> Option<ErrorView> {
    if name == "HEAD"@ {
        match resolve_in(v, head_path()) {
            Ok(_) => None,
            Err(e) => Some(e),
        }
    } else {
        None
    }
}

/// The one digest of a list: `NotFound` where the list is empty, `Ambiguous` with the
/// whole list where it holds more than one.
pub open spec fn the_one(found: Seq<Seq<char>>) -> Result<Seq<char>, ErrorView> {
    if found.len() == 0 {
        Err(ErrorView::NotFound)
    } else if found.len() == 1 {
        Ok(found[0])
    } else {
        Err(ErrorView::Ambiguous(found))
    }
}

/// The digest of the object of kind `kind` that the object `sha` is or leads to. An object
/// of another kind fails with `KindMismatch`, unless `follow` holds and it is a tag, which
/// leads to what it names, or a commit while a tree is sought, which leads to its tree.
/// `CycleDetected` where more than `fuel` objects lead on.
pub open spec fn follow_spec(
    v: RepositoryView,
    sha: Seq<char>,
    kind: ObjectType,
    follow: bool,
    fuel: nat,
) -> Result<Seq<char>, ErrorView>
    decreases fuel,
{
    match read_spec(v, utf8(sha)) {
        Err(e) => Err(e),
        Ok(object) => if kind_of_view(object) == kind {
            Ok(sha)
        } else if !follow {
            Err(ErrorView::KindMismatch)
        } else {
            match next_of(object, kind) {
                None => Err(ErrorView::KindMismatch),
                Some(next) => if fuel == 0 {
                    Err(ErrorView::CycleDetected)
                } else {
                    follow_spec(v, next, kind, follow, (fuel - 1) as nat)
                },
            }
        },
    }
}

/// The digest that an object leads to while an object of kind `kind` is sought.
pub open spec fn next_of(object: ObjectView, kind: ObjectType) -> Option<Seq<char>> {
    match object {
        ObjectView::Commit(commit) => if kind == ObjectType::Tree {
            Some(first_value(commit, "tree"@))
        } else {
            None
        },
        ObjectView::Tag(tag) => Some(first_value(tag, "object"@)),
        _ => None,
    }
}

/// The digest that a list of digests stands for, with the kind that is sought.
pub open spec fn pick(
    v: RepositoryView,
    found: Seq<Seq<char>>,
    options: Option<ObjectFindOptions>,
) -> Result<Seq<char>, ErrorView> {
    match the_one(found) {
        Err(e) => Err(e),
        Ok(sha) => match options {
            None => Ok(sha),
            Some(o) => follow_spec(v, sha, o.object_type, o.should_follow, v.files.dom().len()),
        },
    }
}

/// A name with its capital letters made small.
fn lower(name: &[u8]) -> (r: Vec<u8>)
    ensures
        r@ == lowered(name@),
{
    let mut out: Vec<u8> = Vec::new();
    let mut i: usize = 0;
    while i < name.len()
        invariant
            i <= name@.len(),
            out@.len() == i,
            forall|k: int| 0 <= k < i ==> out@[k] == lowered(name@)[k],
        decreases name@.len() - i,
    {
        let b = name[i];
        if 65 <= b && b <= 90 {
            out.push(b + 32);
        } else {
            out.push(b);
        }
        i = i + 1;
    }
    assert(out@ =~= lowered(name@));
    out
}

/// Whether a name is two hexadecimal digits or more, and nothing else.
fn hex_name(name: &[u8]) -> (r: bool)
    ensures
        r == is_hex_name(name@),
{
    if name.len() < 2 {
        return false;
    }
    let mut i: usize = 0;
    while i < name.len()
        invariant
            i <= name@.len(),
            forall|k: int| 0 <= k < i ==> is_hex_byte(#[trigger] name@[k]),
        decreases name@.len() - i,
    {
        let b = name[i];
        if !((48 <= b && b <= 57) || (97 <= b && b <= 102) || (65 <= b && b <= 70)) {
            return false;
        }
        i = i + 1;
    }
    true
}

/// Two byte strings that spell the same text are the same.
proof fn lemma_text_of_injective(a: Seq<u8>, b: Seq<u8>)
    requires
        text_of(a) is Some,
        text_of(a) == text_of(b),
    ensures
        a == b,
{
    lemma_utf8_text_of(a);
    lemma_utf8_text_of(b);
}

impl GitrsObject {
    /// The digests of the stored objects that begin with `name`, a name of hexadecimal
    /// digits.
    fn resolve_prefix(repository: &Repository, name: &[u8]) -> (r: Vec<String>)
        requires
            repository.wf(),
            name@.len() >= 2,
        ensures
            texts(r@).no_duplicates(),
            forall|digest: Seq<char>|
                texts(r@).contains(digest) <==> prefix_matches(repository@, name@).contains(digest),
    {
        let low = lower(name);
        let mut dir: Vec<Vec<u8>> = Vec::new();
        let objects = "objects".as_bytes();
        dir.push(subvec(objects, 0, objects.len()));
        dir.push(subvec(low.as_slice(), 0, 2));
        let prefix = subvec(low.as_slice(), 2, low.len());
        let ghost d = fan_out(low@.subrange(0, 2));
        proof {
            assert(objects@.subrange(0, objects@.len() as int) =~= objects@);
            assert(path_view(dir@) =~= d);
        }
        let found = repository.list_below(dir.as_slice());
        let mut out: Vec<String> = Vec::new();
        let ghost mut source: Seq<int> = Seq::empty();
        let mut i: usize = 0;
        while i < found.len()
            invariant
                i <= found@.len(),
                d == fan_out(low@.subrange(0, 2)),
                low@ == lowered(name@),
                low@.len() >= 2,
                prefix@ == low@.subrange(2, low@.len() as int),
                source.len() == out@.len(),
                forall|k: int|
                    0 <= k < out@.len() ==> 0 <= #[trigger] source[k] < i && found@[source[k]]@.len()
                        == 1 && is_prefix(prefix@, found@[source[k]]@[0]@) && text_of(
                        low@.subrange(0, 2) + found@[source[k]]@[0]@,
                    ) == Some(out@[k]@),
                forall|a: int, b: int|
                    0 <= a < b < out@.len() ==> #[trigger] source[a] < #[trigger] source[b],
                forall|j: int|
                    0 <= j < i && (#[trigger] found@[j])@.len() == 1 && is_prefix(
                        prefix@,
                        found@[j]@[0]@,
                    ) && text_of(low@.subrange(0, 2) + found@[j]@[0]@) is Some ==> exists|k: int|
                        0 <= k < out@.len() && #[trigger] source[k] == j,
            decreases found@.len() - i,
        {
            let rel = &found[i];
            let ghost before = out@;
            let ghost before_source = source;
            let mut added = false;
            if rel.len() == 1 && starts_with(rel[0].as_slice(), prefix.as_slice()) {
                let mut digits = subvec(low.as_slice(), 0, 2);
                append(&mut digits, rel[0].as_slice());
                match string_from_utf8(digits) {
                    Some(digest) => {
                        out.push(digest);
                        added = true;
                        proof {
                            source = source.push(i as int);
                        }
                    },
                    None => {},
                }
            }
            proof {
                if added {
                    assert forall|k: int| 0 <= k < out@.len() implies 0 <= #[trigger] source[k] < i
                        + 1 && found@[source[k]]@.len() == 1 && is_prefix(
                        prefix@,
                        found@[source[k]]@[0]@,
                    ) && text_of(low@.subrange(0, 2) + found@[source[k]]@[0]@) == Some(
                        out@[k]@,
                    ) by {
                        if k < before.len() {
                            assert(out@[k] == before[k]);
                            assert(source[k] == before_source[k]);
                        }
                    }
                    assert forall|a: int, b: int| 0 <= a < b < out@.len() implies #[trigger] source[a]
                        < #[trigger] source[b] by {
                        assert(source[a] == before_source[a]);
                        if b < before.len() {
                            assert(source[b] == before_source[b]);
                        }
                    }
                }
                assert forall|j: int|
                    0 <= j < i + 1 && (#[trigger] found@[j])@.len() == 1 && is_prefix(
                        prefix@,
                        found@[j]@[0]@,
                    ) && text_of(low@.subrange(0, 2) + found@[j]@[0]@) is Some implies exists|
                    k: int,
                | 0 <= k < out@.len() && #[trigger] source[k] == j by {
                    if j < i {
                        let k = choose|k: int|
                            0 <= k < before.len() && #[trigger] before_source[k] == j;
                        assert(source[k] == j);
                    } else {
                        assert(added);
                        assert(source[out@.len() - 1] == j);
                    }
                }
            }
            i = i + 1;
        }
        proof {
            let two = low@.subrange(0, 2);
            let all = texts(out@);
            assert forall|a: int, b: int|
                0 <= a < all.len() && 0 <= b < all.len() && a != b implies all[a] != all[b] by {
                let fa = found@[source[a]]@;
                let fb = found@[source[b]]@;
                if all[a] == all[b] {
                    lemma_text_of_injective(two + fa[0]@, two + fb[0]@);
                    assert(fa[0]@ =~= (two + fa[0]@).subrange(2, (two + fa[0]@).len() as int));
                    assert(fb[0]@ =~= (two + fb[0]@).subrange(2, (two + fb[0]@).len() as int));
                    assert(path_view(fa) =~= path_view(fb));
                    if a < b {
                        assert(source[a] < source[b]);
                    } else {
                        assert(source[b] < source[a]);
                    }
                    if source[a] < source[b] {
                        assert(path_view(found@[source[a]]@) != path_view(found@[source[b]]@));
                    } else {
                        assert(path_view(found@[source[b]]@) != path_view(found@[source[a]]@));
                    }
                }
            }
            assert forall|digest: Seq<char>| all.contains(digest) implies prefix_matches(
                repository@,
                name@,
            ).contains(digest) by {
                let k = choose|k: int| 0 <= k < all.len() && all[k] == digest;
                let rel = found@[source[k]]@;
                let file = rel[0]@;
                assert(path_view(rel) =~= seq![file]);
                assert(d + path_view(rel) =~= d.push(file));
                assert(repository@.files.contains_key(d.push(file)));
            }
            assert forall|digest: Seq<char>|
                prefix_matches(repository@, name@).contains(digest) implies all.contains(digest) by {
                let file = choose|file: Seq<u8>|
                    #![trigger repository@.files.contains_key(d.push(file))]
                    repository@.files.contains_key(d.push(file)) && is_prefix(prefix@, file)
                        && text_of(two + file) == Some(digest);
                let rel = seq![file];
                assert(d + rel =~= d.push(file));
                assert(repository@.files.contains_key(d + rel));
                let j = choose|j: int|
                    0 <= j < found@.len() && path_view((#[trigger] found@[j])@) == rel;
                assert(path_view(found@[j]@)[0] == found@[j]@[0]@);
                let k = choose|k: int| 0 <= k < out@.len() && #[trigger] source[k] == j;
                assert(all[k] == digest);
            }
        }
        out
    }

    /// The digest that the reference `name` of the kind `space` leads to, where it leads
    /// to one.
    fn resolve_ref(repository: &Repository, space: &str, name: &[u8]) -> (r: Option<String>)
        requires
            repository.wf(),
        ensures
            match r {
                Some(digest) => ref_candidate(repository@, space@, name@) == seq![digest@],
                None => ref_candidate(repository@, space@, name@) == Seq::<Seq<char>>::empty(),
            },
    {
        let mut path: Vec<Vec<u8>> = Vec::new();
        let refs = "refs".as_bytes();
        path.push(subvec(refs, 0, refs.len()));
        let kind = space.as_bytes();
        path.push(subvec(kind, 0, kind.len()));
        let ghost head = path_view(path@);
        let pieces = split_bytes(name, SLASH);
        let mut i: usize = 0;
        proof {
            assert(refs@.subrange(0, refs@.len() as int) =~= refs@);
            assert(kind@.subrange(0, kind@.len() as int) =~= kind@);
            assert(head =~= seq![utf8("refs"@), utf8(space@)]);
            assert(path_view(pieces@).subrange(0, 0) =~= Seq::<Seq<u8>>::empty());
            assert(path_view(path@) =~= head + path_view(pieces@).subrange(0, 0));
        }
        while i < pieces.len()
            invariant
                i <= pieces@.len(),
                path_view(path@) == head + path_view(pieces@).subrange(0, i as int),
            decreases pieces@.len() - i,
        {
            let ghost start = path_view(path@);
            path.push(subvec(pieces[i].as_slice(), 0, pieces[i].len()));
            proof {
                let piece = pieces@[i as int]@;
                assert(piece.subrange(0, piece.len() as int) =~= piece);
                assert(path_view(path@) =~= start.push(piece));
                assert(path_view(path@) =~= head + path_view(pieces@).subrange(0, i + 1));
            }
            i = i + 1;
        }
        assert(path_view(pieces@).subrange(0, pieces@.len() as int) =~= path_view(pieces@));
        match Ref::resolve_path(repository, path) {
            Ok(digest) => Some(digest),
            Err(_) => None,
        }
    }

    /// The digests that a name stands for.
    fn resolve(repository: &Repository, name: &str) -> (r: Result<Vec<String>, ObjectError>)
        requires
            repository.wf(),
        ensures
            match r {
                Ok(found) => stands_for(repository@, name@, texts(found@)),
                Err(e) => fails_with(repository@, name@) == Some(e@),
            },
    {
        let bytes = name.as_bytes();
        if str_eq(name, "HEAD") {
            let mut path: Vec<Vec<u8>> = Vec::new();
            let head = "HEAD".as_bytes();
            path.push(subvec(head, 0, head.len()));
            proof {
                assert(head@.subrange(0, head@.len() as int) =~= head@);
                assert(path_view(path@) =~= head_path());
            }
            match Ref::resolve_path(repository, path) {
                Ok(digest) => {
                    let mut found: Vec<String> = Vec::new();
                    found.push(digest);
                    Ok(found)
                },
                Err(e) => Err(e),
            }
        } else if hex_name(bytes) {
            Ok(Self::resolve_prefix(repository, bytes))
        } else {
            let mut found: Vec<String> = Vec::new();
            match Self::resolve_ref(repository, "tags", bytes) {
                Some(digest) => {
                    found.push(digest);
                },
                None => {},
            }
            let ghost first = texts(found@);
            match Self::resolve_ref(repository, "heads", bytes) {
                Some(digest) => {
                    found.push(digest);
                },
                None => {},
            }
            let ghost second = texts(found@);
            assert(second =~= first + ref_candidate(repository@, "heads"@, bytes@));
            match Self::resolve_ref(repository, "remotes", bytes) {
                Some(digest) => {
                    found.push(digest);
                },
                None => {},
            }
            assert(texts(found@) =~= second + ref_candidate(repository@, "remotes"@, bytes@));
            assert(first =~= ref_candidate(repository@, "tags"@, bytes@));
            Ok(found)
        }
    }

    /// The digest of the object of the kind sought that the object `sha` is or leads to.
    fn find_with_options(
        repository: &Repository,
        sha: &str,
        kind: ObjectType,
        follow: bool,
        fuel: usize,
    ) -> (r: Result<String, ObjectError>)
        requires
            repository.wf(),
        ensures
            match r {
                Ok(found) => follow_spec(repository@, sha@, kind, follow, fuel as nat) == Ok::<
                    Seq<char>,
                    ErrorView,
                >(found@),
                Err(e) => follow_spec(repository@, sha@, kind, follow, fuel as nat) == Err::<
                    Seq<char>,
                    ErrorView,
                >(e@),
            },
        decreases fuel,
    {
        let object = match Self::read(repository, sha) {
            Ok(object) => object,
            Err(e) => {
                return Err(e);
            },
        };
        if object.get_type() == kind {
            return Ok(sha.to_owned());
        }
        if !follow {
            return Err(ObjectError::KindMismatch);
        }
        match &object {
            GitrsObject::CommitObject(commit) => {
                if kind == ObjectType::Tree {
                    if fuel == 0 {
                        Err(ObjectError::CycleDetected)
                    } else {
                        Self::find_with_options(
                            repository,
                            commit.get_tree_hash().as_str(),
                            kind,
                            follow,
                            fuel - 1,
                        )
                    }
                } else {
                    Err(ObjectError::KindMismatch)
                }
            },
            GitrsObject::TagObject(tag) => {
                if fuel == 0 {
                    Err(ObjectError::CycleDetected)
                } else {
                    Self::find_with_options(
                        repository,
                        tag.get_object_hash().as_str(),
                        kind,
                        follow,
                        fuel - 1,
                    )
                }
            },
            _ => Err(ObjectError::KindMismatch),
        }
    }

    /// The digest of the object that a name stands for: the reference `HEAD`, the
    /// beginning of a digest, or the name of a tag or a branch. With options, the object must
    /// be of the kind sought, or lead to one where the options say to go on.
    ///
    /// `NotFound` where the name stands for nothing, `Ambiguous` with all digests where it
    /// stands for more than one.
    pub fn find(repository: &Repository, name: &str, options_opt: Option<ObjectFindOptions>) -> (r:
        Result<String, ObjectError>)
        requires
            repository.wf(),
        ensures
            match r {
                Ok(sha) => exists|found: Seq<Seq<char>>|
                    #![auto]
                    stands_for(repository@, name@, found) && pick(repository@, found, options_opt)
                        == Ok::<Seq<char>, ErrorView>(sha@),
                Err(e) => fails_with(repository@, name@) == Some(e@) || exists|
                    found: Seq<Seq<char>>,
                |
                    #![auto]
                    stands_for(repository@, name@, found) && pick(repository@, found, options_opt)
                        == Err::<Seq<char>, ErrorView>(e@),
            },
    {
        let mut shas = match Self::resolve(repository, name) {
            Ok(found) => found,
            Err(e) => {
                return Err(e);
            },
        };
        let ghost found = texts(shas@);
        if shas.len() == 0 {
            assert(pick(repository@, found, options_opt) == Err::<Seq<char>, ErrorView>(
                ErrorView::NotFound,
            ));
            return Err(ObjectError::NotFound);
        }
        if shas.len() > 1 {
            let e = ObjectError::Ambiguous(shas);
            assert(pick(repository@, found, options_opt) == Err::<Seq<char>, ErrorView>(e@));
            return Err(e);
        }
        assert(found[0] == shas@[0]@);
        match options_opt {
            None => {
                let sha = shas.remove(0);
                assert(pick(repository@, found, options_opt) == Ok::<Seq<char>, ErrorView>(sha@));
                Ok(sha)
            },
            Some(options) => {
                let r = Self::find_with_options(
                    repository,
                    shas[0].as_str(),
                    options.object_type,
                    options.should_follow,
                    repository.count_files(),
                );
                proof {
                    match &r {
                        Ok(sha) => {
                            assert(pick(repository@, found, options_opt) == Ok::<
                                Seq<char>,
                                ErrorView,
                            >(sha@));
                        },
                        Err(e) => {
                            assert(pick(repository@, found, options_opt) == Err::<
                                Seq<char>,
                                ErrorView,
                            >(e@));
                        },
                    }
                }
                r
            },
        }
    }
}

/// What finding by the beginning of a digest gives, with no kind sought: `NotFound` where
/// no stored object begins with the name, the digest where one does, and `Ambiguous` with
/// the digests of all of them, each once, where more do.
pub proof fn lemma_find_by_prefix(v: RepositoryView, name: Seq<char>, found: Seq<Seq<char>>)
    requires
        name != "HEAD"@,
        is_hex_name(utf8(name)),
        stands_for(v, name, found),
    ensures
        prefix_matches(v, utf8(name)).finite(),
        prefix_matches(v, utf8(name)).len() == found.len(),
        found.to_set() == prefix_matches(v, utf8(name)),
        prefix_matches(v, utf8(name)).len() == 0 ==> pick(v, found, None) == Err::<
            Seq<char>,
            ErrorView,
        >(ErrorView::NotFound),
        prefix_matches(v, utf8(name)).len() == 1 ==> pick(v, found, None) == Ok::<
            Seq<char>,
            ErrorView,
        >(found[0]) && prefix_matches(v, utf8(name)) == set![found[0]],
        prefix_matches(v, utf8(name)).len() >= 2 ==> pick(v, found, None) == Err::<
            Seq<char>,
            ErrorView,
        >(ErrorView::Ambiguous(found)),
{
    let matches = prefix_matches(v, utf8(name));
    assert(found.to_set() =~= matches);
    found.unique_seq_to_set();
    vstd::seq_lib::seq_to_set_is_finite(found);
    if found.len() == 1 {
        assert(matches =~= set![found[0]]) by {
            assert forall|d: Seq<char>| matches.contains(d) implies d == found[0] by {
                assert(found.contains(d));
            }
            assert(found.contains(found[0]));
        }
    }
}

} // verus!
