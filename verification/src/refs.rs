//! References: files that hold a digest, or the path of another reference behind the
//! marker `ref:`.

pub mod laws;

use vstd::prelude::*;

use crate::bytes::{
    append, find_byte, first_index_from, is_prefix, lemma_first_index_from, starts_with, subvec,
    NEWLINE, SLASH,
};
use crate::object::error::{ErrorView, ObjectError};
use crate::ordered::{ref_entries, refs_insert, refs_new, with_key};
use crate::repository::{
    can_store, clone_path, path_of, path_view, to_path, with_file, Repository, RepositoryView,
};
use crate::sorting::{
    is_sorted, key_of, lemma_sort_items, lemma_sort_spec, path_before_or_equal, path_le, sort,
    sort_spec, Keyed,
};
use crate::text::{string_from_utf8, text_of, utf8};

verus! {

/// The handle for the operations on references.
pub struct Ref;

/// What the file of a reference says: a digest, or the path of another reference.
pub enum RefContent {
    Digest(Seq<char>),
    Link(Seq<Seq<u8>>),
}

/// The marker of a reference to another reference: the bytes of `ref:`.
pub open spec fn marker() -> Seq<u8> {
    seq![114u8, 101u8, 102u8, 58u8]
}

/// The pieces of `s` between the bytes `sep`: one more than there are such bytes.
pub open spec fn split(s: Seq<u8>, sep: u8) -> Seq<Seq<u8>>
    decreases s.len(),
{
    let i = first_index_from(s, sep, 0);
    if i >= s.len() {
        seq![s]
    } else {
        proof {
            lemma_first_index_from(s, sep, 0);
        }
        seq![s.subrange(0, i)] + split(s.subrange(i + 1, s.len() as int), sep)
    }
}

/// The segments of a path with a slash between each two.
pub open spec fn join(path: Seq<Seq<u8>>) -> Seq<u8>
    decreases path.len(),
{
    if path.len() == 0 {
        Seq::empty()
    } else if path.len() == 1 {
        path[0]
    } else {
        join(path.drop_last()).push(SLASH) + path.last()
    }
}

/// The contents of the file of a reference without the line feed that ends them.
pub open spec fn ref_body(content: Seq<u8>) -> Seq<u8> {
    if content.len() > 0 && content.last() == NEWLINE {
        content.drop_last()
    } else {
        content
    }
}

/// What the contents of the file of a reference say. One line feed at the end does not
/// count. Contents that begin with the marker name another reference: the path behind the
/// marker and one more byte, cut at its slashes. Other contents are a digest. `Malformed`
/// where the contents are not UTF-8 or end with the marker.
pub open spec fn parse_ref(content: Seq<u8>) -> Result<RefContent, ErrorView> {
    let body = ref_body(content);
    match text_of(body) {
        None => Err(ErrorView::Malformed),
        Some(text) => if is_prefix(marker(), body) {
            if body.len() < 5 {
                Err(ErrorView::Malformed)
            } else {
                Ok(RefContent::Link(split(body.subrange(5, body.len() as int), SLASH)))
            }
        } else {
            Ok(RefContent::Digest(text))
        },
    }
}

/// The digest that the reference at `path` leads to, through at most `fuel` other
/// references. `NotFound` where a file of the chain is missing, `CycleDetected` where the
/// chain is longer.
pub open spec fn resolve_spec(files: Map<Seq<Seq<u8>>, Seq<u8>>, path: Seq<Seq<u8>>, fuel: nat) -> Result<
    Seq<char>,
    ErrorView,
>
    decreases fuel,
{
    if !files.contains_key(path) {
        Err(ErrorView::NotFound)
    } else {
        match parse_ref(files[path]) {
            Err(e) => Err(e),
            Ok(RefContent::Digest(digest)) => Ok(digest),
            Ok(RefContent::Link(target)) => if fuel == 0 {
                Err(ErrorView::CycleDetected)
            } else {
                resolve_spec(files, target, (fuel - 1) as nat)
            },
        }
    }
}

/// The digest that the reference at `path` leads to in a repository. A chain of more
/// references than the repository has files holds one of them twice, and never ends.
pub open spec fn resolve_in(v: RepositoryView, path: Seq<Seq<u8>>) -> Result<Seq<char>, ErrorView> {
    resolve_spec(v.files, path, v.files.dom().len())
}

/// The names and digests of the references at the paths `rels` below `dir`, in that order.
/// The first reference that leads to no digest, or whose name is not UTF-8, fails the
/// whole.
pub open spec fn list_entries(v: RepositoryView, dir: Seq<Seq<u8>>, rels: Seq<Seq<Seq<u8>>>) -> Result<
    Seq<(Seq<char>, Seq<char>)>,
    ErrorView,
>
    decreases rels.len(),
{
    if rels.len() == 0 {
        Ok(Seq::empty())
    } else {
        match list_entries(v, dir, rels.drop_last()) {
            Err(e) => Err(e),
            Ok(entries) => match resolve_in(v, dir + rels.last()) {
                Err(e) => Err(e),
                Ok(digest) => match text_of(join(rels.last())) {
                    None => Err(ErrorView::Malformed),
                    Some(name) => Ok(with_key(entries, name, digest)),
                },
            },
        }
    }
}

/// The function that orders paths by themselves.
pub open spec fn by_path() -> spec_fn(Seq<Seq<u8>>) -> Seq<Seq<u8>> {
    |p: Seq<Seq<u8>>| p
}

/// Whether `rels` are the paths, below `dir`, of all files in it and under it, each once,
/// in the order in which a walk finds them that takes the entries of each directory by
/// their names.
pub open spec fn lists_files(v: RepositoryView, dir: Seq<Seq<u8>>, rels: Seq<Seq<Seq<u8>>>) -> bool {
    &&& is_sorted(rels, by_path())
    &&& rels.no_duplicates()
    &&& forall|k: int|
        0 <= k < rels.len() ==> (#[trigger] rels[k]).len() > 0 && v.files.contains_key(dir + rels[k])
    &&& forall|rel: Seq<Seq<u8>>|
        rel.len() > 0 && #[trigger] v.files.contains_key(dir + rel) ==> rels.contains(rel)
}

impl Keyed for Vec<Vec<u8>> {
    open spec fn sort_key(&self) -> Seq<Seq<u8>> {
        path_view(self@)
    }

    fn before_or_equal(&self, other: &Self) -> (r: bool) {
        path_before_or_equal(self.as_slice(), other.as_slice())
    }
}

/// The function that gives each path what it spells.
pub open spec fn spelled() -> spec_fn(Vec<Vec<u8>>) -> Seq<Seq<u8>> {
    |p: Vec<Vec<u8>>| path_view(p@)
}

/// Cuts `data` at each byte `sep`.
pub fn split_bytes(data: &[u8], sep: u8) -> (r: Vec<Vec<u8>>)
    ensures
        path_view(r@) == split(data@, sep),
{
    let mut out: Vec<Vec<u8>> = Vec::new();
    let mut start: usize = 0;
    assert(data@.subrange(0, data@.len() as int) =~= data@);
    assert(path_view(out@) =~= Seq::<Seq<u8>>::empty());
    loop
        invariant_except_break
            split(data@, sep) == path_view(out@) + split(
                data@.subrange(start as int, data@.len() as int),
                sep,
            ),
        invariant
            start <= data@.len(),
        ensures
            path_view(out@) == split(data@, sep),
        decreases data@.len() - start,
    {
        let ghost rest = data@.subrange(start as int, data@.len() as int);
        let ghost done = path_view(out@);
        proof {
            lemma_first_index_from(rest, sep, 0);
            lemma_first_index_from(data@, sep, start as int);
            lemma_shift(data@, sep, start as int);
        }
        match find_byte(data, sep, start) {
            Some(i) => {
                out.push(subvec(data, start, i));
                proof {
                    assert(rest.subrange(0, i - start) =~= data@.subrange(start as int, i as int));
                    assert(rest.subrange(i - start + 1, rest.len() as int) =~= data@.subrange(
                        i + 1,
                        data@.len() as int,
                    ));
                    assert(path_view(out@) =~= done.push(data@.subrange(start as int, i as int)));
                    assert(path_view(out@) + split(data@.subrange(i + 1, data@.len() as int), sep)
                        =~= done + split(rest, sep));
                }
                assert(i < data.len());
                start = i + 1;
            },
            None => {
                out.push(subvec(data, start, data.len()));
                proof {
                    assert(path_view(out@) =~= done.push(rest));
                    assert(path_view(out@) =~= done + split(rest, sep));
                }
                break;
            },
        }
    }
    out
}

/// The first index of a byte in the end of a byte string is its first index in the whole,
/// counted from where the end begins.
proof fn lemma_shift(s: Seq<u8>, b: u8, from: int)
    requires
        0 <= from <= s.len(),
    ensures
        first_index_from(s.subrange(from, s.len() as int), b, 0) == first_index_from(s, b, from)
            - from,
{
    let rest = s.subrange(from, s.len() as int);
    lemma_first_index_from(s, b, from);
    let at = first_index_from(s, b, from);
    assert forall|k: int| 0 <= k < at - from implies rest[k] != b by {
        assert(rest[k] == s[k + from]);
    }
    if at < s.len() {
        assert(rest[at - from] == s[at]);
    }
    crate::bytes::lemma_first_index_is(rest, b, 0, at - from);
}

/// Puts a slash between each two segments of a path.
pub fn join_bytes(path: &[Vec<u8>]) -> (r: Vec<u8>)
    ensures
        r@ == join(path_view(path@)),
{
    let mut out: Vec<u8> = Vec::new();
    let ghost p = path_view(path@);
    let mut i: usize = 0;
    assert(p.subrange(0, 0) =~= Seq::<Seq<u8>>::empty());
    while i < path.len()
        invariant
            i <= path@.len(),
            p == path_view(path@),
            out@ == join(p.subrange(0, i as int)),
        decreases path@.len() - i,
    {
        let ghost before = p.subrange(0, i as int);
        let ghost after = p.subrange(0, i + 1);
        proof {
            assert(after.drop_last() =~= before);
            assert(after.last() == path@[i as int]@);
            if i == 0 {
                assert(after[0] == path@[0]@);
            }
        }
        if i > 0 {
            out.push(SLASH);
        }
        append(&mut out, path[i].as_slice());
        i = i + 1;
        assert(out@ =~= join(after));
    }
    assert(p.subrange(0, p.len() as int) =~= p);
    out
}

/// Reads what the contents of the file of a reference say.
pub fn read_ref(content: &[u8]) -> (r: Result<Result<String, Vec<Vec<u8>>>, ObjectError>)
    ensures
        match r {
            Ok(Ok(digest)) => parse_ref(content@) == Ok::<RefContent, ErrorView>(
                RefContent::Digest(digest@),
            ),
            Ok(Err(target)) => parse_ref(content@) == Ok::<RefContent, ErrorView>(
                RefContent::Link(path_view(target@)),
            ),
            Err(e) => parse_ref(content@) == Err::<RefContent, ErrorView>(e@),
        },
{
    let end = if content.len() > 0 && content[content.len() - 1] == NEWLINE {
        content.len() - 1
    } else {
        content.len()
    };
    let body = vstd::slice::slice_subrange(content, 0, end);
    proof {
        if end == content.len() {
            assert(body@ =~= content@);
        } else {
            assert(body@ =~= content@.drop_last());
        }
    }
    let text = match string_from_utf8(subvec(body, 0, body.len())) {
        Some(s) => s,
        None => {
            proof {
                assert(body@.subrange(0, body@.len() as int) =~= body@);
            }
            return Err(ObjectError::Malformed);
        },
    };
    assert(body@.subrange(0, body@.len() as int) =~= body@);
    let mut prefix: Vec<u8> = Vec::new();
    prefix.push(114);
    prefix.push(101);
    prefix.push(102);
    prefix.push(58);
    assert(prefix@ =~= marker());
    if starts_with(body, prefix.as_slice()) {
        if body.len() < 5 {
            return Err(ObjectError::Malformed);
        }
        Ok(Err(split_bytes(vstd::slice::slice_subrange(body, 5, body.len()), SLASH)))
    } else {
        Ok(Ok(text))
    }
}

impl Ref {
    /// The digest that the reference at `path` leads to, through at most `fuel` others.
    fn resolve_from(repository: &Repository, path: Vec<Vec<u8>>, fuel: usize) -> (r: Result<
        String,
        ObjectError,
    >)
        requires
            repository.wf(),
        ensures
            match r {
                Ok(digest) => resolve_spec(repository@.files, path_view(path@), fuel as nat) == Ok::<
                    Seq<char>,
                    ErrorView,
                >(digest@),
                Err(e) => resolve_spec(repository@.files, path_view(path@), fuel as nat) == Err::<
                    Seq<char>,
                    ErrorView,
                >(e@),
            },
        decreases fuel,
    {
        let content = match repository.read(path.as_slice()) {
            Some(data) => data,
            None => {
                return Err(ObjectError::NotFound);
            },
        };
        match read_ref(content.as_slice()) {
            Err(e) => Err(e),
            Ok(Ok(digest)) => Ok(digest),
            Ok(Err(target)) => {
                if fuel == 0 {
                    Err(ObjectError::CycleDetected)
                } else {
                    Self::resolve_from(repository, target, fuel - 1)
                }
            },
        }
    }

    /// The digest that the reference at the path of bytes `path` leads to.
    pub fn resolve_path(repository: &Repository, path: Vec<Vec<u8>>) -> (r: Result<
        String,
        ObjectError,
    >)
        requires
            repository.wf(),
        ensures
            match r {
                Ok(digest) => resolve_in(repository@, path_view(path@)) == Ok::<
                    Seq<char>,
                    ErrorView,
                >(digest@),
                Err(e) => resolve_in(repository@, path_view(path@)) == Err::<Seq<char>, ErrorView>(
                    e@,
                ),
            },
    {
        Self::resolve_from(repository, path, repository.count_files())
    }

    /// The digest that the reference at `ref_path` leads to: what its file holds, or what
    /// the reference leads to that its file names behind the marker `ref:`.
    pub fn resolve(repository: &Repository, ref_path: &[&str]) -> (r: Result<String, ObjectError>)
        requires
            repository.wf(),
        ensures
            match r {
                Ok(digest) => resolve_in(repository@, path_of(ref_path@)) == Ok::<
                    Seq<char>,
                    ErrorView,
                >(digest@),
                Err(e) => resolve_in(repository@, path_of(ref_path@)) == Err::<Seq<char>, ErrorView>(
                    e@,
                ),
            },
    {
        Self::resolve_path(repository, to_path(ref_path))
    }

    /// Makes the reference at `paths` hold the digest `hash`: its file holds the digest and
    /// a line feed, whatever it held before.
    pub fn create_at(repository: &mut Repository, hash: &str, paths: &[&str]) -> (r: Result<
        (),
        ObjectError,
    >)
        requires
            old(repository).wf(),
        ensures
            final(repository).wf(),
            match r {
                Ok(_) => can_store(old(repository)@, path_of(paths@)) && final(repository)@
                    == with_file(old(repository)@, path_of(paths@), utf8(hash@).push(NEWLINE)),
                Err(e) => e == ObjectError::CannotCreate && !can_store(
                    old(repository)@,
                    path_of(paths@),
                ) && final(repository)@ == old(repository)@,
            },
    {
        let digits = hash.as_bytes();
        let mut content = subvec(digits, 0, digits.len());
        assert(digits@.subrange(0, digits@.len() as int) =~= digits@);
        content.push(NEWLINE);
        let path = to_path(paths);
        if repository.store(path.as_slice(), content) {
            Ok(())
        } else {
            Err(ObjectError::CannotCreate)
        }
    }

    /// The references in the directory `path` and under it, in the order in which a walk
    /// finds them that takes the entries of each directory by their names: each with its
    /// name below `path`, segments joined by slashes, and the digest that it leads to.
    pub fn list_at(repository: &Repository, path: &[&str]) -> (r: Result<
        indexmap::IndexMap<String, String, std::hash::RandomState>,
        ObjectError,
    >)
        requires
            repository.wf(),
        ensures
            !repository@.dirs.contains(path_of(path@)) ==> (r matches Err(e) && e
                == ObjectError::NotFound),
            repository@.dirs.contains(path_of(path@)) ==> exists|rels: Seq<Seq<Seq<u8>>>|
                #![auto]
                lists_files(repository@, path_of(path@), rels) && match r {
                    Ok(map) => list_entries(repository@, path_of(path@), rels) == Ok::<
                        Seq<(Seq<char>, Seq<char>)>,
                        ErrorView,
                    >(ref_entries(map)),
                    Err(e) => list_entries(repository@, path_of(path@), rels) == Err::<
                        Seq<(Seq<char>, Seq<char>)>,
                        ErrorView,
                    >(e@),
                },
    {
        let dir = to_path(path);
        if !repository.is_dir(dir.as_slice()) {
            return Err(ObjectError::NotFound);
        }
        let found = repository.list_below(dir.as_slice());
        let sorted = sort(found);
        let ghost d = path_view(dir@);
        let ghost rels = sorted@.map_values(spelled());
        proof {
            lemma_listing(repository@, d, found@, sorted@);
        }
        let mut map = refs_new();
        let mut i: usize = 0;
        assert(rels.subrange(0, 0) =~= Seq::empty());
        assert(ref_entries(map) =~= Seq::empty());
        while i < sorted.len()
            invariant
                repository.wf(),
                i <= sorted@.len(),
                d == path_view(dir@),
                d == path_of(path@),
                repository@.dirs.contains(d),
                lists_files(repository@, d, rels),
                rels == sorted@.map_values(spelled()),
                list_entries(repository@, d, rels.subrange(0, i as int)) == Ok::<
                    Seq<(Seq<char>, Seq<char>)>,
                    ErrorView,
                >(ref_entries(map)),
            decreases sorted@.len() - i,
        {
            let ghost before = rels.subrange(0, i as int);
            let ghost after = rels.subrange(0, i + 1);
            proof {
                assert(after.drop_last() =~= before);
                assert(after.last() == path_view(sorted@[i as int]@));
                lemma_list_entries_fail(repository@, d, rels, i + 1);
            }
            let mut full = clone_path(dir.as_slice());
            let rel = &sorted[i];
            let mut k: usize = 0;
            while k < rel.len()
                invariant
                    k <= rel@.len(),
                    path_view(full@) == path_view(dir@) + path_view(rel@).subrange(0, k as int),
                decreases rel@.len() - k,
            {
                let ghost start = path_view(full@);
                full.push(subvec(rel[k].as_slice(), 0, rel[k].len()));
                proof {
                    let seg = rel@[k as int]@;
                    assert(seg.subrange(0, seg.len() as int) =~= seg);
                    assert(path_view(full@) =~= start.push(seg));
                    assert(path_view(full@) =~= path_view(dir@) + path_view(rel@).subrange(0, k + 1));
                }
                k = k + 1;
            }
            assert(path_view(rel@).subrange(0, rel@.len() as int) =~= path_view(rel@));
            let digest = match Self::resolve_path(repository, full) {
                Ok(digest) => digest,
                Err(e) => {
                    return Err(e);
                },
            };
            let name = match string_from_utf8(join_bytes(rel.as_slice())) {
                Some(name) => name,
                None => {
                    return Err(ObjectError::Malformed);
                },
            };
            refs_insert(&mut map, name, digest);
            i = i + 1;
        }
        assert(rels.subrange(0, rels.len() as int) =~= rels);
        Ok(map)
    }
}

/// A failure among the first references of a list is the failure of the whole list.
proof fn lemma_list_entries_fail(
    v: RepositoryView,
    dir: Seq<Seq<u8>>,
    rels: Seq<Seq<Seq<u8>>>,
    upto: int,
)
    requires
        0 <= upto <= rels.len(),
    ensures
        list_entries(v, dir, rels.subrange(0, upto)) matches Err(e) ==> list_entries(v, dir, rels)
            == Err::<Seq<(Seq<char>, Seq<char>)>, ErrorView>(e),
    decreases rels.len() - upto,
{
    if upto == rels.len() {
        assert(rels.subrange(0, upto) =~= rels);
    } else {
        let next = rels.subrange(0, upto + 1);
        assert(next.drop_last() =~= rels.subrange(0, upto));
        lemma_list_entries_fail(v, dir, rels, upto + 1);
    }
}

/// The sorted list of the files that were found lists the files.
proof fn lemma_listing(
    v: RepositoryView,
    dir: Seq<Seq<u8>>,
    found: Seq<Vec<Vec<u8>>>,
    sorted: Seq<Vec<Vec<u8>>>,
)
    requires
        sorted == sort_spec(found, key_of::<Vec<Vec<u8>>>()),
        forall|k: int|
            0 <= k < found.len() ==> path_view((#[trigger] found[k])@).len() > 0
                && v.files.contains_key(dir + path_view(found[k]@)),
        forall|rel: Seq<Seq<u8>>|
            rel.len() > 0 && #[trigger] v.files.contains_key(dir + rel) ==> exists|k: int|
                0 <= k < found.len() && path_view((#[trigger] found[k])@) == rel,
        forall|a: int, b: int|
            0 <= a < b < found.len() ==> path_view((#[trigger] found[a])@) != path_view(
                (#[trigger] found[b])@,
            ),
    ensures
        lists_files(v, dir, sorted.map_values(spelled())),
{
    broadcast use vstd::seq_lib::group_to_multiset_ensures;

    let key = key_of::<Vec<Vec<u8>>>();
    let rels = sorted.map_values(spelled());
    lemma_sort_spec(found, key);
    assert forall|i: int, j: int| 0 <= i < j < rels.len() implies path_le(
        #[trigger] by_path()(rels[i]),
        #[trigger] by_path()(rels[j]),
    ) by {
        assert(path_le(key(sorted[i]), key(sorted[j])));
    }
    assert(found.no_duplicates()) by {
        assert forall|a: int, b: int|
            0 <= a < found.len() && 0 <= b < found.len() && a != b implies found[a] != found[b] by {
            if a < b {
                assert(path_view(found[a]@) != path_view(found[b]@));
            } else {
                assert(path_view(found[b]@) != path_view(found[a]@));
            }
        }
    }
    found.lemma_multiset_has_no_duplicates();
    sorted.lemma_multiset_has_no_duplicates_conv();
    assert forall|i: int, j: int|
        0 <= i < rels.len() && 0 <= j < rels.len() && i != j implies rels[i] != rels[j] by {
        let a = lemma_sort_items(found, key, i);
        let b = lemma_sort_items(found, key, j);
        if a != b {
            if a < b {
                assert(path_view(found[a]@) != path_view(found[b]@));
            } else {
                assert(path_view(found[b]@) != path_view(found[a]@));
            }
        } else {
            assert(sorted[i] == sorted[j]);
        }
    }
    assert forall|k: int| 0 <= k < rels.len() implies (#[trigger] rels[k]).len() > 0
        && v.files.contains_key(dir + rels[k]) by {
        let a = lemma_sort_items(found, key, k);
        assert(path_view(found[a]@).len() > 0);
    }
    assert forall|rel: Seq<Seq<u8>>|
        rel.len() > 0 && #[trigger] v.files.contains_key(dir + rel) implies rels.contains(rel) by {
        let k = choose|k: int| 0 <= k < found.len() && path_view((#[trigger] found[k])@) == rel;
        assert(found.contains(found[k]));
        assert(found.to_multiset().contains(found[k]));
        assert(sorted.to_multiset().contains(found[k]));
        assert(sorted.contains(found[k]));
        let i = choose|i: int| 0 <= i < sorted.len() && sorted[i] == found[k];
        assert(rels[i] == rel);
    }
}

} // verus!
