//! Insertion-ordered maps of the crate indexmap, as the library uses them: a map from a
//! header's key to its values, and a map from a reference's name to its digest.

use vstd::prelude::*;

verus! {

#[verifier::external_type_specification]
#[verifier::external_body]
#[verifier::reject_recursive_types(K)]
#[verifier::reject_recursive_types(V)]
#[verifier::reject_recursive_types(S)]
pub struct ExIndexMap<K, V, S>(indexmap::IndexMap<K, V, S>);

/// The pairs of key and values that a header map holds, in its order.
pub uninterp spec fn header_entries(
    m: indexmap::IndexMap<String, Vec<String>, std::hash::RandomState>,
) -> Seq<(Seq<char>, Seq<Seq<char>>)>;

/// The pairs of name and digest that a reference map holds, in its order.
pub uninterp spec fn ref_entries(
    m: indexmap::IndexMap<String, String, std::hash::RandomState>,
) -> Seq<(Seq<char>, Seq<char>)>;

/// The index of the first pair of `entries` whose key is `key`, or the length where no pair
/// has that key.
pub open spec fn index_of_key<V>(entries: Seq<(Seq<char>, V)>, key: Seq<char>) -> int
    decreases entries.len(),
{
    if entries.len() == 0 {
        0
    } else if entries[0].0 == key {
        0
    } else {
        1 + index_of_key(entries.drop_first(), key)
    }
}

/// Whether no two pairs of `entries` have the same key.
pub open spec fn distinct_keys<V>(entries: Seq<(Seq<char>, V)>) -> bool {
    forall|i: int, j: int|
        0 <= i < j < entries.len() ==> (#[trigger] entries[i]).0 != (#[trigger] entries[j]).0
}

/// `entries` with `value` under `key`: in the place of the pair that has the key, or
/// last where no pair has it.
pub open spec fn with_key<V>(entries: Seq<(Seq<char>, V)>, key: Seq<char>, value: V) -> Seq<
    (Seq<char>, V),
> {
    let i = index_of_key(entries, key);
    if i < entries.len() {
        entries.update(i, (key, value))
    } else {
        entries.push((key, value))
    }
}

/// `index_of_key` is the least index that holds the key.
pub proof fn lemma_index_of_key<V>(entries: Seq<(Seq<char>, V)>, key: Seq<char>)
    ensures
        0 <= index_of_key(entries, key) <= entries.len(),
        index_of_key(entries, key) < entries.len() ==> entries[index_of_key(entries, key)].0
            == key,
        forall|k: int| 0 <= k < index_of_key(entries, key) ==> (#[trigger] entries[k]).0 != key,
    decreases entries.len(),
{
    if entries.len() > 0 && entries[0].0 != key {
        let rest = entries.drop_first();
        lemma_index_of_key(rest, key);
        assert forall|k: int| 0 <= k < index_of_key(entries, key) implies (#[trigger] entries[k]).0
            != key by {
            if k > 0 {
                assert(entries[k] == rest[k - 1]);
            }
        }
    }
}

/// Putting a value under a key keeps the keys distinct.
pub proof fn lemma_with_key_distinct<V>(entries: Seq<(Seq<char>, V)>, key: Seq<char>, value: V)
    requires
        distinct_keys(entries),
    ensures
        distinct_keys(with_key(entries, key, value)),
{
    lemma_index_of_key(entries, key);
    let i = index_of_key(entries, key);
    let out = with_key(entries, key, value);
    assert forall|a: int, b: int| 0 <= a < b < out.len() implies (#[trigger] out[a]).0 != (
    #[trigger] out[b]).0 by {
        if i < entries.len() {
            assert(out[a].0 == entries[a].0);
            assert(out[b].0 == entries[b].0);
        } else {
            if b < entries.len() {
                assert(out[a] == entries[a]);
                assert(out[b] == entries[b]);
            } else {
                assert(out[a] == entries[a]);
            }
        }
    }
}

/// `IndexMap::new`. Trusted: the new map holds nothing.
#[verifier::external_body]
pub(crate) fn headers_new() -> (m: indexmap::IndexMap<
    String,
    Vec<String>,
    std::hash::RandomState,
>)
    ensures
        header_entries(m).len() == 0,
{
    indexmap::IndexMap::new()
}

/// `IndexMap::len`. Trusted: the number of pairs.
#[verifier::external_body]
pub(crate) fn headers_len(
    m: &indexmap::IndexMap<String, Vec<String>, std::hash::RandomState>,
) -> (n: usize)
    ensures
        n == header_entries(*m).len(),
{
    m.len()
}

/// `IndexMap::insert`. Trusted: a key that the map holds keeps its place and gets the new
/// values; another key comes last with them.
#[verifier::external_body]
pub(crate) fn headers_insert(
    m: &mut indexmap::IndexMap<String, Vec<String>, std::hash::RandomState>,
    key: String,
    values: Vec<String>,
)
    ensures
        header_entries(*final(m)) == with_key(header_entries(*old(m)), key@, values.deep_view()),
{
    m.insert(key, values);
}

/// `IndexMap::get`. Trusted: the values under the key, where the map holds the key.
#[verifier::external_body]
pub(crate) fn headers_get<'a>(
    m: &'a indexmap::IndexMap<String, Vec<String>, std::hash::RandomState>,
    key: &str,
) -> (r: Option<&'a Vec<String>>)
    ensures
        match r {
            Some(values) => {
                let i = index_of_key(header_entries(*m), key@);
                i < header_entries(*m).len() && header_entries(*m)[i].1 == values.deep_view()
            },
            None => index_of_key(header_entries(*m), key@) == header_entries(*m).len(),
        },
{
    m.get(key)
}

/// `IndexMap::get_index`. Trusted: the pair at a place in the map's order, for the places
/// below its length.
#[verifier::external_body]
pub(crate) fn headers_get_index<'a>(
    m: &'a indexmap::IndexMap<String, Vec<String>, std::hash::RandomState>,
    index: usize,
) -> (r: Option<(&'a String, &'a Vec<String>)>)
    ensures
        match r {
            Some((key, values)) => index < header_entries(*m).len() && header_entries(
                *m,
            )[index as int] == (key@, values.deep_view()),
            None => index >= header_entries(*m).len(),
        },
{
    m.get_index(index)
}

/// `IndexMap::new`. Trusted: the new map holds nothing.
#[verifier::external_body]
pub(crate) fn refs_new() -> (m: indexmap::IndexMap<String, String, std::hash::RandomState>)
    ensures
        ref_entries(m).len() == 0,
{
    indexmap::IndexMap::new()
}

/// `IndexMap::insert`. Trusted: a name that the map holds keeps its place and gets the
/// new digest; another name comes last with it.
#[verifier::external_body]
pub(crate) fn refs_insert(
    m: &mut indexmap::IndexMap<String, String, std::hash::RandomState>,
    name: String,
    digest: String,
)
    ensures
        ref_entries(*final(m)) == with_key(ref_entries(*old(m)), name@, digest@),
{
    m.insert(name, digest);
}

} // verus!
