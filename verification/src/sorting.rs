//! Sorting by a key that is a path: segment by segment, each segment in the order of a
//! dictionary on bytes. Items with equal keys keep their order.

use vstd::prelude::*;
use crate::bytes::{bytes_eq, bytes_le, lemma_lex_le_antisym, lemma_lex_le_total, lemma_lex_le_trans, lex_le};
use crate::repository::path_view;

verus! {

/// The order of paths: the first segment in which two paths differ decides, and a path
/// comes before those that it begins.
pub open spec fn path_le(a: Seq<Seq<u8>>, b: Seq<Seq<u8>>) -> bool
    decreases a.len(),
{
    if a.len() == 0 {
        true
    } else if b.len() == 0 {
        false
    } else if a[0] != b[0] {
        lex_le(a[0], b[0])
    } else {
        path_le(a.drop_first(), b.drop_first())
    }
}

/// Any two paths are ordered one way or the other.
pub proof fn lemma_path_le_total(a: Seq<Seq<u8>>, b: Seq<Seq<u8>>)
    ensures
        path_le(a, b) || path_le(b, a),
    decreases a.len(),
{
    if a.len() > 0 && b.len() > 0 {
        if a[0] != b[0] {
            lemma_lex_le_total(a[0], b[0]);
        } else {
            lemma_path_le_total(a.drop_first(), b.drop_first());
        }
    }
}

/// The order of paths is transitive.
pub proof fn lemma_path_le_trans(a: Seq<Seq<u8>>, b: Seq<Seq<u8>>, c: Seq<Seq<u8>>)
    requires
        path_le(a, b),
        path_le(b, c),
    ensures
        path_le(a, c),
    decreases a.len(),
{
    if a.len() > 0 && b.len() > 0 && c.len() > 0 {
        if a[0] == b[0] && b[0] == c[0] {
            lemma_path_le_trans(a.drop_first(), b.drop_first(), c.drop_first());
        } else if a[0] != b[0] && b[0] != c[0] {
            lemma_lex_le_trans(a[0], b[0], c[0]);
            if a[0] == c[0] {
                lemma_lex_le_antisym(a[0], b[0]);
            }
        }
    }
}

/// Every path is ordered before itself.
pub proof fn lemma_path_le_refl(a: Seq<Seq<u8>>)
    ensures
        path_le(a, a),
    decreases a.len(),
{
    if a.len() > 0 {
        lemma_path_le_refl(a.drop_first());
    }
}

/// Two paths that are ordered both ways are equal.
pub proof fn lemma_path_le_antisym(a: Seq<Seq<u8>>, b: Seq<Seq<u8>>)
    requires
        path_le(a, b),
        path_le(b, a),
    ensures
        a == b,
    decreases a.len(),
{
    if a.len() > 0 && b.len() > 0 {
        if a[0] != b[0] {
            lemma_lex_le_antisym(a[0], b[0]);
        }
        lemma_path_le_antisym(a.drop_first(), b.drop_first());
        assert(a =~= seq![a[0]] + a.drop_first());
        assert(b =~= seq![b[0]] + b.drop_first());
    } else {
        assert(a =~= b);
    }
}

/// Whether `a` comes before `b` in the order of paths, or equals it.
pub fn path_before_or_equal(a: &[Vec<u8>], b: &[Vec<u8>]) -> (r: bool)
    ensures
        r == path_le(path_view(a@), path_view(b@)),
{
    let ghost pa = path_view(a@);
    let ghost pb = path_view(b@);
    let mut i: usize = 0;
    assert(pa.subrange(0, pa.len() as int) =~= pa);
    assert(pb.subrange(0, pb.len() as int) =~= pb);
    while i < a.len() && i < b.len()
        invariant
            i <= a@.len(),
            i <= b@.len(),
            pa == path_view(a@),
            pb == path_view(b@),
            path_le(pa, pb) == path_le(
                pa.subrange(i as int, pa.len() as int),
                pb.subrange(i as int, pb.len() as int),
            ),
        decreases a@.len() - i,
    {
        let ghost ra = pa.subrange(i as int, pa.len() as int);
        let ghost rb = pb.subrange(i as int, pb.len() as int);
        assert(ra[0] == a@[i as int]@ && rb[0] == b@[i as int]@);
        if !bytes_eq(a[i].as_slice(), b[i].as_slice()) {
            return bytes_le(a[i].as_slice(), b[i].as_slice());
        }
        assert(ra.drop_first() =~= pa.subrange(i + 1, pa.len() as int));
        assert(rb.drop_first() =~= pb.subrange(i + 1, pb.len() as int));
        i = i + 1;
    }
    i == a.len()
}

/// What can be sorted: an item with a key that is a path.
pub trait Keyed {
    /// The key by which the item is ordered.
    spec fn sort_key(&self) -> Seq<Seq<u8>>;

    /// Whether the key of `self` comes before the key of `other`, or equals it.
    fn before_or_equal(&self, other: &Self) -> (r: bool)
        ensures
            r == path_le(self.sort_key(), other.sort_key()),
    ;
}

/// The function that gives each item its key.
pub open spec fn key_of<T: Keyed>() -> spec_fn(T) -> Seq<Seq<u8>> {
    |t: T| t.sort_key()
}

/// The sorted list `s` with `x` put behind the last item that does not come after it.
pub open spec fn insert_sorted<T>(s: Seq<T>, x: T, key: spec_fn(T) -> Seq<Seq<u8>>) -> Seq<T>
    decreases s.len(),
{
    if s.len() == 0 {
        seq![x]
    } else if path_le(key(s.last()), key(x)) {
        s.push(x)
    } else {
        insert_sorted(s.drop_last(), x, key).push(s.last())
    }
}

/// The items of `s` in the order of their keys, items with equal keys in the order in which
/// they stand in `s`.
pub open spec fn sort_spec<T>(s: Seq<T>, key: spec_fn(T) -> Seq<Seq<u8>>) -> Seq<T>
    decreases s.len(),
{
    if s.len() == 0 {
        Seq::empty()
    } else {
        insert_sorted(sort_spec(s.drop_last(), key), s.last(), key)
    }
}

/// Whether the keys of `s` do not fall from one item to the next.
pub open spec fn is_sorted<T>(s: Seq<T>, key: spec_fn(T) -> Seq<Seq<u8>>) -> bool {
    forall|i: int, j: int| 0 <= i < j < s.len() ==> path_le(#[trigger] key(s[i]), #[trigger] key(s[j]))
}

/// The beginning of a sorted list is sorted.
proof fn lemma_sorted_front<T>(s: Seq<T>, key: spec_fn(T) -> Seq<Seq<u8>>)
    requires
        is_sorted(s, key),
        s.len() > 0,
    ensures
        is_sorted(s.drop_last(), key),
{
    let front = s.drop_last();
    assert forall|i: int, j: int| 0 <= i < j < front.len() implies path_le(
        #[trigger] key(front[i]),
        #[trigger] key(front[j]),
    ) by {
        assert(front[i] == s[i] && front[j] == s[j]);
        assert(path_le(key(s[i]), key(s[j])));
    }
}

/// Putting an item into a sorted list at its place keeps the list sorted, and adds that
/// item and no other.
pub proof fn lemma_insert_sorted<T>(s: Seq<T>, x: T, key: spec_fn(T) -> Seq<Seq<u8>>)
    requires
        is_sorted(s, key),
    ensures
        is_sorted(insert_sorted(s, x, key), key),
        insert_sorted(s, x, key).to_multiset() == s.to_multiset().insert(x),
        insert_sorted(s, x, key).len() == s.len() + 1,
    decreases s.len(),
{
    broadcast use vstd::seq_lib::group_to_multiset_ensures;

    let out = insert_sorted(s, x, key);
    if s.len() == 0 {
        assert(s =~= Seq::empty());
        assert(out =~= Seq::<T>::empty().push(x));
    } else if path_le(key(s.last()), key(x)) {
        assert forall|i: int, j: int| 0 <= i < j < out.len() implies path_le(
            #[trigger] key(out[i]),
            #[trigger] key(out[j]),
        ) by {
            if j == s.len() {
                if i < s.len() - 1 {
                    assert(path_le(key(s[i]), key(s[s.len() - 1])));
                    lemma_path_le_trans(key(s[i]), key(s.last()), key(x));
                }
            } else {
                assert(out[i] == s[i] && out[j] == s[j]);
                assert(path_le(key(s[i]), key(s[j])));
            }
        }
    } else {
        let front = s.drop_last();
        lemma_sorted_front(s, key);
        lemma_insert_sorted(front, x, key);
        let mid = insert_sorted(front, x, key);
        lemma_path_le_total(key(s.last()), key(x));
        assert forall|k: int| 0 <= k < mid.len() implies path_le(
            key(#[trigger] mid[k]),
            key(s.last()),
        ) by {
            assert(mid.to_multiset().contains(mid[k])) by {
                assert(mid.contains(mid[k]));
            }
            if mid[k] != x {
                assert(front.to_multiset().contains(mid[k]));
                assert(front.contains(mid[k]));
                let a = choose|a: int| 0 <= a < front.len() && front[a] == mid[k];
                assert(front[a] == s[a]);
                assert(path_le(key(s[a]), key(s[s.len() - 1])));
            }
        }
        assert forall|i: int, j: int| 0 <= i < j < out.len() implies path_le(
            #[trigger] key(out[i]),
            #[trigger] key(out[j]),
        ) by {
            if j == mid.len() {
                assert(out[i] == mid[i]);
            } else {
                assert(out[i] == mid[i] && out[j] == mid[j]);
                assert(path_le(key(mid[i]), key(mid[j])));
            }
        }
        assert(s =~= front.push(s.last()));
        assert(out.to_multiset() =~= s.to_multiset().insert(x));
    }
}

/// A sorted list is sorted, and holds the items of the list it was made of, each as often.
pub proof fn lemma_sort_spec<T>(s: Seq<T>, key: spec_fn(T) -> Seq<Seq<u8>>)
    ensures
        is_sorted(sort_spec(s, key), key),
        sort_spec(s, key).to_multiset() == s.to_multiset(),
        sort_spec(s, key).len() == s.len(),
    decreases s.len(),
{
    broadcast use vstd::seq_lib::group_to_multiset_ensures;

    if s.len() > 0 {
        lemma_sort_spec(s.drop_last(), key);
        lemma_insert_sorted(sort_spec(s.drop_last(), key), s.last(), key);
        assert(s =~= s.drop_last().push(s.last()));
    } else {
        assert(s =~= Seq::empty());
    }
}

/// Every item of a sorted list is an item of the list it was made of.
pub proof fn lemma_sort_items<T>(s: Seq<T>, key: spec_fn(T) -> Seq<Seq<u8>>, i: int) -> (k: int)
    requires
        0 <= i < sort_spec(s, key).len(),
    ensures
        0 <= k < s.len(),
        s[k] == sort_spec(s, key)[i],
{
    broadcast use vstd::seq_lib::group_to_multiset_ensures;

    lemma_sort_spec(s, key);
    let sorted = sort_spec(s, key);
    assert(sorted.contains(sorted[i]));
    assert(sorted.to_multiset().contains(sorted[i]));
    assert(s.to_multiset().contains(sorted[i]));
    assert(s.contains(sorted[i]));
    choose|k: int| 0 <= k < s.len() && s[k] == sorted[i]
}

/// Sorting a sorted list changes nothing.
pub proof fn lemma_sort_sorted<T>(s: Seq<T>, key: spec_fn(T) -> Seq<Seq<u8>>)
    requires
        is_sorted(s, key),
    ensures
        sort_spec(s, key) == s,
    decreases s.len(),
{
    if s.len() > 0 {
        let front = s.drop_last();
        lemma_sorted_front(s, key);
        lemma_sort_sorted(front, key);
        if front.len() > 0 {
            assert(front.last() == s[s.len() - 2]);
            assert(path_le(key(s[s.len() - 2]), key(s[s.len() - 1])));
        }
        assert(front.push(s.last()) =~= s);
    } else {
        assert(s =~= Seq::empty());
    }
}

/// Sorting twice is sorting once.
pub proof fn lemma_sort_twice<T>(s: Seq<T>, key: spec_fn(T) -> Seq<Seq<u8>>)
    ensures
        sort_spec(sort_spec(s, key), key) == sort_spec(s, key),
{
    lemma_sort_spec(s, key);
    lemma_sort_sorted(sort_spec(s, key), key);
}

/// Sorting what a function makes of the items is what the function makes of the sorted
/// items, where the function keeps the keys.
pub proof fn lemma_sort_map<A, B>(
    s: Seq<A>,
    f: spec_fn(A) -> B,
    key_a: spec_fn(A) -> Seq<Seq<u8>>,
    key_b: spec_fn(B) -> Seq<Seq<u8>>,
)
    requires
        forall|a: A| #[trigger] key_a(a) == key_b(f(a)),
    ensures
        sort_spec(s, key_a).map_values(f) == sort_spec(s.map_values(f), key_b),
    decreases s.len(),
{
    if s.len() == 0 {
        assert(s.map_values(f) =~= Seq::empty());
        assert(sort_spec(s, key_a).map_values(f) =~= Seq::empty());
    } else {
        lemma_sort_map(s.drop_last(), f, key_a, key_b);
        assert(s.map_values(f).drop_last() =~= s.drop_last().map_values(f));
        assert(s.map_values(f).last() == f(s.last()));
        lemma_insert_map(sort_spec(s.drop_last(), key_a), s.last(), f, key_a, key_b);
    }
}

proof fn lemma_insert_map<A, B>(
    s: Seq<A>,
    x: A,
    f: spec_fn(A) -> B,
    key_a: spec_fn(A) -> Seq<Seq<u8>>,
    key_b: spec_fn(B) -> Seq<Seq<u8>>,
)
    requires
        forall|a: A| #[trigger] key_a(a) == key_b(f(a)),
    ensures
        insert_sorted(s, x, key_a).map_values(f) == insert_sorted(s.map_values(f), f(x), key_b),
    decreases s.len(),
{
    let t = s.map_values(f);
    assert(key_a(x) == key_b(f(x)));
    if s.len() == 0 {
        assert(insert_sorted(s, x, key_a).map_values(f) =~= seq![f(x)]);
    } else {
        assert(t.last() == f(s.last()));
        assert(key_a(s.last()) == key_b(f(s.last())));
        if path_le(key_a(s.last()), key_a(x)) {
            assert(s.push(x).map_values(f) =~= t.push(f(x)));
        } else {
            lemma_insert_map(s.drop_last(), x, f, key_a, key_b);
            assert(t.drop_last() =~= s.drop_last().map_values(f));
            assert(insert_sorted(s.drop_last(), x, key_a).push(s.last()).map_values(f)
                =~= insert_sorted(s.drop_last(), x, key_a).map_values(f).push(f(s.last())));
        }
    }
}

/// Where `x` goes into `s`: behind the `at` first items, where the item before that place
/// does not come after `x` and all items from that place on do.
proof fn lemma_insert_at<T>(s: Seq<T>, x: T, key: spec_fn(T) -> Seq<Seq<u8>>, at: int)
    requires
        0 <= at <= s.len(),
        at > 0 ==> path_le(key(s[at - 1]), key(x)),
        forall|k: int| at <= k < s.len() ==> !path_le(#[trigger] key(s[k]), key(x)),
    ensures
        insert_sorted(s, x, key) == s.subrange(0, at).push(x) + s.subrange(at, s.len() as int),
    decreases s.len() - at,
{
    let out = s.subrange(0, at).push(x) + s.subrange(at, s.len() as int);
    if at == s.len() {
        assert(s.subrange(0, at) =~= s);
        assert(out =~= s.push(x));
    } else {
        let front = s.drop_last();
        assert(!path_le(key(s[s.len() - 1]), key(x)));
        assert forall|k: int| at <= k < front.len() implies !path_le(
            #[trigger] key(front[k]),
            key(x),
        ) by {
            assert(front[k] == s[k]);
            assert(!path_le(key(s[k]), key(x)));
        }
        if at > 0 {
            assert(front[at - 1] == s[at - 1]);
        }
        lemma_insert_at(front, x, key, at);
        assert(front.subrange(0, at) =~= s.subrange(0, at));
        assert(out =~= (front.subrange(0, at).push(x) + front.subrange(at, front.len() as int)).push(
            s.last(),
        ));
    }
}

/// Sorts `items` by their keys; items with equal keys keep their order.
pub fn sort<T: Keyed>(items: Vec<T>) -> (out: Vec<T>)
    ensures
        out@ == sort_spec(items@, key_of::<T>()),
{
    let mut rest = items;
    let mut out: Vec<T> = Vec::new();
    let ghost all = rest@;
    let ghost key = key_of::<T>();
    let ghost mut done: int = 0;
    assert(all.subrange(0, 0) =~= Seq::empty());
    assert(all.subrange(0, all.len() as int) =~= all);
    while rest.len() > 0
        invariant
            0 <= done <= all.len(),
            key == key_of::<T>(),
            rest@ == all.subrange(done, all.len() as int),
            out@ == sort_spec(all.subrange(0, done), key),
        decreases rest@.len(),
    {
        let x = rest.remove(0);
        assert(x == all[done]);
        let mut at: usize = out.len();
        while at > 0 && !out[at - 1].before_or_equal(&x)
            invariant
                at <= out@.len(),
                key == key_of::<T>(),
                forall|k: int| at <= k < out@.len() ==> !path_le(#[trigger] key(out@[k]), key(x)),
            decreases at,
        {
            at = at - 1;
        }
        proof {
            lemma_insert_at(out@, x, key, at as int);
            let next = all.subrange(0, done + 1);
            assert(next.drop_last() =~= all.subrange(0, done));
            assert(next.last() == x);
        }
        let ghost before = out@;
        out.insert(at, x);
        assert(out@ =~= before.subrange(0, at as int).push(x) + before.subrange(
            at as int,
            before.len() as int,
        ));
        proof {
            done = done + 1;
        }
        assert(rest@ =~= all.subrange(done, all.len() as int));
    }
    assert(all.subrange(0, all.len() as int) =~= all);
    out
}

} // verus!
