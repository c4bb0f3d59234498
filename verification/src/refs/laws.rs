//! What holds of references: a chain fails with `CycleDetected` exactly where it comes
//! back to a path at which it was before, and the files under a directory are listed in
//! one order alone.

use vstd::prelude::*;
use crate::object::error::ErrorView;
use crate::refs::{by_path, lists_files, parse_ref, resolve_in, resolve_spec, RefContent};
use crate::repository::RepositoryView;
use crate::sorting::{
    lemma_path_le_antisym, lemma_path_le_refl, lemma_path_le_total, lemma_path_le_trans, path_le,
};

verus! {

/// The path that the file at `at` names, where the file is a reference to another
/// reference.
pub open spec fn next_path(files: Map<Seq<Seq<u8>>, Seq<u8>>, at: Seq<Seq<u8>>) -> Option<
    Seq<Seq<u8>>,
> {
    if files.contains_key(at) {
        match parse_ref(files[at]) {
            Ok(RefContent::Link(target)) => Some(target),
            _ => None,
        }
    } else {
        None
    }
}

/// The path at which the chain of references from `path` stands after `k` steps, where
/// every reference before it names another.
pub open spec fn reached(files: Map<Seq<Seq<u8>>, Seq<u8>>, path: Seq<Seq<u8>>, k: nat) -> Option<
    Seq<Seq<u8>>,
>
    decreases k,
{
    if k == 0 {
        Some(path)
    } else {
        match reached(files, path, (k - 1) as nat) {
            None => None,
            Some(at) => next_path(files, at),
        }
    }
}

/// The chain from a reference after one step more is the chain from what it names.
proof fn lemma_reached_shift(
    files: Map<Seq<Seq<u8>>, Seq<u8>>,
    path: Seq<Seq<u8>>,
    target: Seq<Seq<u8>>,
    k: nat,
)
    requires
        next_path(files, path) == Some(target),
    ensures
        reached(files, path, k + 1) == reached(files, target, k),
    decreases k,
{
    if k > 0 {
        lemma_reached_shift(files, path, target, (k - 1) as nat);
    } else {
        assert(reached(files, path, 0) == Some(path));
    }
}

/// A chain that fails with `CycleDetected` stands at a file after each of its steps.
proof fn lemma_cycle_chain(
    files: Map<Seq<Seq<u8>>, Seq<u8>>,
    path: Seq<Seq<u8>>,
    fuel: nat,
    k: nat,
)
    requires
        resolve_spec(files, path, fuel) == Err::<Seq<char>, ErrorView>(ErrorView::CycleDetected),
        k <= fuel,
    ensures
        reached(files, path, k) matches Some(at) && files.contains_key(at),
    decreases fuel,
{
    if k > 0 {
        let target = next_path(files, path)->0;
        lemma_cycle_chain(files, target, (fuel - 1) as nat, (k - 1) as nat);
        lemma_reached_shift(files, path, target, (k - 1) as nat);
    }
}

/// A chain that fails with `CycleDetected` comes back to a path at which it was before,
/// within as many steps as there are files.
pub proof fn lemma_cycle_repeats(v: RepositoryView, path: Seq<Seq<u8>>)
    requires
        v.files.dom().finite(),
        resolve_in(v, path) == Err::<Seq<char>, ErrorView>(ErrorView::CycleDetected),
    ensures
        exists|i: int, j: int|
            0 <= i < j <= v.files.dom().len() && #[trigger] reached(v.files, path, i as nat)
                is Some && reached(v.files, path, i as nat) == #[trigger] reached(
                v.files,
                path,
                j as nat,
            ),
{
    let n = v.files.dom().len();
    let chain = Seq::new(n + 1, |k: int| reached(v.files, path, k as nat)->0);
    assert forall|k: int| 0 <= k < chain.len() implies v.files.dom().contains(
        #[trigger] chain[k],
    ) by {
        lemma_cycle_chain(v.files, path, n, k as nat);
    }
    if chain.no_duplicates() {
        chain.unique_seq_to_set();
        assert(chain.to_set().subset_of(v.files.dom())) by {
            assert forall|p: Seq<Seq<u8>>| chain.to_set().contains(p) implies v.files.dom().contains(
                p,
            ) by {
                let k = choose|k: int| 0 <= k < chain.len() && chain[k] == p;
                assert(v.files.dom().contains(chain[k]));
            }
        }
        vstd::set_lib::lemma_len_subset(chain.to_set(), v.files.dom());
        assert(false);
    }
    let (a, b) = choose|a: int, b: int|
        0 <= a < chain.len() && 0 <= b < chain.len() && a != b && chain[a] == chain[b];
    let i = if a < b {
        a
    } else {
        b
    };
    let j = if a < b {
        b
    } else {
        a
    };
    lemma_cycle_chain(v.files, path, n, i as nat);
    lemma_cycle_chain(v.files, path, n, j as nat);
    assert(reached(v.files, path, i as nat) == reached(v.files, path, j as nat));
}

/// A chain that stands after some steps stands after every smaller number of steps.
proof fn lemma_reached_before(
    files: Map<Seq<Seq<u8>>, Seq<u8>>,
    path: Seq<Seq<u8>>,
    j: nat,
    k: nat,
)
    requires
        reached(files, path, j) is Some,
        k <= j,
    ensures
        reached(files, path, k) is Some,
    decreases j,
{
    if k < j {
        lemma_reached_before(files, path, (j - 1) as nat, k);
    }
}

/// A chain that stands at one path after `i` and after `j` steps goes on alike from either.
proof fn lemma_reached_period(
    files: Map<Seq<Seq<u8>>, Seq<u8>>,
    path: Seq<Seq<u8>>,
    i: nat,
    j: nat,
    m: nat,
)
    requires
        reached(files, path, i) == reached(files, path, j),
    ensures
        reached(files, path, i + m) == reached(files, path, j + m),
    decreases m,
{
    if m > 0 {
        lemma_reached_period(files, path, i, j, (m - 1) as nat);
    }
}

/// A chain that comes back to a path at which it was before stands after any number of steps.
proof fn lemma_reached_ever(
    files: Map<Seq<Seq<u8>>, Seq<u8>>,
    path: Seq<Seq<u8>>,
    i: nat,
    j: nat,
    k: nat,
)
    requires
        i < j,
        reached(files, path, i) is Some,
        reached(files, path, i) == reached(files, path, j),
    ensures
        reached(files, path, k) is Some,
    decreases k,
{
    if k <= j {
        lemma_reached_before(files, path, j, k);
    } else {
        let m = (k - j) as nat;
        lemma_reached_period(files, path, i, j, m);
        lemma_reached_ever(files, path, i, j, i + m);
    }
}

/// A chain that stands after any number of steps fails with `CycleDetected`, however many
/// steps it may take.
proof fn lemma_endless_chain(files: Map<Seq<Seq<u8>>, Seq<u8>>, path: Seq<Seq<u8>>, fuel: nat)
    requires
        forall|k: nat| (#[trigger] reached(files, path, k)) is Some,
    ensures
        resolve_spec(files, path, fuel) == Err::<Seq<char>, ErrorView>(ErrorView::CycleDetected),
    decreases fuel,
{
    assert(reached(files, path, 1) is Some);
    assert(reached(files, path, 0) == Some(path));
    let target = next_path(files, path)->0;
    if fuel > 0 {
        assert forall|k: nat| (#[trigger] reached(files, target, k)) is Some by {
            lemma_reached_shift(files, path, target, k);
            assert(reached(files, path, k + 1) is Some);
        }
        lemma_endless_chain(files, target, (fuel - 1) as nat);
    }
}

/// A chain that comes back to a path at which it was before fails with `CycleDetected`,
/// however many steps it may take.
pub proof fn lemma_repeat_is_cycle(
    files: Map<Seq<Seq<u8>>, Seq<u8>>,
    path: Seq<Seq<u8>>,
    i: nat,
    j: nat,
    fuel: nat,
)
    requires
        i < j,
        reached(files, path, i) is Some,
        reached(files, path, i) == reached(files, path, j),
    ensures
        resolve_spec(files, path, fuel) == Err::<Seq<char>, ErrorView>(ErrorView::CycleDetected),
{
    assert forall|k: nat| (#[trigger] reached(files, path, k)) is Some by {
        lemma_reached_ever(files, path, i, j, k);
    }
    lemma_endless_chain(files, path, fuel);
}

/// The order of paths as a relation.
pub open spec fn path_order() -> spec_fn(Seq<Seq<u8>>, Seq<Seq<u8>>) -> bool {
    |a: Seq<Seq<u8>>, b: Seq<Seq<u8>>| path_le(a, b)
}

/// The order of paths orders any two paths, and orders them one way alone where they
/// differ.
proof fn lemma_path_order_total()
    ensures
        vstd::relations::total_ordering(path_order()),
{
    let leq = path_order();
    assert forall|a: Seq<Seq<u8>>| #[trigger] leq(a, a) by {
        lemma_path_le_refl(a);
    }
    assert forall|a: Seq<Seq<u8>>, b: Seq<Seq<u8>>|
        #[trigger] leq(a, b) && #[trigger] leq(b, a) implies a == b by {
        lemma_path_le_antisym(a, b);
    }
    assert forall|a: Seq<Seq<u8>>, b: Seq<Seq<u8>>, c: Seq<Seq<u8>>|
        #[trigger] leq(a, b) && #[trigger] leq(b, c) implies leq(a, c) by {
        lemma_path_le_trans(a, b, c);
    }
    assert forall|a: Seq<Seq<u8>>, b: Seq<Seq<u8>>| #[trigger] leq(a, b) || #[trigger] leq(b, a) by {
        lemma_path_le_total(a, b);
    }
}

/// The files in a directory and under it have one order alone in which a walk finds them:
/// two lists that list them are the same list.
pub proof fn lemma_lists_files_unique(
    v: RepositoryView,
    dir: Seq<Seq<u8>>,
    a: Seq<Seq<Seq<u8>>>,
    b: Seq<Seq<Seq<u8>>>,
)
    requires
        lists_files(v, dir, a),
        lists_files(v, dir, b),
    ensures
        a == b,
{
    broadcast use vstd::seq_lib::group_to_multiset_ensures;

    lemma_path_order_total();
    a.lemma_multiset_has_no_duplicates();
    b.lemma_multiset_has_no_duplicates();
    assert forall|p: Seq<Seq<u8>>| a.to_multiset().count(p) == b.to_multiset().count(p) by {
        if a.contains(p) {
            let k = choose|k: int| 0 <= k < a.len() && a[k] == p;
            assert(a[k].len() > 0 && v.files.contains_key(dir + a[k]));
            assert(b.contains(p));
            assert(a.to_multiset().contains(p));
            assert(b.to_multiset().contains(p));
        } else if b.contains(p) {
            let k = choose|k: int| 0 <= k < b.len() && b[k] == p;
            assert(b[k].len() > 0 && v.files.contains_key(dir + b[k]));
            assert(a.contains(p));
        } else {
            assert(!a.to_multiset().contains(p));
            assert(!b.to_multiset().contains(p));
        }
    }
    assert(a.to_multiset() =~= b.to_multiset());
    assert(vstd::relations::sorted_by(a, path_order())) by {
        assert forall|i: int, j: int| 0 <= i < j < a.len() implies #[trigger] path_order()(
            a[i],
            a[j],
        ) by {
            assert(path_le(by_path()(a[i]), by_path()(a[j])));
        }
    }
    assert(vstd::relations::sorted_by(b, path_order())) by {
        assert forall|i: int, j: int| 0 <= i < j < b.len() implies #[trigger] path_order()(
            b[i],
            b[j],
        ) by {
            assert(path_le(by_path()(b[i]), by_path()(b[j])));
        }
    }
    vstd::seq_lib::lemma_sorted_unique(a, b, path_order());
}

} // verus!
