//! Paths as text with slashes: the directory that holds a path, the name of a path, and
//! the directories above a path.

use vstd::prelude::*;
use crate::bytes::{subvec, SLASH};
use crate::text::{string_from_utf8, text_of, texts, utf8};

verus! {

/// The index of the last slash in a path, or -1 where the path has none.
pub open spec fn last_slash(path: Seq<u8>) -> int
    decreases path.len(),
{
    if path.len() == 0 {
        -1
    } else if path.last() == SLASH {
        path.len() - 1
    } else {
        last_slash(path.drop_last())
    }
}

/// The directory that holds a path: what stands before its last slash; the root `/` for
/// a path directly below the root; the empty path for a path without a slash. The empty path
/// and the root have none.
pub open spec fn parent_of(path: Seq<u8>) -> Option<Seq<u8>> {
    let at = last_slash(path);
    if path.len() == 0 {
        None
    } else if at < 0 {
        Some(Seq::empty())
    } else if at == 0 {
        if path.len() == 1 {
            None
        } else {
            Some(seq![SLASH])
        }
    } else {
        Some(path.subrange(0, at))
    }
}

/// The name of a path: what stands behind its last slash. A path that is empty or ends
/// with a slash has none.
pub open spec fn file_name_of(path: Seq<u8>) -> Option<Seq<u8>> {
    let at = last_slash(path);
    if at + 1 >= path.len() {
        None
    } else {
        Some(path.subrange(at + 1, path.len() as int))
    }
}

/// The path and the directories above it, from the path upwards, each as text; those that
/// are not UTF-8 are left out.
pub open spec fn search_path(path: Seq<u8>) -> Seq<Seq<char>>
    decreases path.len(),
{
    let above = match parent_of(path) {
        Some(dir) => {
            proof {
                lemma_parent_shorter(path);
            }
            search_path(dir)
        },
        None => Seq::empty(),
    };
    match text_of(path) {
        Some(text) => seq![text] + above,
        None => above,
    }
}

/// The last slash of a path lies in the path and is a slash, and no slash follows it.
pub proof fn lemma_last_slash(path: Seq<u8>)
    ensures
        -1 <= last_slash(path) < path.len(),
        last_slash(path) >= 0 ==> path[last_slash(path)] == SLASH,
        forall|k: int| last_slash(path) < k < path.len() ==> path[k] != SLASH,
    decreases path.len(),
{
    if path.len() > 0 && path.last() != SLASH {
        let front = path.drop_last();
        lemma_last_slash(front);
        assert forall|k: int| last_slash(path) < k < path.len() implies path[k] != SLASH by {
            if k < front.len() {
                assert(front[k] == path[k]);
            }
        }
    }
}

/// The directory that holds a path has a shorter path.
pub proof fn lemma_parent_shorter(path: Seq<u8>)
    ensures
        parent_of(path) matches Some(above) ==> above.len() < path.len(),
{
    lemma_last_slash(path);
}

/// The index of the last slash in a path.
fn find_last_slash(path: &[u8]) -> (r: Option<usize>)
    ensures
        match r {
            Some(at) => at == last_slash(path@),
            None => last_slash(path@) == -1,
        },
{
    let mut i: usize = path.len();
    assert(path@.subrange(0, path@.len() as int) =~= path@);
    while i > 0
        invariant
            i <= path@.len(),
            last_slash(path@) == last_slash(path@.subrange(0, i as int)),
        decreases i,
    {
        let ghost head = path@.subrange(0, i as int);
        assert(head.last() == path@[i - 1]);
        assert(head.drop_last() =~= path@.subrange(0, i - 1));
        if path[i - 1] == SLASH {
            return Some(i - 1);
        }
        i = i - 1;
    }
    None
}

/// The directory that holds a path.
pub fn parent(path: &[u8]) -> (r: Option<Vec<u8>>)
    ensures
        match r {
            Some(above) => parent_of(path@) == Some(above@),
            None => parent_of(path@) is None,
        },
{
    if path.len() == 0 {
        return None;
    }
    proof {
        lemma_last_slash(path@);
    }
    match find_last_slash(path) {
        None => Some(Vec::new()),
        Some(at) => {
            if at == 0 {
                if path.len() == 1 {
                    None
                } else {
                    let mut root: Vec<u8> = Vec::new();
                    root.push(SLASH);
                    assert(root@ =~= seq![SLASH]);
                    Some(root)
                }
            } else {
                Some(subvec(path, 0, at))
            }
        },
    }
}

/// The name of a path.
pub fn file_name(path: &[u8]) -> (r: Option<Vec<u8>>)
    ensures
        match r {
            Some(name) => file_name_of(path@) == Some(name@),
            None => file_name_of(path@) is None,
        },
{
    proof {
        lemma_last_slash(path@);
    }
    let start = match find_last_slash(path) {
        None => 0,
        Some(at) => {
            assert(at < path.len());
            at + 1
        },
    };
    if start >= path.len() {
        None
    } else {
        Some(subvec(path, start, path.len()))
    }
}

/// The path `start` and the directories above it, from the path upwards.
pub fn upward(start: &str) -> (r: Vec<String>)
    ensures
        texts(r@) == search_path(utf8(start@)),
{
    let mut out: Vec<String> = Vec::new();
    let bytes = start.as_bytes();
    let mut at = subvec(bytes, 0, bytes.len());
    assert(bytes@.subrange(0, bytes@.len() as int) =~= bytes@);
    let ghost whole = search_path(bytes@);
    assert(texts(out@) =~= Seq::<Seq<char>>::empty());
    loop
        invariant_except_break
            whole == texts(out@) + search_path(at@),
        invariant
            whole == search_path(utf8(start@)),
        ensures
            texts(out@) == whole,
        decreases at@.len(),
    {
        let ghost done = texts(out@);
        proof {
            lemma_parent_shorter(at@);
            assert(at@.subrange(0, at@.len() as int) =~= at@);
        }
        match string_from_utf8(subvec(at.as_slice(), 0, at.len())) {
            Some(text) => {
                out.push(text);
                assert(texts(out@) =~= done.push(text@));
            },
            None => {},
        }
        match parent(at.as_slice()) {
            Some(dir) => {
                proof {
                    let here = texts(out@);
                    assert(whole =~= here + search_path(dir@));
                }
                at = dir;
            },
            None => {
                proof {
                    let here = texts(out@);
                    assert(whole =~= here);
                }
                break;
            },
        }
    }
    out
}

} // verus!
