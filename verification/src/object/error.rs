//! The ways in which an operation on the store fails.

use vstd::prelude::*;
use vstd::string::StringExecFns;
use crate::object::ObjectType;
use crate::text::texts;

verus! {

/// Why an operation on the store failed.
#[derive(Debug, PartialEq, Eq)]
pub enum ObjectError {
    /// A name that stands for none of the four kinds of object.
    UnrecognizedObjectType(String),
    /// No object, reference or directory is stored under the name.
    NotFound,
    /// Stored bytes that do not have the shape of what they should hold.
    Malformed,
    /// A name that stands for more than one object, with the digests of all of them.
    Ambiguous(Vec<String>),
    /// The object found is not of the kind asked for, and nothing leads on from it.
    KindMismatch,
    /// An object of a kind that cannot stand at its place in a tree: its digest, the kind
    /// that the mode of its record stands for, and the kind that it has.
    InvariantViolation { digest: String, expected: Option<ObjectType>, actual: ObjectType },
    /// A chain of references or annotations that never ends.
    CycleDetected,
    /// The compressor or the decompressor failed.
    Compression,
    /// A file cannot be created where it should stand.
    CannotCreate,
    /// A path that does not lie below the working tree.
    OutsideWorktree,
}

/// What an error holds.
pub enum ErrorView {
    UnrecognizedObjectType(Seq<char>),
    NotFound,
    Malformed,
    Ambiguous(Seq<Seq<char>>),
    KindMismatch,
    InvariantViolation { digest: Seq<char>, expected: Option<ObjectType>, actual: ObjectType },
    CycleDetected,
    Compression,
    CannotCreate,
    OutsideWorktree,
}

impl View for ObjectError {
    type V = ErrorView;

    open spec fn view(&self) -> ErrorView {
        match self {
            ObjectError::UnrecognizedObjectType(name) => ErrorView::UnrecognizedObjectType(name@),
            ObjectError::NotFound => ErrorView::NotFound,
            ObjectError::Malformed => ErrorView::Malformed,
            ObjectError::Ambiguous(digests) => ErrorView::Ambiguous(texts(digests@)),
            ObjectError::KindMismatch => ErrorView::KindMismatch,
            ObjectError::InvariantViolation { digest, expected, actual } => ErrorView::InvariantViolation {
                digest: digest@,
                expected: *expected,
                actual: *actual,
            },
            ObjectError::CycleDetected => ErrorView::CycleDetected,
            ObjectError::Compression => ErrorView::Compression,
            ObjectError::CannotCreate => ErrorView::CannotCreate,
            ObjectError::OutsideWorktree => ErrorView::OutsideWorktree,
        }
    }
}

/// The text of an error.
pub open spec fn message_of(e: ErrorView) -> Seq<char> {
    match e {
        ErrorView::UnrecognizedObjectType(name) => "Unrecognized Object type: "@ + name,
        ErrorView::NotFound => "Nothing is stored under the name"@,
        ErrorView::Malformed => "Malformed data"@,
        ErrorView::Ambiguous(digests) => "Ambiguous name. Candidates:"@ + listed(digests),
        ErrorView::KindMismatch => "No object matching requested type"@,
        ErrorView::InvariantViolation { digest, expected, actual } =>
            "Unexpected object in tree: <type: "@ + crate::object::kind_name(actual) + " hash: "@
                + digest + ">"@,
        ErrorView::CycleDetected => "A chain of names never ends"@,
        ErrorView::Compression => "Compression failed"@,
        ErrorView::CannotCreate => "Could not create file"@,
        ErrorView::OutsideWorktree => "Path outside worktree"@,
    }
}

/// The digests of a list, each behind a space.
pub open spec fn listed(digests: Seq<Seq<char>>) -> Seq<char>
    decreases digests.len(),
{
    if digests.len() == 0 {
        Seq::empty()
    } else {
        listed(digests.drop_last()) + " "@ + digests.last()
    }
}

impl ObjectError {
    /// The text of the error.
    pub fn to_string(&self) -> (r: String)
        ensures
            r@ == message_of(self@),
    {
        match self {
            ObjectError::UnrecognizedObjectType(name) => "Unrecognized Object type: ".to_owned().concat(
                name.as_str(),
            ),
            ObjectError::NotFound => "Nothing is stored under the name".to_owned(),
            ObjectError::Malformed => "Malformed data".to_owned(),
            ObjectError::Ambiguous(digests) => {
                let mut out = "Ambiguous name. Candidates:".to_owned();
                let ghost all = texts(digests@);
                let mut i: usize = 0;
                assert(all.subrange(0, 0) =~= Seq::<Seq<char>>::empty());
                assert(out@ =~= "Ambiguous name. Candidates:"@ + listed(all.subrange(0, 0)));
                while i < digests.len()
                    invariant
                        i <= digests@.len(),
                        all == texts(digests@),
                        out@ == "Ambiguous name. Candidates:"@ + listed(all.subrange(0, i as int)),
                    decreases digests@.len() - i,
                {
                    let ghost before = all.subrange(0, i as int);
                    let ghost after = all.subrange(0, i + 1);
                    proof {
                        assert(after.drop_last() =~= before);
                        assert(after.last() == digests@[i as int]@);
                    }
                    out.append(" ");
                    out.append(digests[i].as_str());
                    i = i + 1;
                    assert(out@ =~= "Ambiguous name. Candidates:"@ + listed(after));
                }
                assert(all.subrange(0, all.len() as int) =~= all);
                out
            },
            ObjectError::KindMismatch => "No object matching requested type".to_owned(),
            ObjectError::InvariantViolation { digest, expected, actual } =>
                "Unexpected object in tree: <type: ".to_owned().concat(actual.name()).concat(
                    " hash: ",
                ).concat(digest.as_str()).concat(">"),
            ObjectError::CycleDetected => "A chain of names never ends".to_owned(),
            ObjectError::Compression => "Compression failed".to_owned(),
            ObjectError::CannotCreate => "Could not create file".to_owned(),
            ObjectError::OutsideWorktree => "Path outside worktree".to_owned(),
        }
    }
}

} // verus!
