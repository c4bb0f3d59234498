//! Checking out a tree: what has to be created in a directory so that it holds what the
//! tree holds.

use vstd::prelude::*;
use vstd::string::StringExecFns;

use crate::object::error::{ErrorView, ObjectError};
use crate::object::tree::{kind_of_mode, views, Leaf, LeafView, Tree};
use crate::object::{kind_of_view, read_spec, GitrsObject, ObjectView};
use crate::repository::{Repository, RepositoryView};
use crate::text::utf8;

verus! {

/// One step of a checkout.
#[derive(Debug, Clone, PartialEq, Eq)]
pub enum FsAction {
    /// Create the directory at the path.
    CreateDir(String),
    /// Create the file at the path with the contents.
    WriteFile(String, Vec<u8>),
}

/// What a step of a checkout holds.
pub enum ActionView {
    CreateDir(Seq<char>),
    WriteFile(Seq<char>, Seq<u8>),
}

impl View for FsAction {
    type V = ActionView;

    open spec fn view(&self) -> ActionView {
        match self {
            FsAction::CreateDir(path) => ActionView::CreateDir(path@),
            FsAction::WriteFile(path, data) => ActionView::WriteFile(path@, data@),
        }
    }
}

/// The function that gives each step what it holds.
pub open spec fn action_view() -> spec_fn(FsAction) -> ActionView {
    |a: FsAction| a@
}

/// What a list of steps holds.
pub open spec fn action_views(actions: Seq<FsAction>) -> Seq<ActionView> {
    actions.map_values(action_view())
}

/// The steps of a checkout in their order, and the failure that ended it.
pub struct Plan {
    pub actions: Seq<ActionView>,
    pub failure: Option<ErrorView>,
}

/// The path of an entry of the directory at `dir`.
pub open spec fn child(dir: Seq<char>, name: Seq<char>) -> Seq<char> {
    dir + seq!['/'] + name
}

/// The steps that check out one record into the directory at `path`. A blob makes a file
/// with its contents. A tree makes a directory and what its records make in it, as long
/// as fewer than `fuel` trees lie around it. An object that cannot be read fails with the
/// failure of the reading, any other object with `InvariantViolation`, which names the
/// digest, the kind that the mode of the record stands for, and the kind of the object.
pub open spec fn checkout_record(v: RepositoryView, record: LeafView, path: Seq<char>, fuel: nat) -> Plan
    decreases fuel, 0nat,
{
    let dest = child(path, record.path);
    match read_spec(v, utf8(record.hash)) {
        Err(e) => Plan { actions: Seq::empty(), failure: Some(e) },
        Ok(ObjectView::Tree(records)) => if fuel == 0 {
            Plan {
                actions: seq![ActionView::CreateDir(dest)],
                failure: Some(ErrorView::CycleDetected),
            }
        } else {
            let inner = checkout_spec(v, records, dest, (fuel - 1) as nat);
            Plan {
                actions: seq![ActionView::CreateDir(dest)] + inner.actions,
                failure: inner.failure,
            }
        },
        Ok(ObjectView::Blob(data)) => Plan {
            actions: seq![ActionView::WriteFile(dest, data)],
            failure: None,
        },
        Ok(other) => Plan {
            actions: Seq::empty(),
            failure: Some(
                ErrorView::InvariantViolation {
                    digest: record.hash,
                    expected: kind_of_mode(utf8(record.mode)),
                    actual: kind_of_view(other),
                },
            ),
        },
    }
}

/// The steps that check out the records of a tree into the directory at `path`, one
/// record after the other. The first record that fails ends the checkout; the steps before
/// the failure stay.
pub open spec fn checkout_spec(
    v: RepositoryView,
    records: Seq<LeafView>,
    path: Seq<char>,
    fuel: nat,
) -> Plan
    decreases fuel, records.len() + 1,
{
    if records.len() == 0 {
        Plan { actions: Seq::empty(), failure: None }
    } else {
        let before = checkout_spec(v, records.drop_last(), path, fuel);
        if before.failure is Some {
            before
        } else {
            let one = checkout_record(v, records.last(), path, fuel);
            Plan { actions: before.actions + one.actions, failure: one.failure }
        }
    }
}

/// A failure among the first records is the failure of the whole checkout.
proof fn lemma_checkout_fails(
    v: RepositoryView,
    records: Seq<LeafView>,
    path: Seq<char>,
    fuel: nat,
    upto: int,
)
    requires
        0 <= upto <= records.len(),
        checkout_spec(v, records.subrange(0, upto), path, fuel).failure is Some,
    ensures
        checkout_spec(v, records, path, fuel) == checkout_spec(
            v,
            records.subrange(0, upto),
            path,
            fuel,
        ),
    decreases records.len() - upto,
{
    if upto == records.len() {
        assert(records.subrange(0, upto) =~= records);
    } else {
        let next = records.subrange(0, upto + 1);
        assert(next.drop_last() =~= records.subrange(0, upto));
        lemma_checkout_fails(v, records, path, fuel, upto + 1);
    }
}

impl Tree {
    /// Puts the steps that check out the records into the directory at `path` behind
    /// `actions`.
    fn checkout_into(
        records: &Vec<Leaf>,
        repository: &Repository,
        path: &str,
        fuel: usize,
        actions: &mut Vec<FsAction>,
    ) -> (r: Result<(), ObjectError>)
        requires
            repository.wf(),
        ensures
            ({
                let plan = checkout_spec(repository@, views(records@), path@, fuel as nat);
                &&& action_views(final(actions)@) == action_views(old(actions)@) + plan.actions
                &&& match r {
                    Ok(_) => plan.failure is None,
                    Err(e) => plan.failure == Some(e@),
                }
            }),
        decreases fuel,
    {
        let ghost all = views(records@);
        let ghost start = action_views(actions@);
        let mut i: usize = 0;
        assert(all.subrange(0, 0) =~= Seq::empty());
        assert(start + Seq::<ActionView>::empty() =~= start);
        while i < records.len()
            invariant
                repository.wf(),
                i <= records@.len(),
                all == views(records@),
                start == action_views(old(actions)@),
                checkout_spec(repository@, all.subrange(0, i as int), path@, fuel as nat).failure
                    is None,
                action_views(actions@) == start + checkout_spec(
                    repository@,
                    all.subrange(0, i as int),
                    path@,
                    fuel as nat,
                ).actions,
            decreases records@.len() - i,
        {
            let record = &records[i];
            let ghost before = checkout_spec(
                repository@,
                all.subrange(0, i as int),
                path@,
                fuel as nat,
            );
            let ghost next = all.subrange(0, i + 1);
            let ghost had = action_views(actions@);
            let ghost one = checkout_record(repository@, record@, path@, fuel as nat);
            proof {
                reveal_strlit("/");
                assert("/"@ =~= seq!['/']);
                assert(next.drop_last() =~= all.subrange(0, i as int));
                assert(next.last() == record@);
                assert(checkout_spec(repository@, next, path@, fuel as nat) == (Plan {
                    actions: before.actions + one.actions,
                    failure: one.failure,
                }));
            }
            let mut dest = path.to_owned();
            dest.append("/");
            dest.append(record.path.as_str());
            assert(dest@ =~= child(path@, record@.path));
            let object = match GitrsObject::read(repository, record.hash.as_str()) {
                Ok(object) => object,
                Err(e) => {
                    proof {
                        assert(one.failure == Some(e@));
                        assert(one.actions =~= Seq::<ActionView>::empty());
                        assert(before.actions + one.actions =~= before.actions);
                        lemma_checkout_fails(repository@, all, path@, fuel as nat, i + 1);
                    }
                    return Err(e);
                },
            };
            match object {
                GitrsObject::TreeObject(tree) => {
                    let step = FsAction::CreateDir(dest.clone());
                    actions.push(step);
                    assert(action_views(actions@) =~= had.push(ActionView::CreateDir(dest@)));
                    if fuel == 0 {
                        proof {
                            assert(one.actions =~= seq![ActionView::CreateDir(dest@)]);
                            assert(action_views(actions@) =~= start + (before.actions
                                + one.actions));
                            lemma_checkout_fails(repository@, all, path@, fuel as nat, i + 1);
                        }
                        return Err(ObjectError::CycleDetected);
                    }
                    let ghost mid = action_views(actions@);
                    let inner = Self::checkout_into(
                        &tree.records,
                        repository,
                        dest.as_str(),
                        fuel - 1,
                        actions,
                    );
                    proof {
                        let plan = checkout_spec(
                            repository@,
                            views(tree.records@),
                            dest@,
                            (fuel - 1) as nat,
                        );
                        assert(one.actions =~= seq![ActionView::CreateDir(dest@)] + plan.actions);
                        assert(one.failure == plan.failure);
                        assert(action_views(actions@) =~= start + (before.actions
                            + one.actions));
                    }
                    match inner {
                        Ok(_) => {},
                        Err(e) => {
                            proof {
                                lemma_checkout_fails(repository@, all, path@, fuel as nat, i + 1);
                            }
                            return Err(e);
                        },
                    }
                },
                GitrsObject::BlobObject(blob) => {
                    let data = blob.get_data();
                    let ghost dest_text = dest@;
                    let step = FsAction::WriteFile(dest, data);
                    actions.push(step);
                    proof {
                        assert(action_views(actions@) =~= had.push(
                            ActionView::WriteFile(dest_text, blob@),
                        ));
                        assert(one.actions =~= seq![ActionView::WriteFile(dest_text, blob@)]);
                        assert(action_views(actions@) =~= start + (before.actions
                            + one.actions));
                    }
                },
                other => {
                    let found = other.get_type();
                    proof {
                        assert(one.actions =~= Seq::<ActionView>::empty());
                        assert(before.actions + one.actions =~= before.actions);
                        lemma_checkout_fails(repository@, all, path@, fuel as nat, i + 1);
                    }
                    let expected = match Leaf::get_type_from_mode(record.file_mode.as_str()) {
                        Ok(kind) => Some(kind),
                        Err(_) => None,
                    };
                    return Err(
                        ObjectError::InvariantViolation {
                            digest: record.hash.clone(),
                            expected,
                            actual: found,
                        },
                    );
                },
            }
            i = i + 1;
        }
        assert(all.subrange(0, all.len() as int) =~= all);
        Ok(())
    }

    /// Puts behind `actions` the steps that check out the tree into the directory at
    /// `path`: a directory for each tree among its records, with what that tree holds in it,
    /// and a file for each blob. The first record that fails ends the checkout; the steps
    /// before the failure stay. Trees that lie deeper in one another than the repository has
    /// files hold one of them twice, and fail with `CycleDetected`.
    pub fn checkout(&self, repository: &Repository, path: &str, actions: &mut Vec<FsAction>) -> (r:
        Result<(), ObjectError>)
        requires
            repository.wf(),
        ensures
            ({
                let plan = checkout_spec(
                    repository@,
                    views(self.records@),
                    path@,
                    repository@.files.dom().len(),
                );
                &&& action_views(final(actions)@) == action_views(old(actions)@) + plan.actions
                &&& match r {
                    Ok(_) => plan.failure is None,
                    Err(e) => plan.failure == Some(e@),
                }
            }),
    {
        Self::checkout_into(&self.records, repository, path, repository.count_files(), actions)
    }
}

} // verus!
