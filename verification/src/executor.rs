//! The executor of plans.
//!
//! Each operation of a plan resolves to one action on files: the paths of
//! the operation are taken relative to the root of the source tree or of
//! the target tree, and the action is refused where it would overwrite a
//! file that the target already has. `resolve` and `permit` make these
//! decisions for whoever carries the actions out on a disk; `apply` and
//! `execute` carry them out on the indexes of two trees held in memory,
//! strictly in the order of the plan and stopping at the first failure.

use crate::index::{
    entries_of, holder, lists, with_path, without_path, EntryModel, TreeIndex,
};
use crate::key::{IdentityKey, KeyModel};
use crate::path::{file_name_of, FilePath, PathModel};
use crate::plan::{operations_of, Operation, OperationModel};
use vstd::prelude::*;

verus! {

/// One of the two trees that a plan is about.
#[derive(Clone, Copy, Debug, PartialEq, Eq)]
pub enum Side {
    Source,
    Target,
}

/// A place in one of the two trees: the tree, and the path relative to its
/// root.
#[derive(Clone, Debug, PartialEq, Eq)]
pub struct Location {
    pub side: Side,
    pub path: FilePath,
}

/// The mathematical value of a location.
pub struct LocationModel {
    pub side: Side,
    pub path: PathModel,
}

impl View for Location {
    type V = LocationModel;

    open spec fn view(&self) -> LocationModel {
        LocationModel { side: self.side, path: self.path@ }
    }
}

/// What is done to files for one operation of a plan.
#[derive(Clone, Debug, PartialEq, Eq)]
pub enum FileAction {
    /// Copy the bytes of the file at `from` to a new file at `to`.
    CopyFile { from: Location, to: Location },
    /// Rename the file at `from` to `to`.
    RenameFile { from: Location, to: Location },
    /// Delete the file at `at`.
    RemoveFile { at: Location },
}

/// The mathematical value of an action.
pub enum ActionModel {
    CopyFile { from: LocationModel, to: LocationModel },
    RenameFile { from: LocationModel, to: LocationModel },
    RemoveFile { at: LocationModel },
}

impl View for FileAction {
    type V = ActionModel;

    open spec fn view(&self) -> ActionModel {
        match self {
            FileAction::CopyFile { from, to } => ActionModel::CopyFile { from: from@, to: to@ },
            FileAction::RenameFile { from, to } => ActionModel::RenameFile {
                from: from@,
                to: to@,
            },
            FileAction::RemoveFile { at } => ActionModel::RemoveFile { at: at@ },
        }
    }
}

/// Why an operation was not carried out.
#[derive(Clone, Debug, PartialEq, Eq)]
pub enum ExecError {
    /// The place that the operation writes to already holds a file.
    WouldOverwrite { at: Location },
    /// The file at this place could not be read, written, moved or
    /// deleted.
    IoFailure { at: Location },
}

/// The mathematical value of an executor error.
pub enum ExecErrorModel {
    WouldOverwrite { at: LocationModel },
    IoFailure { at: LocationModel },
}

impl View for ExecError {
    type V = ExecErrorModel;

    open spec fn view(&self) -> ExecErrorModel {
        match self {
            ExecError::WouldOverwrite { at } => ExecErrorModel::WouldOverwrite { at: at@ },
            ExecError::IoFailure { at } => ExecErrorModel::IoFailure { at: at@ },
        }
    }
}

/// The place in the source tree with the given path.
pub open spec fn in_source(path: PathModel) -> LocationModel {
    LocationModel { side: Side::Source, path }
}

/// The place in the target tree with the given path.
pub open spec fn in_target(path: PathModel) -> LocationModel {
    LocationModel { side: Side::Target, path }
}

/// The action that an operation resolves to: a copy reads the source tree
/// and writes the target tree; a move and a removal stay within the target
/// tree.
pub open spec fn resolved(operation: OperationModel) -> ActionModel {
    match operation {
        OperationModel::Copy { source, target } => ActionModel::CopyFile {
            from: in_source(source),
            to: in_target(target),
        },
        OperationModel::Move { source, target } => ActionModel::RenameFile {
            from: in_target(source),
            to: in_target(target),
        },
        OperationModel::RemoveDuplicate { duplicate, original } => ActionModel::RemoveFile {
            at: in_target(duplicate),
        },
    }
}

/// The place that an action writes a new file to, if it writes one.
pub open spec fn written(action: ActionModel) -> Option<LocationModel> {
    match action {
        ActionModel::CopyFile { from, to } => Some(to),
        ActionModel::RenameFile { from, to } => Some(to),
        ActionModel::RemoveFile { at } => None,
    }
}

/// The places at which an action puts a file or takes one away.
pub open spec fn changed(action: ActionModel) -> Seq<LocationModel> {
    match action {
        ActionModel::CopyFile { from, to } => seq![to],
        ActionModel::RenameFile { from, to } => seq![from, to],
        ActionModel::RemoveFile { at } => seq![at],
    }
}

/// The place of the file that an action reads and leaves as it is, if
/// there is one.
pub open spec fn read_only(action: ActionModel) -> Option<LocationModel> {
    match action {
        ActionModel::CopyFile { from, to } => Some(from),
        ActionModel::RenameFile { from, to } => None,
        ActionModel::RemoveFile { at } => None,
    }
}

/// The verdict on an action, given whether a file already stands at the
/// place that it writes to.
pub open spec fn permitted(action: ActionModel, destination_exists: bool) -> Result<
    (),
    ExecErrorModel,
> {
    match written(action) {
        Some(to) => if destination_exists {
            Err(ExecErrorModel::WouldOverwrite { at: to })
        } else {
            Ok(())
        },
        None => Ok(()),
    }
}

/// Whether the target lists a file at the place that an action writes to.
pub open spec fn occupied(action: ActionModel, target: Seq<EntryModel>) -> bool {
    match written(action) {
        Some(to) => lists(target, to.path),
        None => false,
    }
}

/// What an operation that is let through makes of the index of the target
/// tree, or why it fails: it fails where the file it is to read, move or
/// delete is not listed, or where the place it writes to has no file name.
/// The new file has the size of the file it comes from and the name of the
/// place it goes to.
pub open spec fn carried_out(
    operation: OperationModel,
    source: Seq<EntryModel>,
    target: Seq<EntryModel>,
) -> Result<Seq<EntryModel>, ExecErrorModel> {
    match operation {
        OperationModel::Copy { source: from, target: to } => {
            if !lists(source, from) {
                Err(ExecErrorModel::IoFailure { at: in_source(from) })
            } else {
                match file_name_of(to) {
                    None => Err(ExecErrorModel::IoFailure { at: in_target(to) }),
                    Some(name) => Ok(
                        with_path(
                            target,
                            KeyModel { size: source[holder(source, from)].key.size, name },
                            to,
                        ),
                    ),
                }
            }
        },
        OperationModel::Move { source: from, target: to } => {
            if !lists(target, from) {
                Err(ExecErrorModel::IoFailure { at: in_target(from) })
            } else {
                match file_name_of(to) {
                    None => Err(ExecErrorModel::IoFailure { at: in_target(to) }),
                    Some(name) => Ok(
                        with_path(
                            without_path(target, from),
                            KeyModel { size: target[holder(target, from)].key.size, name },
                            to,
                        ),
                    ),
                }
            }
        },
        OperationModel::RemoveDuplicate { duplicate, original } => {
            if !lists(target, duplicate) {
                Err(ExecErrorModel::IoFailure { at: in_target(duplicate) })
            } else {
                Ok(without_path(target, duplicate))
            }
        },
    }
}

/// What an operation makes of the index of the target tree, or why it
/// fails. The operation is refused where the target already lists a file
/// at the place that it writes to, and is carried out otherwise.
pub open spec fn effect(
    operation: OperationModel,
    source: Seq<EntryModel>,
    target: Seq<EntryModel>,
) -> Result<Seq<EntryModel>, ExecErrorModel> {
    match permitted(resolved(operation), occupied(resolved(operation), target)) {
        Err(error) => Err(error),
        Ok(_) => carried_out(operation, source, target),
    }
}

/// What a plan makes of the index of the target tree: the operations take
/// effect one after another, and the first failure ends the run, leaving
/// the index as the operations before it made it.
pub open spec fn run(
    plan: Seq<OperationModel>,
    source: Seq<EntryModel>,
    target: Seq<EntryModel>,
) -> (Seq<EntryModel>, Option<ExecErrorModel>)
    decreases plan.len(),
{
    if plan.len() == 0 {
        (target, None)
    } else {
        match effect(plan[0], source, target) {
            Err(error) => (target, Some(error)),
            Ok(next) => run(plan.drop_first(), source, next),
        }
    }
}

/// The error of a result, if it is one.
pub open spec fn error_of(result: Result<(), ExecError>) -> Option<ExecErrorModel> {
    match result {
        Ok(_) => None,
        Err(error) => Some(error@),
    }
}

/// A run of one operation is the effect of that operation.
pub proof fn lemma_run_one(
    operation: OperationModel,
    source: Seq<EntryModel>,
    target: Seq<EntryModel>,
)
    ensures
        run(seq![operation], source, target) == match effect(operation, source, target) {
            Ok(next) => (next, None::<ExecErrorModel>),
            Err(error) => (target, Some(error)),
        },
{
    let one = seq![operation];
    assert(one[0] == operation);
    assert(one.drop_first() =~= Seq::<OperationModel>::empty());
    reveal_with_fuel(run, 2);
}

/// A run of two plans in a row is the run of the second on what the first
/// left, unless the first fails.
pub proof fn lemma_run_split(
    first: Seq<OperationModel>,
    second: Seq<OperationModel>,
    source: Seq<EntryModel>,
    target: Seq<EntryModel>,
)
    ensures
        run(first + second, source, target) == match run(first, source, target) {
            (between, None) => run(second, source, between),
            (between, Some(error)) => (between, Some(error)),
        },
    decreases first.len(),
{
    if first.len() == 0 {
        assert(first + second =~= second);
    } else {
        assert((first + second)[0] == first[0]);
        assert((first + second).drop_first() =~= first.drop_first() + second);
        match effect(first[0], source, target) {
            Ok(next) => {
                lemma_run_split(first.drop_first(), second, source, next);
            },
            Err(error) => {},
        }
    }
}

/// The action that an operation resolves to.
pub fn resolve(operation: &Operation) -> (action: FileAction)
    ensures
        action@ == resolved(operation@),
{
    match operation {
        Operation::Copy { source, target } => FileAction::CopyFile {
            from: Location { side: Side::Source, path: source.duplicate() },
            to: Location { side: Side::Target, path: target.duplicate() },
        },
        Operation::Move { source, target } => FileAction::RenameFile {
            from: Location { side: Side::Target, path: source.duplicate() },
            to: Location { side: Side::Target, path: target.duplicate() },
        },
        Operation::RemoveDuplicate { duplicate, original } => FileAction::RemoveFile {
            at: Location { side: Side::Target, path: duplicate.duplicate() },
        },
    }
}

impl FileAction {
    /// The place that the action writes a new file to, if it writes one:
    /// the place at which no file may stand.
    pub fn destination(&self) -> (place: Option<&Location>)
        ensures
            match place {
                Some(to) => written(self@) == Some(to@),
                None => written(self@) is None,
            },
    {
        match self {
            FileAction::CopyFile { from, to } => Some(to),
            FileAction::RenameFile { from, to } => Some(to),
            FileAction::RemoveFile { at } => None,
        }
    }
}

/// Lets an action through or refuses it: an action that writes a new file is
/// refused with `WouldOverwrite` where a file already stands at that
/// place, and every other action is let through.
pub fn permit(action: &FileAction, destination_exists: bool) -> (verdict: Result<(), ExecError>)
    ensures
        error_of(verdict) == permitted(action@, destination_exists).err(),
        destination_exists && written(action@) is Some ==> verdict is Err,
{
    match action.destination() {
        Some(to) => {
            if destination_exists {
                Err(
                    ExecError::WouldOverwrite {
                        at: Location { side: to.side, path: to.path.duplicate() },
                    },
                )
            } else {
                Ok(())
            }
        },
        None => Ok(()),
    }
}

/// Carries out one operation on the index of the target tree. On failure
/// the index stays as it was.
pub fn apply(operation: &Operation, source: &TreeIndex, target: &mut TreeIndex) -> (result: Result<
    (),
    ExecError,
>)
    requires
        source.wf(),
        old(target).wf(),
    ensures
        final(target).wf(),
        match result {
            Ok(_) => effect(operation@, source@, old(target)@) == Ok::<
                Seq<EntryModel>,
                ExecErrorModel,
            >(final(target)@),
            Err(error) => effect(operation@, source@, old(target)@) == Err::<
                Seq<EntryModel>,
                ExecErrorModel,
            >(error@) && final(target)@ == old(target)@,
        },
        written(resolved(operation@)) matches Some(to) && lists(old(target)@, to.path)
            ==> result matches Err(ExecError::WouldOverwrite { .. }),
{
    let action = resolve(operation);
    let occupied = match action.destination() {
        Some(to) => target.find(&to.path).is_some(),
        None => false,
    };
    match permit(&action, occupied) {
        Err(error) => {
            return Err(error);
        },
        Ok(_) => {},
    }
    match operation {
        Operation::Copy { source: from, target: to } => {
            match source.find(from) {
                None => Err(
                    ExecError::IoFailure {
                        at: Location { side: Side::Source, path: from.duplicate() },
                    },
                ),
                Some((at, nth)) => {
                    let entries = source.entries();
                    assert(entries_of(entries@)[at as int] == entries[at as int]@);
                    let size: u64 = entries[at].key.size;
                    match to.file_name() {
                        None => Err(
                            ExecError::IoFailure {
                                at: Location { side: Side::Target, path: to.duplicate() },
                            },
                        ),
                        Some(name) => {
                            target.insert(IdentityKey::new(size, name), to.duplicate());
                            Ok(())
                        },
                    }
                },
            }
        },
        Operation::Move { source: from, target: to } => {
            match target.find(from) {
                None => Err(
                    ExecError::IoFailure {
                        at: Location { side: Side::Target, path: from.duplicate() },
                    },
                ),
                Some((at, nth)) => {
                    let entries = target.entries();
                    assert(entries_of(entries@)[at as int] == entries[at as int]@);
                    let size: u64 = entries[at].key.size;
                    match to.file_name() {
                        None => Err(
                            ExecError::IoFailure {
                                at: Location { side: Side::Target, path: to.duplicate() },
                            },
                        ),
                        Some(name) => {
                            target.remove_path(from);
                            target.insert(IdentityKey::new(size, name), to.duplicate());
                            Ok(())
                        },
                    }
                },
            }
        },
        Operation::RemoveDuplicate { duplicate, original } => {
            match target.remove_path(duplicate) {
                None => Err(
                    ExecError::IoFailure {
                        at: Location { side: Side::Target, path: duplicate.duplicate() },
                    },
                ),
                Some(key) => Ok(()),
            }
        },
    }
}

/// Carries out a plan on the index of the target tree, strictly in the
/// order of the plan. The first operation that fails ends the run: the
/// operations before it stay applied, the others are not tried.
pub fn execute(source: &TreeIndex, target: &mut TreeIndex, plan: &Vec<Operation>) -> (result:
    Result<(), ExecError>)
    requires
        source.wf(),
        old(target).wf(),
    ensures
        final(target).wf(),
        run(operations_of(plan@), source@, old(target)@) == (final(target)@, error_of(result)),
{
    let ghost all = operations_of(plan@);
    let ghost start = target@;
    let mut i: usize = 0;
    assert(all.skip(0) =~= all);
    while i < plan.len()
        invariant
            i <= plan.len(),
            all == operations_of(plan@),
            start == old(target)@,
            source.wf(),
            target.wf(),
            run(all, source@, start) == run(all.skip(i as int), source@, target@),
        decreases plan.len() - i,
    {
        let ghost current = target@;
        proof {
            assert(all.skip(i as int).len() > 0);
            assert(all.skip(i as int)[0] == plan[i as int]@);
            assert(all.skip(i as int).drop_first() =~= all.skip(i + 1));
        }
        match apply(&plan[i], source, target) {
            Err(error) => {
                assert(run(all.skip(i as int), source@, current) == (current, Some(error@)));
                return Err(error);
            },
            Ok(_) => {},
        }
        i += 1;
    }
    Ok(())
}

} // verus!
