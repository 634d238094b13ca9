//! The reconciliation planner.
//!
//! From the index of the source tree and the index of the target tree the
//! planner derives the operations that bring the layout of the target in
//! line with that of the source. A file that the target lacks is copied; a
//! file that the target has elsewhere is moved; further copies of it in the
//! target are removed. Files whose key only the target has are left alone.

use crate::index::{
    entries_of, has_duplicates, lookup, paths_of, position_of, EntryModel, TreeIndex,
};
use crate::path::{joined, FilePath, PathModel};
use vstd::prelude::*;
use vstd::string::StringExecFns;

verus! {

/// One operation of a plan. Every path is relative to the root of a tree.
#[derive(Clone, Debug, PartialEq, Eq)]
pub enum Operation {
    /// Copy the file at `source` in the source tree to `target` in the
    /// target tree.
    Copy { source: FilePath, target: FilePath },
    /// Move the file at `source` in the target tree to `target` in the
    /// target tree.
    Move { source: FilePath, target: FilePath },
    /// Delete the file at `duplicate` in the target tree, a copy of which
    /// stays at `original`.
    RemoveDuplicate { duplicate: FilePath, original: FilePath },
}

/// The mathematical value of an operation.
pub enum OperationModel {
    Copy { source: PathModel, target: PathModel },
    Move { source: PathModel, target: PathModel },
    RemoveDuplicate { duplicate: PathModel, original: PathModel },
}

impl View for Operation {
    type V = OperationModel;

    open spec fn view(&self) -> OperationModel {
        match self {
            Operation::Copy { source, target } => OperationModel::Copy {
                source: source@,
                target: target@,
            },
            Operation::Move { source, target } => OperationModel::Move {
                source: source@,
                target: target@,
            },
            Operation::RemoveDuplicate { duplicate, original } => OperationModel::RemoveDuplicate {
                duplicate: duplicate@,
                original: original@,
            },
        }
    }
}

/// The line that tells of an operation: what is done, and the paths.
pub open spec fn description(operation: OperationModel) -> Seq<char> {
    match operation {
        OperationModel::Copy { source, target } => "copy "@ + joined(source) + " to "@ + joined(
            target,
        ),
        OperationModel::Move { source, target } => "move "@ + joined(source) + " to "@ + joined(
            target,
        ),
        OperationModel::RemoveDuplicate { duplicate, original } => "remove duplicate "@ + joined(
            duplicate,
        ) + " of "@ + joined(original),
    }
}

impl Operation {
    /// The line that tells of the operation: what is done, and the paths.
    pub fn describe(&self) -> (line: String)
        ensures
            line@ == description(self@),
    {
        match self {
            Operation::Copy { source, target } => {
                let mut line = String::from_str("copy ");
                line.append(source.text().as_str());
                line.append(" to ");
                line.append(target.text().as_str());
                line
            },
            Operation::Move { source, target } => {
                let mut line = String::from_str("move ");
                line.append(source.text().as_str());
                line.append(" to ");
                line.append(target.text().as_str());
                line
            },
            Operation::RemoveDuplicate { duplicate, original } => {
                let mut line = String::from_str("remove duplicate ");
                line.append(duplicate.text().as_str());
                line.append(" of ");
                line.append(original.text().as_str());
                line
            },
        }
    }
}

/// The operations that a vector of operations stands for.
pub open spec fn operations_of(plan: Seq<Operation>) -> Seq<OperationModel> {
    Seq::new(plan.len(), |i: int| plan[i]@)
}

/// Why no plan was made.
#[derive(Clone, Copy, Debug, PartialEq, Eq)]
pub enum PlanError {
    /// Some key of the source has two or more paths: the source does not
    /// say which of them is the one to follow.
    SourceHasDuplicates,
    /// An entry that the planner had to read lists no path.
    EmptyPathList,
}

/// The removal of every path of `listed` other than `chosen`, in the order
/// of `listed`, each as a duplicate of the file at `kept`.
pub open spec fn removals(listed: Seq<PathModel>, chosen: PathModel, kept: PathModel) -> Seq<
    OperationModel,
> {
    listed.filter_map(
        |path: PathModel|
            if path != chosen {
                Some(OperationModel::RemoveDuplicate { duplicate: path, original: kept })
            } else {
                None
            },
    )
}

/// The operations for one key of the source, whose file the source has at
/// `wanted`, given what the target lists under that key. Where the target
/// has the file at `wanted`, that copy is the chosen one; else the first
/// path that the target lists is chosen and moved to `wanted`. Every other
/// path is removed as a duplicate of the file at `wanted`, where the chosen
/// copy then stands.
pub open spec fn key_operations(wanted: PathModel, listed: Option<Seq<PathModel>>) -> Seq<
    OperationModel,
> {
    match listed {
        None => seq![OperationModel::Copy { source: wanted, target: wanted }],
        Some(paths) => if paths.contains(wanted) {
            removals(paths, wanted, wanted)
        } else {
            seq![OperationModel::Move { source: paths[0], target: wanted }] + removals(
                paths,
                paths[0],
                wanted,
            )
        },
    }
}

/// The operations for all the keys of the source, key after key in the
/// order of the index.
pub open spec fn operations(source: Seq<EntryModel>, target: Seq<EntryModel>) -> Seq<
    OperationModel,
>
    decreases source.len(),
{
    if source.len() == 0 {
        Seq::empty()
    } else {
        operations(source.drop_last(), target) + key_operations(
            source.last().paths[0],
            lookup(target, source.last().key),
        )
    }
}

/// Whether an entry that the planner reads lists no path: an entry of the
/// source, or the entry of the target for a key of the source.
pub open spec fn lacks_paths(source: Seq<EntryModel>, target: Seq<EntryModel>) -> bool {
    exists|i: int|
        0 <= i < source.len() && ((#[trigger] source[i]).paths.len() == 0 || lookup(
            target,
            source[i].key,
        ) == Some(Seq::<PathModel>::empty()))
}

/// The outcome of planning: the plan, or the reason why there is none.
pub open spec fn plan_of(source: Seq<EntryModel>, target: Seq<EntryModel>) -> Result<
    Seq<OperationModel>,
    PlanError,
> {
    if has_duplicates(source) {
        Err(PlanError::SourceHasDuplicates)
    } else if lacks_paths(source, target) {
        Err(PlanError::EmptyPathList)
    } else {
        Ok(operations(source, target))
    }
}

/// Appends to `plan` the removal of every path of `listed` other than
/// `chosen`, each as a duplicate of the file at `kept`.
fn push_removals(
    plan: &mut Vec<Operation>,
    listed: &Vec<FilePath>,
    chosen: &FilePath,
    kept: &FilePath,
)
    ensures
        operations_of(final(plan)@) == operations_of(old(plan)@) + removals(
            paths_of(listed@),
            chosen@,
            kept@,
        ),
{
    let ghost start = operations_of(plan@);
    let ghost all = paths_of(listed@);
    let mut j: usize = 0;
    assert(all.take(0) =~= Seq::<PathModel>::empty());
    assert(operations_of(plan@) =~= start + removals(all.take(0), chosen@, kept@));
    while j < listed.len()
        invariant
            j <= listed.len(),
            all == paths_of(listed@),
            operations_of(plan@) == start + removals(all.take(j as int), chosen@, kept@),
        decreases listed.len() - j,
    {
        let ghost earlier = operations_of(plan@);
        proof {
            assert(all.take(j + 1).drop_last() =~= all.take(j as int));
            assert(all.take(j + 1).last() == listed[j as int]@);
        }
        if !listed[j].same_as(chosen) {
            plan.push(
                Operation::RemoveDuplicate {
                    duplicate: listed[j].duplicate(),
                    original: kept.duplicate(),
                },
            );
            assert(operations_of(plan@) =~= earlier + seq![
                OperationModel::RemoveDuplicate { duplicate: listed[j as int]@, original: kept@ },
            ]);
        }
        assert(operations_of(plan@) =~= start + removals(all.take(j + 1), chosen@, kept@));
        j += 1;
    }
    assert(all.take(j as int) =~= all);
}

/// Plans the operations that bring the layout of the target tree in line
/// with that of the source tree.
///
/// Fails with `SourceHasDuplicates` where some key of the source has two
/// or more paths, and else with `EmptyPathList` where an entry of the
/// source, or the entry of the target for a key of the source, lists no
/// path. Otherwise the plan holds, for each key of the source in the order
/// of the keys: a copy where the target lacks the key; nothing where the
/// target has the file at the path of the source, and else the move of
/// the first path that the target lists to that path; then the removal of
/// every other path that the target lists, as a duplicate of the file at
/// the path of the source.
pub fn plan(source: &TreeIndex, target: &TreeIndex) -> (result: Result<Vec<Operation>, PlanError>)
    requires
        source.wf(),
        target.wf(),
    ensures
        match result {
            Ok(plan) => plan_of(source@, target@) == Ok::<Seq<OperationModel>, PlanError>(
                operations_of(plan@),
            ),
            Err(error) => plan_of(source@, target@) == Err::<Seq<OperationModel>, PlanError>(
                error,
            ),
        },
        has_duplicates(source@) ==> result == Err::<Vec<Operation>, PlanError>(
            PlanError::SourceHasDuplicates,
        ),
{
    let entries = source.entries();
    let mut i: usize = 0;
    while i < entries.len()
        invariant
            i <= entries.len(),
            entries_of(entries@) == source@,
            forall|k: int| 0 <= k < i ==> (#[trigger] source@[k]).paths.len() <= 1,
        decreases entries.len() - i,
    {
        if entries[i].paths.len() > 1 {
            assert(source@[i as int].paths.len() > 1);
            return Err(PlanError::SourceHasDuplicates);
        }
        i += 1;
    }
    assert(!has_duplicates(source@));
    let mut plan: Vec<Operation> = Vec::new();
    let mut i: usize = 0;
    assert(source@.take(0) =~= Seq::<EntryModel>::empty());
    assert(operations_of(plan@) =~= Seq::<OperationModel>::empty());
    while i < entries.len()
        invariant
            i <= entries.len(),
            entries_of(entries@) == source@,
            target.wf(),
            !has_duplicates(source@),
            !lacks_paths(source@.take(i as int), target@),
            operations_of(plan@) == operations(source@.take(i as int), target@),
        decreases entries.len() - i,
    {
        let entry = &entries[i];
        let ghost seen = source@.take(i as int);
        let ghost next = source@.take(i + 1);
        let ghost earlier = operations_of(plan@);
        proof {
            assert(next.drop_last() =~= seen);
            assert(next.last() == entry@);
            assert(source@[i as int] == entry@);
        }
        if entry.paths.len() == 0 {
            assert(source@[i as int].paths.len() == 0);
            assert(lacks_paths(source@, target@));
            return Err(PlanError::EmptyPathList);
        }
        let wanted = &entry.paths[0];
        assert(wanted@ == entry@.paths[0]);
        match target.get(&entry.key) {
            None => {
                plan.push(Operation::Copy { source: wanted.duplicate(), target: wanted.duplicate() });
                assert(operations_of(plan@) =~= earlier + key_operations(
                    wanted@,
                    lookup(target@, entry@.key),
                ));
            },
            Some(listed) => {
                if position_of(listed, wanted).is_some() {
                    push_removals(&mut plan, listed, wanted, wanted);
                } else {
                    if listed.len() == 0 {
                        assert(paths_of(listed@) =~= Seq::<PathModel>::empty());
                        assert(lacks_paths(source@, target@));
                        return Err(PlanError::EmptyPathList);
                    }
                    let chosen = &listed[0];
                    assert(chosen@ == paths_of(listed@)[0]);
                    plan.push(
                        Operation::Move { source: chosen.duplicate(), target: wanted.duplicate() },
                    );
                    let ghost moved = operations_of(plan@);
                    assert(moved =~= earlier + seq![
                        OperationModel::Move { source: chosen@, target: wanted@ },
                    ]);
                    push_removals(&mut plan, listed, chosen, wanted);
                    assert(operations_of(plan@) =~= earlier + key_operations(
                        wanted@,
                        lookup(target@, entry@.key),
                    ));
                }
                assert(paths_of(listed@).len() > 0) by {
                    if paths_of(listed@).contains(wanted@) {
                    }
                }
            },
        }
        proof {
            assert(operations_of(plan@) == operations(next, target@));
            if lacks_paths(next, target@) {
                let at = choose|at: int|
                    0 <= at < next.len() && ((#[trigger] next[at]).paths.len() == 0 || lookup(
                        target@,
                        next[at].key,
                    ) == Some(Seq::<PathModel>::empty()));
                if at < i {
                    assert(seen[at] == next[at]);
                }
            }
        }
        i += 1;
    }
    assert(source@.take(i as int) =~= source@);
    Ok(plan)
}

} // verus!
