//! What holds of every plan and of every run.
//!
//! Planning reaches a fixed point: after a run of the plan that succeeds,
//! nothing is left to plan. A plan takes no file away that only the target
//! has. A run that succeeds has overwritten nothing. The source tree is
//! never changed. And the index of a tree stays the index of a tree,
//! through every visit of a walk and every operation of a run.

use crate::executor::{
    changed, effect, in_source, lemma_run_one, lemma_run_split, read_only, resolved, run,
    written, ExecErrorModel, Side,
};
use crate::index::{
    ascending, describes_tree, has_duplicates, has_key, holder, listed_once, lists, lookup,
    names_agree, paths_under, with_path, without_path, EntryModel,
};
use crate::index_lemmas::{
    lemma_added, lemma_added_keeps_names, lemma_holder_exists, lemma_holder_key,
    lemma_lists_under_key, lemma_slot_unique, lemma_taken, lemma_taken_keeps_names,
};
use crate::indexer::{indexed_from, relative_to, visited, FoundModel, Probe};
use crate::key::KeyModel;
use crate::path::{file_name_of, PathModel};
use crate::plan::{key_operations, lacks_paths, operations, plan_of, removals, OperationModel};
use vstd::prelude::*;

verus! {

/// The removals planned for the paths of one key all succeed, and leave
/// under that key the paths that were not to be removed.
proof fn lemma_run_removals(
    listed: Seq<PathModel>,
    chosen: PathModel,
    kept: PathModel,
    key: KeyModel,
    stays: PathModel,
    source: Seq<EntryModel>,
    ix: Seq<EntryModel>,
)
    requires
        ascending(ix),
        listed_once(ix),
        listed.no_duplicates(),
        forall|i: int|
            0 <= i < listed.len() && listed[i] != chosen ==> paths_under(ix, key).contains(
                #[trigger] listed[i],
            ),
        paths_under(ix, key).contains(stays),
        !(listed.contains(stays) && stays != chosen),
    ensures
        run(removals(listed, chosen, kept), source, ix).1 is None,
        ascending(run(removals(listed, chosen, kept), source, ix).0),
        listed_once(run(removals(listed, chosen, kept), source, ix).0),
        forall|path: PathModel|
            #[trigger] paths_under(
                run(removals(listed, chosen, kept), source, ix).0,
                key,
            ).contains(path) <==> paths_under(ix, key).contains(path) && !(listed.contains(path)
                && path != chosen),
        forall|other: KeyModel|
            other != key ==> #[trigger] lookup(
                run(removals(listed, chosen, kept), source, ix).0,
                other,
            ) == lookup(ix, other),
        forall|path: PathModel|
            #[trigger] lists(run(removals(listed, chosen, kept), source, ix).0, path) ==> lists(
                ix,
                path,
            ),
    decreases listed.len(),
{
    if listed.len() == 0 {
        assert(removals(listed, chosen, kept) =~= Seq::<OperationModel>::empty());
        assert forall|path: PathModel| !listed.contains(path) by {}
    } else {
        let shorter = listed.drop_last();
        let last = listed.last();
        let before = removals(shorter, chosen, kept);
        assert(shorter.no_duplicates()) by {
            assert forall|i: int, j: int|
                0 <= i < shorter.len() && 0 <= j < shorter.len() && i != j implies shorter[i]
                != shorter[j] by {
                assert(shorter[i] == listed[i] && shorter[j] == listed[j]);
            }
        }
        assert forall|i: int|
            0 <= i < shorter.len() && shorter[i] != chosen implies paths_under(ix, key).contains(
            #[trigger] shorter[i],
        ) by {
            assert(shorter[i] == listed[i]);
        }
        assert(!(shorter.contains(stays) && stays != chosen)) by {
            if shorter.contains(stays) {
                let i = choose|i: int| 0 <= i < shorter.len() && shorter[i] == stays;
                assert(listed[i] == stays);
            }
        }
        lemma_run_removals(shorter, chosen, kept, key, stays, source, ix);
        let between = run(before, source, ix).0;
        assert forall|path: PathModel| listed.contains(path) <==> shorter.contains(path) || path
            == last by {
            if listed.contains(path) {
                let i = choose|i: int| 0 <= i < listed.len() && listed[i] == path;
                if i < shorter.len() {
                    assert(shorter[i] == path);
                }
            }
            if shorter.contains(path) {
                let i = choose|i: int| 0 <= i < shorter.len() && shorter[i] == path;
                assert(listed[i] == path);
            }
            if path == last {
                assert(listed[listed.len() - 1] == path);
            }
        }
        assert(!shorter.contains(last)) by {
            if shorter.contains(last) {
                let i = choose|i: int| 0 <= i < shorter.len() && shorter[i] == last;
                assert(listed[i] == listed[listed.len() - 1]);
            }
        }
        if last != chosen {
            let removal = OperationModel::RemoveDuplicate { duplicate: last, original: kept };
            assert(removals(listed, chosen, kept) == before + seq![removal]);
            lemma_run_split(before, seq![removal], source, ix);
            lemma_run_one(removal, source, between);
            assert(paths_under(ix, key).contains(listed[listed.len() - 1]));
            assert(paths_under(between, key).contains(last));
            lemma_lists_under_key(between, last);
            lemma_taken(between, key, last);
        } else {
            assert(removals(listed, chosen, kept) == before);
        }
    }
}

/// A sequence without repetition that holds one value and no other is
/// that value alone.
proof fn lemma_only(paths: Seq<PathModel>, path: PathModel)
    requires
        forall|i: int, j: int| 0 <= i < j < paths.len() ==> paths[i] != paths[j],
        forall|other: PathModel| #[trigger] paths.contains(other) <==> other == path,
    ensures
        paths == seq![path],
{
    assert(paths.contains(path));
    assert(paths.len() > 0);
    assert(paths.contains(paths[0]));
    if paths.len() > 1 {
        assert(paths.contains(paths[1]));
    }
    assert(paths =~= seq![path]);
}

/// The paths of a key are without repetition where no path is listed
/// twice.
proof fn lemma_no_repetition(ix: Seq<EntryModel>, key: KeyModel)
    requires
        listed_once(ix),
    ensures
        paths_under(ix, key).no_duplicates(),
        forall|i: int, j: int|
            0 <= i < j < paths_under(ix, key).len() ==> paths_under(ix, key)[i] != paths_under(
                ix,
                key,
            )[j],
{
}

/// The operations planned for one key of the source, run with success,
/// leave the target with the file of that key at the path of the source
/// and nowhere else, and with every other key as it was.
proof fn lemma_key_settles(source: Seq<EntryModel>, at: int, ix: Seq<EntryModel>)
    requires
        describes_tree(source),
        0 <= at < source.len(),
        source[at].paths.len() == 1,
        ascending(ix),
        listed_once(ix),
        lookup(ix, source[at].key) != Some(Seq::<PathModel>::empty()),
        run(key_operations(source[at].paths[0], lookup(ix, source[at].key)), source, ix).1 is None,
    ensures
        ascending(run(key_operations(source[at].paths[0], lookup(ix, source[at].key)), source, ix).0),
        listed_once(
            run(key_operations(source[at].paths[0], lookup(ix, source[at].key)), source, ix).0,
        ),
        lookup(
            run(key_operations(source[at].paths[0], lookup(ix, source[at].key)), source, ix).0,
            source[at].key,
        ) == Some(seq![source[at].paths[0]]),
        forall|other: KeyModel|
            other != source[at].key ==> #[trigger] lookup(
                run(key_operations(source[at].paths[0], lookup(ix, source[at].key)), source, ix).0,
                other,
            ) == lookup(ix, other),
{
    let key = source[at].key;
    let wanted = source[at].paths[0];
    let steps = key_operations(wanted, lookup(ix, key));
    let after = run(steps, source, ix).0;
    lemma_slot_unique(source, key, at);
    assert(paths_under(source, key)[0] == wanted);
    assert(paths_under(source, key).contains(wanted));
    assert(file_name_of(wanted) == Some(key.name));
    lemma_holder_key(source, key, wanted);
    assert(key == KeyModel { size: key.size, name: key.name });
    lemma_no_repetition(ix, key);
    match lookup(ix, key) {
        None => {
            let copy = OperationModel::Copy { source: wanted, target: wanted };
            lemma_run_one(copy, source, ix);
            lemma_added(ix, key, wanted);
            assert(paths_under(ix, key).push(wanted) =~= seq![wanted]);
        },
        Some(listed) => {
            if listed.contains(wanted) {
                lemma_run_removals(listed, wanted, wanted, key, wanted, source, ix);
                lemma_no_repetition(after, key);
                lemma_only(paths_under(after, key), wanted);
            } else {
                let first = listed[0];
                let rename = OperationModel::Move { source: first, target: wanted };
                let rest = removals(listed, first, wanted);
                assert(listed.len() > 0) by {
                    if listed.len() == 0 {
                        assert(listed =~= Seq::<PathModel>::empty());
                    }
                }
                assert(listed[0] == first);
                assert(listed.contains(first));
                lemma_run_split(seq![rename], rest, source, ix);
                lemma_run_one(rename, source, ix);
                lemma_holder_key(ix, key, first);
                lemma_taken(ix, key, first);
                let taken = without_path(ix, first);
                lemma_added(taken, key, wanted);
                let between = with_path(taken, key, wanted);
                assert(run(seq![rename], source, ix) == (between, None::<ExecErrorModel>));
                let moved = paths_under(between, key);
                assert(moved == paths_under(taken, key).push(wanted));
                assert(moved[moved.len() - 1] == wanted);
                assert forall|path: PathModel| #[trigger] moved.contains(path) <==> (
                listed.contains(path) && path != first) || path == wanted by {
                    if moved.contains(path) {
                        let i = choose|i: int| 0 <= i < moved.len() && moved[i] == path;
                        if i < moved.len() - 1 {
                            assert(paths_under(taken, key)[i] == path);
                            assert(paths_under(taken, key).contains(path));
                        }
                    }
                    if listed.contains(path) && path != first {
                        assert(paths_under(taken, key).contains(path));
                        let i = choose|i: int|
                            0 <= i < paths_under(taken, key).len() && paths_under(taken, key)[i]
                                == path;
                        assert(moved[i] == path);
                    }
                }
                assert forall|i: int| 0 <= i < listed.len() && listed[i] != first implies moved.contains(
                    #[trigger] listed[i],
                ) by {
                    assert(listed.contains(listed[i]));
                }
                lemma_run_removals(listed, first, wanted, key, wanted, source, between);
                assert(after == run(rest, source, between).0);
                lemma_no_repetition(after, key);
                lemma_only(paths_under(after, key), wanted);
                assert forall|other: KeyModel| other != key implies #[trigger] lookup(
                    after,
                    other,
                ) == lookup(ix, other) by {
                    assert(lookup(between, other) == lookup(taken, other));
                    assert(lookup(taken, other) == lookup(ix, other));
                }
            }
        },
    }
}

/// Whether `key` is among the first `count` keys of the index.
spec fn among(ix: Seq<EntryModel>, count: int, key: KeyModel) -> bool {
    exists|i: int| 0 <= i < count && i < ix.len() && (#[trigger] ix[i]).key == key
}

/// The operations planned for the first keys of the source, run with
/// success, leave the target with the file of each of these keys at the
/// path of the source and nowhere else, and with every other key as it
/// was.
proof fn lemma_keys_settle(source: Seq<EntryModel>, target: Seq<EntryModel>, count: int)
    requires
        describes_tree(source),
        !has_duplicates(source),
        !lacks_paths(source, target),
        ascending(target),
        listed_once(target),
        0 <= count <= source.len(),
        run(operations(source.take(count), target), source, target).1 is None,
    ensures
        ascending(run(operations(source.take(count), target), source, target).0),
        listed_once(run(operations(source.take(count), target), source, target).0),
        forall|i: int|
            0 <= i < count ==> lookup(
                run(operations(source.take(count), target), source, target).0,
                (#[trigger] source[i]).key,
            ) == Some(seq![source[i].paths[0]]),
        forall|key: KeyModel|
            !among(source, count, key) ==> #[trigger] lookup(
                run(operations(source.take(count), target), source, target).0,
                key,
            ) == lookup(target, key),
    decreases count,
{
    let prefix = source.take(count);
    if count == 0 {
        assert(operations(prefix, target) =~= Seq::<OperationModel>::empty());
    } else {
        let at = count - 1;
        let key = source[at].key;
        let wanted = source[at].paths[0];
        let earlier = operations(source.take(at), target);
        let steps = key_operations(wanted, lookup(target, key));
        assert(prefix.drop_last() =~= source.take(at));
        assert(prefix.last() == source[at]);
        assert(operations(prefix, target) == earlier + steps);
        lemma_run_split(earlier, steps, source, target);
        lemma_keys_settle(source, target, at);
        let between = run(earlier, source, target).0;
        let after = run(steps, source, between).0;
        assert(!among(source, at, key)) by {
            if among(source, at, key) {
                let i = choose|i: int| 0 <= i < at && i < source.len() && (#[trigger] source[i]).key
                    == key;
                lemma_slot_unique(source, key, i);
                lemma_slot_unique(source, key, at);
            }
        }
        assert(lookup(between, key) == lookup(target, key));
        assert(source[at].paths.len() == 1);
        lemma_key_settles(source, at, between);
        assert forall|i: int| 0 <= i < count implies lookup(after, (#[trigger] source[i]).key)
            == Some(seq![source[i].paths[0]]) by {
            if i < at {
                lemma_slot_unique(source, source[i].key, i);
                lemma_slot_unique(source, key, at);
                assert(lookup(after, source[i].key) == lookup(between, source[i].key));
            }
        }
        assert forall|other: KeyModel| !among(source, count, other) implies #[trigger] lookup(
            after,
            other,
        ) == lookup(target, other) by {
            assert(other != source[at].key);
            assert(!among(source, at, other)) by {
                if among(source, at, other) {
                    let i = choose|i: int|
                        0 <= i < at && i < source.len() && (#[trigger] source[i]).key == other;
                    assert(source[i].key == other);
                }
            }
            assert(lookup(after, other) == lookup(between, other));
        }
    }
}

/// Where the target has the file of every one of the first keys of the
/// source at the path of the source and nowhere else, nothing is planned
/// for these keys.
proof fn lemma_in_place(source: Seq<EntryModel>, target: Seq<EntryModel>, count: int)
    requires
        0 <= count <= source.len(),
        forall|i: int|
            0 <= i < count ==> lookup(target, (#[trigger] source[i]).key) == Some(
                seq![source[i].paths[0]],
            ),
    ensures
        operations(source.take(count), target) == Seq::<OperationModel>::empty(),
    decreases count,
{
    let prefix = source.take(count);
    if count > 0 {
        let at = count - 1;
        let wanted = source[at].paths[0];
        let listed = seq![wanted];
        assert(prefix.drop_last() =~= source.take(at));
        assert(prefix.last() == source[at]);
        lemma_in_place(source, target, at);
        assert(listed[0] == wanted);
        assert(listed.contains(wanted));
        assert(listed.drop_last() =~= Seq::<PathModel>::empty());
        reveal_with_fuel(Seq::filter_map, 2);
        assert(removals(listed, wanted, wanted) =~= Seq::<OperationModel>::empty());
        assert(operations(prefix, target) =~= Seq::<OperationModel>::empty());
    }
}

/// Planning reaches a fixed point: once the plan for a source and a
/// target has been carried out with success, nothing is left to plan for
/// the source and what the target has become. The file of every key of
/// the source then stands in the target at the path of the source and
/// nowhere else, and every key that only the target has keeps its paths.
///
/// The source is the index of a tree; in the target no path is listed
/// twice.
pub proof fn lemma_plan_reaches_fixed_point(source: Seq<EntryModel>, target: Seq<EntryModel>)
    requires
        describes_tree(source),
        ascending(target),
        listed_once(target),
        plan_of(source, target) is Ok,
        run(plan_of(source, target)->Ok_0, source, target).1 is None,
    ensures
        plan_of(source, run(plan_of(source, target)->Ok_0, source, target).0) == Ok::<
            Seq<OperationModel>,
            crate::plan::PlanError,
        >(Seq::empty()),
        ascending(run(plan_of(source, target)->Ok_0, source, target).0),
        listed_once(run(plan_of(source, target)->Ok_0, source, target).0),
        names_agree(target) ==> names_agree(run(plan_of(source, target)->Ok_0, source, target).0),
        forall|i: int|
            0 <= i < source.len() ==> lookup(
                run(plan_of(source, target)->Ok_0, source, target).0,
                (#[trigger] source[i]).key,
            ) == Some(seq![source[i].paths[0]]),
        forall|key: KeyModel|
            !has_key(source, key) ==> #[trigger] lookup(
                run(plan_of(source, target)->Ok_0, source, target).0,
                key,
            ) == lookup(target, key),
{
    let count = source.len() as int;
    assert(source.take(count) =~= source);
    lemma_keys_settle(source, target, count);
    if names_agree(target) {
        lemma_run_keeps_tree(operations(source, target), source, target);
    }
    let after = run(operations(source, target), source, target).0;
    lemma_in_place(source, after, count);
    assert(!lacks_paths(source, after)) by {
        if lacks_paths(source, after) {
            let i = choose|i: int|
                0 <= i < source.len() && ((#[trigger] source[i]).paths.len() == 0 || lookup(
                    after,
                    source[i].key,
                ) == Some(Seq::<PathModel>::empty()));
            assert(seq![source[i].paths[0]].len() == 1);
        }
    }
    assert forall|key: KeyModel| !has_key(source, key) implies #[trigger] lookup(after, key)
        == lookup(target, key) by {
        assert(!among(source, count, key));
    }
}

/// The path in the target tree whose file an operation takes away: the
/// path that a move starts from, or the path that a removal deletes.
pub open spec fn taken_away(operation: OperationModel) -> Option<PathModel> {
    match operation {
        OperationModel::Copy { source, target } => None,
        OperationModel::Move { source, target } => Some(source),
        OperationModel::RemoveDuplicate { duplicate, original } => Some(duplicate),
    }
}

/// Every removal planned for the paths of a key deletes one of these
/// paths, other than the chosen one.
proof fn lemma_removals_delete_listed(
    listed: Seq<PathModel>,
    chosen: PathModel,
    kept: PathModel,
    nth: int,
)
    requires
        0 <= nth < removals(listed, chosen, kept).len(),
    ensures
        removals(listed, chosen, kept)[nth] matches OperationModel::RemoveDuplicate {
            duplicate,
            original,
        } && listed.contains(duplicate) && duplicate != chosen && original == kept,
    decreases listed.len(),
{
    if listed.len() > 0 {
        let shorter = listed.drop_last();
        let before = removals(shorter, chosen, kept);
        if nth < before.len() {
            lemma_removals_delete_listed(shorter, chosen, kept, nth);
            let found = before[nth]->RemoveDuplicate_duplicate;
            let i = choose|i: int| 0 <= i < shorter.len() && shorter[i] == found;
            assert(listed[i] == found);
        } else {
            assert(listed[listed.len() - 1] == listed.last());
        }
    }
}

/// Of the operations planned key by key, each one that moves a path away
/// or removes it takes a path that the target lists under a key of the
/// source.
proof fn lemma_operations_spare_other_keys(
    source: Seq<EntryModel>,
    target: Seq<EntryModel>,
    nth: int,
)
    requires
        !lacks_paths(source, target),
        0 <= nth < operations(source, target).len(),
    ensures
        taken_away(operations(source, target)[nth]) matches Some(path) ==> exists|i: int|
            0 <= i < source.len() && paths_under(target, (#[trigger] source[i]).key).contains(path),
        taken_away(operations(source, target)[nth]) matches Some(path) ==> listed_once(target)
            ==> forall|key: KeyModel|
            !has_key(source, key) ==> !(#[trigger] paths_under(target, key)).contains(path),
    decreases source.len(),
{
    let operation = operations(source, target)[nth];
    if source.len() > 0 {
        let shorter = source.drop_last();
        let last = source.len() - 1;
        let earlier = operations(shorter, target);
        let wanted = source.last().paths[0];
        let steps = key_operations(wanted, lookup(target, source.last().key));
        assert(!lacks_paths(shorter, target)) by {
            if lacks_paths(shorter, target) {
                let i = choose|i: int|
                    0 <= i < shorter.len() && ((#[trigger] shorter[i]).paths.len() == 0 || lookup(
                        target,
                        shorter[i].key,
                    ) == Some(Seq::<PathModel>::empty()));
                assert(source[i] == shorter[i]);
            }
        }
        if nth < earlier.len() {
            lemma_operations_spare_other_keys(shorter, target, nth);
            match taken_away(operation) {
                Some(path) => {
                    let i = choose|i: int|
                        0 <= i < shorter.len() && paths_under(
                            target,
                            (#[trigger] shorter[i]).key,
                        ).contains(path);
                    assert(source[i] == shorter[i]);
                },
                None => {},
            }
        } else {
            let offset = nth - earlier.len();
            assert(operation == steps[offset]);
            match lookup(target, source.last().key) {
                None => {},
                Some(listed) => {
                    if listed.contains(wanted) {
                        lemma_removals_delete_listed(listed, wanted, wanted, offset);
                    } else if offset == 0 {
                        assert(listed.len() > 0) by {
                            if listed.len() == 0 {
                                assert(listed =~= Seq::<PathModel>::empty());
                                assert(source[last].key == source.last().key);
                            }
                        }
                        assert(listed.contains(listed[0]));
                    } else {
                        lemma_removals_delete_listed(listed, listed[0], wanted, offset - 1);
                    }
                    match taken_away(operation) {
                        Some(path) => {
                            assert(paths_under(target, source[last].key).contains(path));
                        },
                        None => {},
                    }
                },
            }
        }
    }
    match taken_away(operation) {
        Some(path) => {
            if listed_once(target) {
                let i = choose|i: int|
                    0 <= i < source.len() && paths_under(
                        target,
                        (#[trigger] source[i]).key,
                    ).contains(path);
                let shared = source[i].key;
                let at = choose|at: int|
                    0 <= at < paths_under(target, shared).len() && paths_under(target, shared)[at]
                        == path;
                assert forall|key: KeyModel| !has_key(source, key) implies !(
                #[trigger] paths_under(target, key)).contains(path) by {
                    if paths_under(target, key).contains(path) {
                        let other = choose|other: int|
                            0 <= other < paths_under(target, key).len() && paths_under(
                                target,
                                key,
                            )[other] == path;
                        assert(paths_under(target, key)[other] == paths_under(target, shared)[at]);
                        assert(source[i].key == key);
                    }
                }
            }
        },
        None => {},
    }
}

/// A plan takes no file away that only the target has: every path that
/// one of its operations moves away or removes is listed in the target
/// under a key that the source has too. So where no path of the target is
/// listed twice, no operation takes away a path of a key that only the
/// target has.
pub proof fn lemma_plan_spares_other_keys(
    source: Seq<EntryModel>,
    target: Seq<EntryModel>,
    nth: int,
)
    requires
        plan_of(source, target) is Ok,
        0 <= nth < plan_of(source, target)->Ok_0.len(),
    ensures
        taken_away(plan_of(source, target)->Ok_0[nth]) matches Some(path) ==> exists|i: int|
            0 <= i < source.len() && paths_under(target, (#[trigger] source[i]).key).contains(path),
        taken_away(plan_of(source, target)->Ok_0[nth]) matches Some(path) ==> listed_once(target)
            ==> forall|key: KeyModel|
            !has_key(source, key) ==> !(#[trigger] paths_under(target, key)).contains(path),
{
    lemma_operations_spare_other_keys(source, target, nth);
}

/// A run that succeeds has overwritten nothing: at the time of each of
/// its operations the target listed no file at the place that the
/// operation writes to.
pub proof fn lemma_success_never_overwrites(
    plan: Seq<OperationModel>,
    source: Seq<EntryModel>,
    target: Seq<EntryModel>,
    nth: int,
)
    requires
        0 <= nth < plan.len(),
        run(plan, source, target).1 is None,
    ensures
        run(plan.take(nth), source, target).1 is None,
        written(resolved(plan[nth])) matches Some(to) ==> to.side == Side::Target && !lists(
            run(plan.take(nth), source, target).0,
            to.path,
        ),
{
    let done = plan.take(nth);
    let rest = plan.skip(nth);
    assert(plan =~= done + rest);
    lemma_run_split(done, rest, source, target);
    assert(rest[0] == plan[nth]);
}

/// The source tree is never changed: every place at which an operation
/// puts or takes away a file lies in the target tree, and only a copy
/// reads a file of the source tree.
pub proof fn lemma_source_is_never_changed(operation: OperationModel)
    ensures
        forall|i: int|
            0 <= i < changed(resolved(operation)).len() ==> (#[trigger] changed(
                resolved(operation),
            )[i]).side == Side::Target,
        match operation {
            OperationModel::Copy { source, target } => read_only(resolved(operation)) == Some(
                in_source(source),
            ),
            _ => read_only(resolved(operation)) is None,
        },
{
}

/// An operation that succeeds on the index of a tree leaves the index of
/// a tree: the keys ascend, no path is listed twice, and every path ends
/// in the name of its key.
pub proof fn lemma_effect_keeps_tree(
    operation: OperationModel,
    source: Seq<EntryModel>,
    target: Seq<EntryModel>,
)
    requires
        describes_tree(target),
        effect(operation, source, target) is Ok,
    ensures
        describes_tree(effect(operation, source, target)->Ok_0),
{
    match operation {
        OperationModel::Copy { source: from, target: to } => {
            let key = KeyModel {
                size: source[holder(source, from)].key.size,
                name: file_name_of(to)->0,
            };
            lemma_added(target, key, to);
            lemma_added_keeps_names(target, key, to);
        },
        OperationModel::Move { source: from, target: to } => {
            lemma_holder_exists(target, from);
            let at = holder(target, from);
            let old_key = target[at].key;
            lemma_slot_unique(target, old_key, at);
            lemma_taken(target, old_key, from);
            lemma_taken_keeps_names(target, from);
            let between = without_path(target, from);
            let key = KeyModel { size: old_key.size, name: file_name_of(to)->0 };
            lemma_added(between, key, to);
            lemma_added_keeps_names(between, key, to);
        },
        OperationModel::RemoveDuplicate { duplicate, original } => {
            lemma_holder_exists(target, duplicate);
            let at = holder(target, duplicate);
            lemma_slot_unique(target, target[at].key, at);
            lemma_taken(target, target[at].key, duplicate);
            lemma_taken_keeps_names(target, duplicate);
        },
    }
}

/// A run on the index of a tree leaves the index of a tree, whatever the
/// plan holds and whether or not the run succeeds.
pub proof fn lemma_run_keeps_tree(
    plan: Seq<OperationModel>,
    source: Seq<EntryModel>,
    target: Seq<EntryModel>,
)
    requires
        describes_tree(target),
    ensures
        describes_tree(run(plan, source, target).0),
    decreases plan.len(),
{
    if plan.len() > 0 {
        match effect(plan[0], source, target) {
            Ok(next) => {
                lemma_effect_keeps_tree(plan[0], source, target);
                lemma_run_keeps_tree(plan.drop_first(), source, next);
            },
            Err(error) => {},
        }
    }
}

/// A file that a walk meets for the first time, below the root of the
/// tree, leaves the index the index of a tree; so does every other visit
/// that succeeds.
pub proof fn lemma_visit_keeps_tree(
    ix: Seq<EntryModel>,
    root: PathModel,
    path: PathModel,
    probe: Probe,
)
    requires
        describes_tree(ix),
        visited(ix, root, path, probe) is Ok,
        probe is File ==> (relative_to(path, root) matches Some(rest) && rest.len() > 0 && !lists(
            ix,
            rest,
        )),
    ensures
        describes_tree(visited(ix, root, path, probe)->Ok_0.0),
{
    match probe {
        Probe::File(size) => {
            let rest = relative_to(path, root)->0;
            let key = KeyModel { size: size as nat, name: file_name_of(path)->0 };
            assert(rest.last() == path.last());
            lemma_added(ix, key, rest);
            lemma_added_keeps_names(ix, key, rest);
        },
        _ => {},
    }
}

/// Whether the files among the entries of a walk lie below the root, each
/// at a path of its own.
pub open spec fn files_apart(root: PathModel, found: Seq<FoundModel>) -> bool {
    &&& forall|i: int|
        0 <= i < found.len() && (#[trigger] found[i]).probe is File ==> root.is_prefix_of(
            found[i].path,
        ) && root.len() < found[i].path.len()
    &&& forall|i: int, j: int|
        0 <= i < j < found.len() && (#[trigger] found[i]).probe is File
            && (#[trigger] found[j]).probe is File ==> found[i].path != found[j].path
}

/// The visits of a walk whose files lie below the root, each at a path of
/// its own that the index does not list yet, leave the index of a tree
/// the index of a tree.
proof fn lemma_walk_keeps_tree(ix: Seq<EntryModel>, root: PathModel, found: Seq<FoundModel>)
    requires
        describes_tree(ix),
        files_apart(root, found),
        forall|i: int|
            0 <= i < found.len() && (#[trigger] found[i]).probe is File ==> !lists(
                ix,
                found[i].path.skip(root.len() as int),
            ),
        indexed_from(ix, root, found) is Ok,
    ensures
        describes_tree(indexed_from(ix, root, found)->Ok_0),
    decreases found.len(),
{
    if found.len() > 0 {
        let first = found[0];
        let rest = found.drop_first();
        let next = visited(ix, root, first.path, first.probe)->Ok_0.0;
        lemma_visit_keeps_tree(ix, root, first.path, first.probe);
        assert(files_apart(root, rest)) by {
            assert forall|i: int| 0 <= i < rest.len() implies rest[i] == found[i + 1] by {}
            assert forall|i: int|
                0 <= i < rest.len() && (#[trigger] rest[i]).probe is File implies root.is_prefix_of(
                rest[i].path,
            ) && root.len() < rest[i].path.len() by {
                assert(rest[i] == found[i + 1]);
            }
            assert forall|i: int, j: int|
                0 <= i < j < rest.len() && (#[trigger] rest[i]).probe is File
                    && (#[trigger] rest[j]).probe is File implies rest[i].path
                != rest[j].path by {
                assert(rest[i] == found[i + 1] && rest[j] == found[j + 1]);
            }
        }
        assert forall|i: int|
            0 <= i < rest.len() && (#[trigger] rest[i]).probe is File implies !lists(
            next,
            rest[i].path.skip(root.len() as int),
        ) by {
            assert(rest[i] == found[i + 1]);
            let below = rest[i].path.skip(root.len() as int);
            match first.probe {
                Probe::File(size) => {
                    let taken = first.path.skip(root.len() as int);
                    let key = KeyModel { size: size as nat, name: file_name_of(first.path)->0 };
                    lemma_added(ix, key, taken);
                    assert(lists(next, below) <==> lists(ix, below) || below == taken);
                    if below == taken {
                        assert(first.path =~= root + taken);
                        assert(rest[i].path =~= root + below);
                    }
                },
                _ => {},
            }
        }
        lemma_walk_keeps_tree(next, root, rest);
    }
}

/// The index of a walk whose files lie below the root, each at a path of
/// its own, is the index of a tree: its keys ascend, no path is listed
/// twice, and every path ends in the name of its key.
pub proof fn lemma_index_describes_tree(root: PathModel, found: Seq<FoundModel>)
    requires
        files_apart(root, found),
        indexed_from(Seq::empty(), root, found) is Ok,
    ensures
        describes_tree(indexed_from(Seq::empty(), root, found)->Ok_0),
{
    let none = Seq::<EntryModel>::empty();
    assert forall|path: PathModel| !lists(none, path) by {}
    assert(describes_tree(none)) by {
        assert forall|key: KeyModel| paths_under(none, key).len() == 0 by {}
    }
    lemma_walk_keeps_tree(none, root, found);
}

} // verus!
