//! What holds of the paths of each key when an index changes.
//!
//! The entries of an index shift when a key comes or goes. What a change
//! does is therefore told here key by key: which paths a key has after the
//! change, and which paths the index lists.

use crate::index::{
    ascending, first_place, has_key, holder, is_first, is_holder, listed_once, lists, lookup,
    names_agree, paths_under, rank, reserved, slot_of, with_path, without_path, EntryModel,
};
use crate::key::{
    key_before, lemma_key_connected, lemma_key_irreflexive, lemma_key_transitive, KeyModel,
};
use crate::path::{file_name_of, PathModel};
use vstd::prelude::*;

verus! {

/// In an ascending index a key stands at one place only.
pub proof fn lemma_slot_unique(ix: Seq<EntryModel>, key: KeyModel, at: int)
    requires
        ascending(ix),
        0 <= at < ix.len(),
        ix[at].key == key,
    ensures
        has_key(ix, key),
        slot_of(ix, key) == at,
        lookup(ix, key) == Some(ix[at].paths),
{
    let other = slot_of(ix, key);
    if other < at {
        lemma_key_irreflexive(key);
        assert(key_before(ix[other].key, ix[at].key));
    } else if at < other {
        lemma_key_irreflexive(key);
        assert(key_before(ix[at].key, ix[other].key));
    }
}

/// The place of a key in an ascending index is where the keys stop coming
/// before it.
pub proof fn lemma_rank_is(ix: Seq<EntryModel>, key: KeyModel, at: int)
    requires
        0 <= at <= ix.len(),
        forall|i: int| 0 <= i < at ==> key_before((#[trigger] ix[i]).key, key),
        forall|i: int| at <= i < ix.len() ==> !key_before((#[trigger] ix[i]).key, key),
    ensures
        rank(ix, key) == at,
    decreases ix.len(),
{
    if ix.len() > 0 {
        if at == ix.len() {
            assert(key_before(ix[at - 1].key, key));
        } else {
            assert(!key_before(ix[ix.len() - 1].key, key));
            let shorter = ix.drop_last();
            assert forall|i: int| 0 <= i < at implies key_before(
                (#[trigger] shorter[i]).key,
                key,
            ) by {
                assert(shorter[i] == ix[i]);
            }
            assert forall|i: int| at <= i < shorter.len() implies !key_before(
                (#[trigger] shorter[i]).key,
                key,
            ) by {
                assert(shorter[i] == ix[i]);
            }
            lemma_rank_is(shorter, key, at);
        }
    }
}

/// In an ascending index the place of a key parts the keys that come
/// before it from the others.
pub proof fn lemma_rank_bounds(ix: Seq<EntryModel>, key: KeyModel)
    requires
        ascending(ix),
    ensures
        0 <= rank(ix, key) <= ix.len(),
        forall|i: int| 0 <= i < rank(ix, key) ==> key_before((#[trigger] ix[i]).key, key),
        forall|i: int| rank(ix, key) <= i < ix.len() ==> !key_before((#[trigger] ix[i]).key, key),
    decreases ix.len(),
{
    if ix.len() > 0 {
        let last = ix.len() - 1;
        let shorter = ix.drop_last();
        if key_before(ix.last().key, key) {
            assert forall|i: int| 0 <= i < ix.len() implies key_before(
                (#[trigger] ix[i]).key,
                key,
            ) by {
                if i < last {
                    assert(key_before(ix[i].key, ix[last].key));
                    lemma_key_transitive(ix[i].key, ix[last].key, key);
                }
            }
        } else {
            assert forall|i: int, j: int| 0 <= i < j < shorter.len() implies key_before(
                (#[trigger] shorter[i]).key,
                (#[trigger] shorter[j]).key,
            ) by {
                assert(shorter[i] == ix[i] && shorter[j] == ix[j]);
            }
            lemma_rank_bounds(shorter, key);
            assert forall|i: int| 0 <= i < rank(ix, key) implies key_before(
                (#[trigger] ix[i]).key,
                key,
            ) by {
                assert(shorter[i] == ix[i]);
            }
            assert forall|i: int| rank(ix, key) <= i < ix.len() implies !key_before(
                (#[trigger] ix[i]).key,
                key,
            ) by {
                if i < last {
                    assert(shorter[i] == ix[i]);
                }
            }
        }
    }
}

/// A path stands first at one place only.
pub proof fn lemma_first_place_is(paths: Seq<PathModel>, path: PathModel, nth: int)
    requires
        is_first(paths, path, nth),
    ensures
        first_place(paths, path) == nth,
{
    let other = first_place(paths, path);
    assert(is_first(paths, path, other));
}

/// A sequence that holds a path holds it at a first place.
pub proof fn lemma_first_exists(paths: Seq<PathModel>, path: PathModel)
    requires
        paths.contains(path),
    ensures
        is_first(paths, path, first_place(paths, path)),
    decreases paths.len(),
{
    let some = choose|i: int| 0 <= i < paths.len() && paths[i] == path;
    let shorter = paths.take(some);
    if shorter.contains(path) {
        lemma_first_exists(shorter, path);
        let nth = first_place(shorter, path);
        assert(is_first(paths, path, nth)) by {
            assert(shorter[nth] == paths[nth]);
            assert forall|k: int| 0 <= k < nth implies paths[k] != path by {
                assert(shorter[k] == paths[k]);
            }
        }
    } else {
        assert(is_first(paths, path, some)) by {
            assert forall|k: int| 0 <= k < some implies paths[k] != path by {
                assert(shorter[k] == paths[k]);
            }
        }
    }
}

/// A path has one first holder only.
pub proof fn lemma_holder_is(ix: Seq<EntryModel>, path: PathModel, at: int)
    requires
        is_holder(ix, path, at),
    ensures
        lists(ix, path),
        holder(ix, path) == at,
{
    let other = holder(ix, path);
    assert(is_holder(ix, path, other));
}

/// An index that lists a path has a first entry that lists it.
pub proof fn lemma_holder_exists(ix: Seq<EntryModel>, path: PathModel)
    requires
        lists(ix, path),
    ensures
        is_holder(ix, path, holder(ix, path)),
    decreases ix.len(),
{
    let some = choose|i: int| 0 <= i < ix.len() && (#[trigger] ix[i]).paths.contains(path);
    let shorter = ix.take(some);
    if lists(shorter, path) {
        lemma_holder_exists(shorter, path);
        let at = holder(shorter, path);
        assert(is_holder(ix, path, at)) by {
            assert(shorter[at] == ix[at]);
            assert forall|k: int| 0 <= k < at implies !(#[trigger] ix[k]).paths.contains(path) by {
                assert(shorter[k] == ix[k]);
            }
        }
    } else {
        assert(is_holder(ix, path, some)) by {
            assert forall|k: int| 0 <= k < some implies !(#[trigger] ix[k]).paths.contains(
                path,
            ) by {
                assert(shorter[k] == ix[k]);
            }
        }
    }
}

/// Two ascending indexes list the same paths under a key where each
/// holds the entries that the other has for that key.
pub proof fn lemma_lookup_same(a: Seq<EntryModel>, b: Seq<EntryModel>, key: KeyModel)
    requires
        ascending(a),
        ascending(b),
        forall|i: int| 0 <= i < a.len() && (#[trigger] a[i]).key == key ==> b.contains(a[i]),
        forall|j: int| 0 <= j < b.len() && (#[trigger] b[j]).key == key ==> a.contains(b[j]),
    ensures
        lookup(a, key) == lookup(b, key),
{
    if has_key(a, key) {
        let i = slot_of(a, key);
        assert(b.contains(a[i]));
        let j = choose|j: int| 0 <= j < b.len() && b[j] == a[i];
        lemma_slot_unique(a, key, i);
        lemma_slot_unique(b, key, j);
    } else if has_key(b, key) {
        let j = slot_of(b, key);
        assert(a.contains(b[j]));
        let i = choose|i: int| 0 <= i < a.len() && a[i] == b[j];
        assert(a[i].key == key);
    }
}

/// An entry put into an ascending index at the place of its key, which
/// the index lacks, leaves it ascending; the other keys keep their paths.
pub proof fn lemma_reserved(ix: Seq<EntryModel>, key: KeyModel)
    requires
        ascending(ix),
    ensures
        ascending(reserved(ix, key)),
        has_key(reserved(ix, key), key),
        lookup(reserved(ix, key), key) == Some(paths_under(ix, key)),
        forall|other: KeyModel|
            other != key ==> #[trigger] lookup(reserved(ix, key), other) == lookup(ix, other),
{
    let wide = reserved(ix, key);
    if has_key(ix, key) {
    } else {
        let at = rank(ix, key);
        lemma_rank_bounds(ix, key);
        assert forall|i: int, j: int| 0 <= i < j < wide.len() implies key_before(
            (#[trigger] wide[i]).key,
            (#[trigger] wide[j]).key,
        ) by {
            if j < at {
                assert(wide[i] == ix[i] && wide[j] == ix[j]);
            } else if j == at {
                assert(wide[i] == ix[i]);
            } else {
                assert(wide[j] == ix[j - 1]);
                if i < at {
                    assert(wide[i] == ix[i]);
                } else if i == at {
                    lemma_key_connected(key, ix[j - 1].key);
                } else {
                    assert(wide[i] == ix[i - 1]);
                }
            }
        }
        assert(wide[at].key == key);
        lemma_slot_unique(wide, key, at);
        assert forall|other: KeyModel| other != key implies #[trigger] lookup(wide, other)
            == lookup(ix, other) by {
            assert forall|i: int| 0 <= i < wide.len() && (#[trigger] wide[i]).key
                == other implies ix.contains(wide[i]) by {
                if i < at {
                    assert(ix[i] == wide[i]);
                } else {
                    assert(ix[i - 1] == wide[i]);
                }
            }
            assert forall|j: int| 0 <= j < ix.len() && (#[trigger] ix[j]).key
                == other implies wide.contains(ix[j]) by {
                if j < at {
                    assert(wide[j] == ix[j]);
                } else {
                    assert(wide[j + 1] == ix[j]);
                }
            }
            lemma_lookup_same(wide, ix, other);
        }
    }
}

/// New paths for one entry of an ascending index leave it ascending; the
/// other keys keep their paths.
pub proof fn lemma_update_paths(ix: Seq<EntryModel>, at: int, paths: Seq<PathModel>)
    requires
        ascending(ix),
        0 <= at < ix.len(),
    ensures
        ascending(ix.update(at, EntryModel { key: ix[at].key, paths })),
        lookup(ix.update(at, EntryModel { key: ix[at].key, paths }), ix[at].key) == Some(paths),
        forall|other: KeyModel|
            other != ix[at].key ==> #[trigger] lookup(
                ix.update(at, EntryModel { key: ix[at].key, paths }),
                other,
            ) == lookup(ix, other),
{
    let key = ix[at].key;
    let new = ix.update(at, EntryModel { key, paths });
    assert forall|i: int, j: int| 0 <= i < j < new.len() implies key_before(
        (#[trigger] new[i]).key,
        (#[trigger] new[j]).key,
    ) by {
        assert(new[i].key == ix[i].key && new[j].key == ix[j].key);
    }
    lemma_slot_unique(new, key, at);
    assert forall|other: KeyModel| other != key implies #[trigger] lookup(new, other) == lookup(
        ix,
        other,
    ) by {
        assert forall|i: int| 0 <= i < new.len() && (#[trigger] new[i]).key
            == other implies ix.contains(new[i]) by {
            assert(ix[i] == new[i]);
        }
        assert forall|j: int| 0 <= j < ix.len() && (#[trigger] ix[j]).key
            == other implies new.contains(ix[j]) by {
            assert(new[j] == ix[j]);
        }
        lemma_lookup_same(new, ix, other);
    }
}

/// An ascending index without one of its entries is ascending and lacks
/// the key of that entry; the other keys keep their paths.
pub proof fn lemma_remove_entry(ix: Seq<EntryModel>, at: int)
    requires
        ascending(ix),
        0 <= at < ix.len(),
    ensures
        ascending(ix.remove(at)),
        lookup(ix.remove(at), ix[at].key) is None,
        forall|other: KeyModel|
            other != ix[at].key ==> #[trigger] lookup(ix.remove(at), other) == lookup(ix, other),
{
    let key = ix[at].key;
    let new = ix.remove(at);
    assert forall|i: int, j: int| 0 <= i < j < new.len() implies key_before(
        (#[trigger] new[i]).key,
        (#[trigger] new[j]).key,
    ) by {
        let from = if i < at { i } else { i + 1 };
        let to = if j < at { j } else { j + 1 };
        assert(new[i] == ix[from] && new[j] == ix[to]);
    }
    if has_key(new, key) {
        let i = slot_of(new, key);
        let from = if i < at { i } else { i + 1 };
        assert(new[i] == ix[from]);
        lemma_slot_unique(ix, key, at);
        lemma_slot_unique(ix, key, from);
    }
    assert forall|other: KeyModel| other != key implies #[trigger] lookup(new, other) == lookup(
        ix,
        other,
    ) by {
        assert forall|i: int| 0 <= i < new.len() && (#[trigger] new[i]).key
            == other implies ix.contains(new[i]) by {
            let from = if i < at { i } else { i + 1 };
            assert(ix[from] == new[i]);
        }
        assert forall|j: int| 0 <= j < ix.len() && (#[trigger] ix[j]).key
            == other implies new.contains(ix[j]) by {
            let to = if j < at { j } else { j - 1 };
            assert(new[to] == ix[j]);
        }
        lemma_lookup_same(new, ix, other);
    }
}

/// What `with_path` does to the paths of each key: the path is appended
/// to those of its key, and the other keys keep their paths.
pub proof fn lemma_with_path(ix: Seq<EntryModel>, key: KeyModel, path: PathModel)
    requires
        ascending(ix),
    ensures
        ascending(with_path(ix, key, path)),
        lookup(with_path(ix, key, path), key) == Some(paths_under(ix, key).push(path)),
        forall|other: KeyModel|
            other != key ==> #[trigger] lookup(with_path(ix, key, path), other) == lookup(
                ix,
                other,
            ),
{
    let wide = reserved(ix, key);
    lemma_reserved(ix, key);
    let at = slot_of(wide, key);
    lemma_update_paths(wide, at, wide[at].paths.push(path));
    assert forall|other: KeyModel| other != key implies #[trigger] lookup(
        with_path(ix, key, path),
        other,
    ) == lookup(ix, other) by {
        assert(lookup(wide, other) == lookup(ix, other));
    }
}

/// What `without_path` does to the paths of each key: the path leaves the
/// paths of the first entry that lists it, at the first place at which it
/// stands there, and the other keys keep their paths.
pub proof fn lemma_without_path(ix: Seq<EntryModel>, path: PathModel)
    requires
        ascending(ix),
        lists(ix, path),
    ensures
        ascending(without_path(ix, path)),
        is_holder(ix, path, holder(ix, path)),
        is_first(
            ix[holder(ix, path)].paths,
            path,
            first_place(ix[holder(ix, path)].paths, path),
        ),
        paths_under(without_path(ix, path), ix[holder(ix, path)].key) == ix[holder(
            ix,
            path,
        )].paths.remove(first_place(ix[holder(ix, path)].paths, path)),
        forall|other: KeyModel|
            other != ix[holder(ix, path)].key ==> #[trigger] lookup(without_path(ix, path), other)
                == lookup(ix, other),
{
    lemma_holder_exists(ix, path);
    let at = holder(ix, path);
    let paths = ix[at].paths;
    lemma_first_exists(paths, path);
    let rest = paths.remove(first_place(paths, path));
    if rest.len() == 0 {
        lemma_remove_entry(ix, at);
    } else {
        lemma_update_paths(ix, at, rest);
    }
}

/// An ascending index lists a path exactly where some key has it among
/// its paths.
pub proof fn lemma_lists_under_key(ix: Seq<EntryModel>, path: PathModel)
    requires
        ascending(ix),
    ensures
        lists(ix, path) <==> exists|key: KeyModel| #[trigger] paths_under(ix, key).contains(path),
{
    if lists(ix, path) {
        let at = choose|at: int| 0 <= at < ix.len() && (#[trigger] ix[at]).paths.contains(path);
        lemma_slot_unique(ix, ix[at].key, at);
        assert(paths_under(ix, ix[at].key).contains(path));
    }
    if exists|key: KeyModel| #[trigger] paths_under(ix, key).contains(path) {
        let key = choose|key: KeyModel| #[trigger] paths_under(ix, key).contains(path);
        assert(has_key(ix, key));
        let at = slot_of(ix, key);
        assert(ix[at].paths.contains(path));
    }
}

/// Where no path is listed twice, the first entry that lists a path is
/// the entry of the one key that has it.
pub proof fn lemma_holder_key(ix: Seq<EntryModel>, key: KeyModel, path: PathModel)
    requires
        ascending(ix),
        listed_once(ix),
        paths_under(ix, key).contains(path),
    ensures
        lists(ix, path),
        has_key(ix, key),
        holder(ix, path) == slot_of(ix, key),
        ix[holder(ix, path)].key == key,
        ix[holder(ix, path)].paths == paths_under(ix, key),
{
    assert(has_key(ix, key));
    let at = slot_of(ix, key);
    assert(ix[at].paths.contains(path));
    assert forall|k: int| 0 <= k < at implies !(#[trigger] ix[k]).paths.contains(path) by {
        if ix[k].paths.contains(path) {
            lemma_slot_unique(ix, ix[k].key, k);
            let i = choose|i: int| 0 <= i < ix[k].paths.len() && ix[k].paths[i] == path;
            let j = choose|j: int| 0 <= j < ix[at].paths.len() && ix[at].paths[j] == path;
            assert(paths_under(ix, ix[k].key)[i] == paths_under(ix, key)[j]);
            lemma_slot_unique(ix, key, k);
        }
    }
    lemma_holder_is(ix, path, at);
}

/// A path that an index does not list, appended to the paths of a key,
/// is listed once, and nothing else changes in what the index lists.
pub proof fn lemma_added(ix: Seq<EntryModel>, key: KeyModel, path: PathModel)
    requires
        ascending(ix),
        listed_once(ix),
        !lists(ix, path),
    ensures
        ascending(with_path(ix, key, path)),
        listed_once(with_path(ix, key, path)),
        paths_under(with_path(ix, key, path), key) == paths_under(ix, key).push(path),
        forall|other: KeyModel|
            other != key ==> #[trigger] lookup(with_path(ix, key, path), other) == lookup(
                ix,
                other,
            ),
        forall|other: PathModel|
            #[trigger] lists(with_path(ix, key, path), other) <==> lists(ix, other) || other
                == path,
{
    let new = with_path(ix, key, path);
    let old_paths = paths_under(ix, key);
    lemma_with_path(ix, key, path);
    assert forall|k: KeyModel, i: int| 0 <= i < paths_under(ix, k).len() implies #[trigger] paths_under(
        ix,
        k,
    )[i] != path by {
        if paths_under(ix, k)[i] == path {
            assert(paths_under(ix, k).contains(path));
            lemma_lists_under_key(ix, path);
        }
    }
    assert forall|a: KeyModel, b: KeyModel, i: int, j: int|
        #![trigger paths_under(new, a)[i], paths_under(new, b)[j]]
        0 <= i < paths_under(new, a).len() && 0 <= j < paths_under(new, b).len() && paths_under(
            new,
            a,
        )[i] == paths_under(new, b)[j] implies a == b && i == j by {
        assert(a != key ==> lookup(new, a) == lookup(ix, a));
        assert(b != key ==> lookup(new, b) == lookup(ix, b));
        let first_old = a != key || i < old_paths.len();
        let second_old = b != key || j < old_paths.len();
        if first_old {
            assert(paths_under(new, a)[i] == paths_under(ix, a)[i]);
        }
        if second_old {
            assert(paths_under(new, b)[j] == paths_under(ix, b)[j]);
        }
    }
    assert forall|other: PathModel| #[trigger] lists(new, other) <==> lists(ix, other) || other
        == path by {
        lemma_lists_under_key(new, other);
        lemma_lists_under_key(ix, other);
        if lists(new, other) {
            let k = choose|k: KeyModel| #[trigger] paths_under(new, k).contains(other);
            assert(k != key ==> lookup(new, k) == lookup(ix, k));
            let i = choose|i: int| 0 <= i < paths_under(new, k).len() && paths_under(new, k)[i]
                == other;
            if k != key || i < old_paths.len() {
                assert(paths_under(ix, k)[i] == other);
                assert(paths_under(ix, k).contains(other));
            }
        }
        if lists(ix, other) {
            let k = choose|k: KeyModel| #[trigger] paths_under(ix, k).contains(other);
            assert(k != key ==> lookup(new, k) == lookup(ix, k));
            let i = choose|i: int| 0 <= i < paths_under(ix, k).len() && paths_under(ix, k)[i]
                == other;
            assert(paths_under(new, k)[i] == other);
            assert(paths_under(new, k).contains(other));
        }
        if other == path {
            assert(paths_under(new, key)[old_paths.len() as int] == path);
            assert(paths_under(new, key).contains(path));
        }
    }
}

/// A path taken out of an index in which no path is listed twice is no
/// longer listed, and nothing else changes in what the index lists.
pub proof fn lemma_taken(ix: Seq<EntryModel>, key: KeyModel, path: PathModel)
    requires
        ascending(ix),
        listed_once(ix),
        paths_under(ix, key).contains(path),
    ensures
        ascending(without_path(ix, path)),
        listed_once(without_path(ix, path)),
        forall|other: PathModel|
            #[trigger] paths_under(without_path(ix, path), key).contains(other) <==> paths_under(
                ix,
                key,
            ).contains(other) && other != path,
        forall|other: KeyModel|
            other != key ==> #[trigger] lookup(without_path(ix, path), other) == lookup(
                ix,
                other,
            ),
        forall|other: PathModel|
            #[trigger] lists(without_path(ix, path), other) <==> lists(ix, other) && other
                != path,
{
    let new = without_path(ix, path);
    lemma_holder_key(ix, key, path);
    lemma_without_path(ix, path);
    let old_paths = paths_under(ix, key);
    let nth = first_place(old_paths, path);
    let rest = old_paths.remove(nth);
    assert(paths_under(new, key) == rest);
    assert forall|i: int| 0 <= i < old_paths.len() && i != nth implies old_paths[i] != path by {
        if old_paths[i] == path {
            assert(paths_under(ix, key)[i] == paths_under(ix, key)[nth]);
        }
    }
    assert forall|a: KeyModel, b: KeyModel, i: int, j: int|
        #![trigger paths_under(new, a)[i], paths_under(new, b)[j]]
        0 <= i < paths_under(new, a).len() && 0 <= j < paths_under(new, b).len() && paths_under(
            new,
            a,
        )[i] == paths_under(new, b)[j] implies a == b && i == j by {
        assert(a != key ==> lookup(new, a) == lookup(ix, a));
        assert(b != key ==> lookup(new, b) == lookup(ix, b));
        let from = if a == key && i >= nth { i + 1 } else { i };
        let to = if b == key && j >= nth { j + 1 } else { j };
        assert(paths_under(new, a)[i] == paths_under(ix, a)[from]);
        assert(paths_under(new, b)[j] == paths_under(ix, b)[to]);
    }
    assert forall|other: PathModel| #[trigger] rest.contains(other) <==> old_paths.contains(other)
        && other != path by {
        if rest.contains(other) {
            let i = choose|i: int| 0 <= i < rest.len() && rest[i] == other;
            let from = if i >= nth { i + 1 } else { i };
            assert(old_paths[from] == other);
        }
        if old_paths.contains(other) && other != path {
            let i = choose|i: int| 0 <= i < old_paths.len() && old_paths[i] == other;
            let to = if i > nth { i - 1 } else { i };
            assert(rest[to] == other);
        }
    }
    assert forall|other: PathModel| #[trigger] lists(new, other) <==> lists(ix, other) && other
        != path by {
        lemma_lists_under_key(new, other);
        lemma_lists_under_key(ix, other);
        if lists(new, other) {
            let k = choose|k: KeyModel| #[trigger] paths_under(new, k).contains(other);
            assert(k != key ==> lookup(new, k) == lookup(ix, k));
            if k == key {
                assert(rest.contains(other));
            } else {
                assert(paths_under(ix, k).contains(other));
                if other == path {
                    let i = choose|i: int| 0 <= i < paths_under(ix, k).len() && paths_under(
                        ix,
                        k,
                    )[i] == other;
                    assert(paths_under(ix, k)[i] == paths_under(ix, key)[nth]);
                }
            }
        }
        if lists(ix, other) && other != path {
            let k = choose|k: KeyModel| #[trigger] paths_under(ix, k).contains(other);
            assert(k != key ==> lookup(new, k) == lookup(ix, k));
            if k == key {
                assert(rest.contains(other));
            }
            assert(paths_under(new, k).contains(other));
        }
    }
}

/// A path that ends in the name of a key, appended to the paths of that
/// key, leaves every path ending in the name of its key.
pub proof fn lemma_added_keeps_names(ix: Seq<EntryModel>, key: KeyModel, path: PathModel)
    requires
        ascending(ix),
        names_agree(ix),
        file_name_of(path) == Some(key.name),
    ensures
        names_agree(with_path(ix, key, path)),
{
    let new = with_path(ix, key, path);
    lemma_with_path(ix, key, path);
    assert forall|other: KeyModel, i: int|
        #![trigger paths_under(new, other)[i]]
        0 <= i < paths_under(new, other).len() implies file_name_of(paths_under(new, other)[i])
        == Some(other.name) by {
        assert(other != key ==> lookup(new, other) == lookup(ix, other));
        if other != key || i < paths_under(ix, key).len() {
            assert(paths_under(new, other)[i] == paths_under(ix, other)[i]);
        }
    }
}

/// A path taken out of an index leaves every path ending in the name of
/// its key.
pub proof fn lemma_taken_keeps_names(ix: Seq<EntryModel>, path: PathModel)
    requires
        ascending(ix),
        names_agree(ix),
        lists(ix, path),
    ensures
        names_agree(without_path(ix, path)),
{
    let new = without_path(ix, path);
    lemma_without_path(ix, path);
    let at = holder(ix, path);
    let key = ix[at].key;
    let nth = first_place(ix[at].paths, path);
    lemma_slot_unique(ix, key, at);
    assert forall|other: KeyModel, i: int|
        #![trigger paths_under(new, other)[i]]
        0 <= i < paths_under(new, other).len() implies file_name_of(paths_under(new, other)[i])
        == Some(other.name) by {
        assert(other != key ==> lookup(new, other) == lookup(ix, other));
        let from = if other == key && i >= nth { i + 1 } else { i };
        assert(paths_under(new, other)[i] == paths_under(ix, other)[from]);
    }
}

} // verus!
