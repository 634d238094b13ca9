//! The content-identity index of a file tree.
//!
//! An index maps each identity key found in a tree to the paths of the
//! files that have this key, relative to the root of the tree and in the
//! order in which the files were met. Its entries are kept in the order of
//! their keys, so that a walk over the index is deterministic.

use crate::index_lemmas::{
    lemma_first_place_is, lemma_holder_is, lemma_rank_is, lemma_reserved, lemma_slot_unique,
    lemma_update_paths, lemma_without_path,
};
use crate::key::{
    key_before, lemma_key_irreflexive, lemma_key_transitive, IdentityKey, KeyModel,
};
use crate::path::{file_name_of, FilePath, PathModel};
use vstd::prelude::*;

verus! {

/// One entry of an index: a key and the paths of the files that have it.
#[derive(Clone, Debug, PartialEq, Eq)]
pub struct IndexEntry {
    pub key: IdentityKey,
    pub paths: Vec<FilePath>,
}

/// The mathematical value of an index entry.
pub struct EntryModel {
    pub key: KeyModel,
    pub paths: Seq<PathModel>,
}

/// The paths that a vector of paths stands for.
pub open spec fn paths_of(paths: Seq<FilePath>) -> Seq<PathModel> {
    Seq::new(paths.len(), |i: int| paths[i]@)
}

/// The groups of paths that a vector of vectors of paths stands for.
pub open spec fn groups_of(groups: Seq<Vec<FilePath>>) -> Seq<Seq<PathModel>> {
    Seq::new(groups.len(), |i: int| paths_of(groups[i]@))
}

impl View for IndexEntry {
    type V = EntryModel;

    open spec fn view(&self) -> EntryModel {
        EntryModel { key: self.key@, paths: paths_of(self.paths@) }
    }
}

/// The entries that a vector of entries stands for.
pub open spec fn entries_of(entries: Seq<IndexEntry>) -> Seq<EntryModel> {
    Seq::new(entries.len(), |i: int| entries[i]@)
}

/// Whether the keys of the entries strictly ascend.
pub open spec fn ascending(ix: Seq<EntryModel>) -> bool {
    forall|i: int, j: int|
        0 <= i < j < ix.len() ==> key_before((#[trigger] ix[i]).key, (#[trigger] ix[j]).key)
}

/// Whether some entry has the given key.
pub open spec fn has_key(ix: Seq<EntryModel>, key: KeyModel) -> bool {
    exists|i: int| 0 <= i < ix.len() && (#[trigger] ix[i]).key == key
}

/// The position of the entry that has the given key.
pub open spec fn slot_of(ix: Seq<EntryModel>, key: KeyModel) -> int {
    choose|i: int| 0 <= i < ix.len() && (#[trigger] ix[i]).key == key
}

/// The paths listed under a key, or `None` where the index has no such key.
pub open spec fn lookup(ix: Seq<EntryModel>, key: KeyModel) -> Option<Seq<PathModel>> {
    if has_key(ix, key) {
        Some(ix[slot_of(ix, key)].paths)
    } else {
        None
    }
}

/// The paths listed under a key: none where the index has no such key.
pub open spec fn paths_under(ix: Seq<EntryModel>, key: KeyModel) -> Seq<PathModel> {
    match lookup(ix, key) {
        Some(paths) => paths,
        None => Seq::empty(),
    }
}

/// The number of leading entries whose key comes before `key`: the place
/// at which an entry of that key belongs.
pub open spec fn rank(ix: Seq<EntryModel>, key: KeyModel) -> int
    decreases ix.len(),
{
    if ix.len() == 0 {
        0
    } else if key_before(ix.last().key, key) {
        ix.len() as int
    } else {
        rank(ix.drop_last(), key)
    }
}

/// The index with an entry for `key`: unchanged where it has one, else
/// with an entry without paths put in at the place of the key.
pub open spec fn reserved(ix: Seq<EntryModel>, key: KeyModel) -> Seq<EntryModel> {
    if has_key(ix, key) {
        ix
    } else {
        ix.insert(rank(ix, key), EntryModel { key, paths: Seq::empty() })
    }
}

/// The index with `path` appended to the paths of `key`.
pub open spec fn with_path(ix: Seq<EntryModel>, key: KeyModel, path: PathModel) -> Seq<
    EntryModel,
> {
    let wide = reserved(ix, key);
    let at = slot_of(wide, key);
    wide.update(at, EntryModel { key, paths: wide[at].paths.push(path) })
}

/// The groups of duplicates: for every key with two or more paths, in the
/// order of the keys, all the paths of that key.
pub open spec fn duplicates(ix: Seq<EntryModel>) -> Seq<Seq<PathModel>> {
    ix.filter_map(
        |entry: EntryModel|
            if entry.paths.len() > 1 {
                Some(entry.paths)
            } else {
                None
            },
    )
}

/// Whether some key has two or more paths.
pub open spec fn has_duplicates(ix: Seq<EntryModel>) -> bool {
    exists|i: int| 0 <= i < ix.len() && (#[trigger] ix[i]).paths.len() > 1
}

/// Whether some entry lists the given path.
pub open spec fn lists(ix: Seq<EntryModel>, path: PathModel) -> bool {
    exists|i: int| 0 <= i < ix.len() && (#[trigger] ix[i]).paths.contains(path)
}

/// Whether `nth` is the first place at which `path` stands in `paths`.
pub open spec fn is_first(paths: Seq<PathModel>, path: PathModel, nth: int) -> bool {
    &&& 0 <= nth < paths.len()
    &&& paths[nth] == path
    &&& forall|k: int| 0 <= k < nth ==> paths[k] != path
}

/// The first place at which `path` stands in `paths`.
pub open spec fn first_place(paths: Seq<PathModel>, path: PathModel) -> int {
    choose|nth: int| is_first(paths, path, nth)
}

/// Whether the entry at `at` is the first one that lists `path`.
pub open spec fn is_holder(ix: Seq<EntryModel>, path: PathModel, at: int) -> bool {
    &&& 0 <= at < ix.len()
    &&& ix[at].paths.contains(path)
    &&& forall|k: int| 0 <= k < at ==> !(#[trigger] ix[k]).paths.contains(path)
}

/// The position of the first entry that lists `path`.
pub open spec fn holder(ix: Seq<EntryModel>, path: PathModel) -> int {
    choose|at: int| is_holder(ix, path, at)
}

/// The index without the first listing of `path`: the path leaves the
/// first entry that lists it, and the entry leaves the index where no
/// path is left in it.
pub open spec fn without_path(ix: Seq<EntryModel>, path: PathModel) -> Seq<EntryModel> {
    if lists(ix, path) {
        let at = holder(ix, path);
        let rest = ix[at].paths.remove(first_place(ix[at].paths, path));
        if rest.len() == 0 {
            ix.remove(at)
        } else {
            ix.update(at, EntryModel { key: ix[at].key, paths: rest })
        }
    } else {
        ix
    }
}

/// Whether no path is listed twice, neither under two keys nor at two
/// places under one key: in a tree a path names one file.
pub open spec fn listed_once(ix: Seq<EntryModel>) -> bool {
    forall|a: KeyModel, b: KeyModel, i: int, j: int|
        #![trigger paths_under(ix, a)[i], paths_under(ix, b)[j]]
        0 <= i < paths_under(ix, a).len() && 0 <= j < paths_under(ix, b).len() && paths_under(
            ix,
            a,
        )[i] == paths_under(ix, b)[j] ==> a == b && i == j
}

/// Whether every listed path ends in the name of the key that it is
/// listed under.
pub open spec fn names_agree(ix: Seq<EntryModel>) -> bool {
    forall|key: KeyModel, i: int|
        #![trigger paths_under(ix, key)[i]]
        0 <= i < paths_under(ix, key).len() ==> file_name_of(paths_under(ix, key)[i]) == Some(
            key.name,
        )
}

/// Whether the index is one that a file tree can have: its keys ascend,
/// no path is listed twice, and every path ends in the name of its key.
pub open spec fn describes_tree(ix: Seq<EntryModel>) -> bool {
    ascending(ix) && listed_once(ix) && names_agree(ix)
}

/// An index of a file tree, its entries in the order of their keys.
#[derive(Clone, Debug, PartialEq, Eq)]
pub struct TreeIndex {
    entries: Vec<IndexEntry>,
}

impl View for TreeIndex {
    type V = Seq<EntryModel>;

    closed spec fn view(&self) -> Seq<EntryModel> {
        entries_of(self.entries@)
    }
}

impl TreeIndex {
    /// The invariant of an index: its keys strictly ascend.
    pub open spec fn wf(&self) -> bool {
        ascending(self@)
    }

    /// The index of an empty tree.
    pub fn new() -> (index: TreeIndex)
        ensures
            index.wf(),
            index@ == Seq::<EntryModel>::empty(),
    {
        let index = TreeIndex { entries: Vec::new() };
        assert(index@ =~= Seq::<EntryModel>::empty());
        index
    }

    /// The entries of the index, in the order of their keys.
    pub fn entries(&self) -> (entries: &Vec<IndexEntry>)
        ensures
            entries_of(entries@) == self@,
    {
        &self.entries
    }

    /// The place at which `key` belongs, and whether it stands there.
    fn search(&self, key: &IdentityKey) -> (found: (usize, bool))
        requires
            self.wf(),
        ensures
            found.0 == rank(self@, key@),
            found.0 <= self@.len(),
            found.1 == has_key(self@, key@),
            found.1 ==> found.0 < self@.len() && found.0 == slot_of(self@, key@),
    {
        let count: usize = self.entries.len();
        let mut low: usize = 0;
        let mut high: usize = count;
        while low < high
            invariant
                low <= high <= count,
                count == self.entries.len(),
                self.wf(),
                forall|i: int| 0 <= i < low ==> key_before((#[trigger] self@[i]).key, key@),
                forall|i: int| high <= i < count ==> !key_before((#[trigger] self@[i]).key, key@),
            decreases high - low,
        {
            let middle: usize = low + (high - low) / 2;
            if self.entries[middle].key.before(key) {
                assert forall|i: int| 0 <= i < middle + 1 implies key_before(
                    (#[trigger] self@[i]).key,
                    key@,
                ) by {
                    if i < middle {
                        assert(key_before(self@[i].key, self@[middle as int].key));
                        lemma_key_transitive(self@[i].key, self@[middle as int].key, key@);
                    }
                }
                low = middle + 1;
            } else {
                assert forall|i: int| middle <= i < count implies !key_before(
                    (#[trigger] self@[i]).key,
                    key@,
                ) by {
                    if middle < i && key_before(self@[i].key, key@) {
                        assert(key_before(self@[middle as int].key, self@[i].key));
                        lemma_key_transitive(self@[middle as int].key, self@[i].key, key@);
                    }
                }
                high = middle;
            }
        }
        let present = low < count && self.entries[low].key.same_as(key);
        proof {
            lemma_rank_is(self@, key@, low as int);
            if present {
                lemma_slot_unique(self@, key@, low as int);
            } else {
                assert forall|i: int| 0 <= i < count implies (#[trigger] self@[i]).key != key@ by {
                    lemma_key_irreflexive(key@);
                    if low < i && self@[i].key == key@ {
                        assert(key_before(self@[low as int].key, self@[i].key));
                    }
                }
            }
        }
        (low, present)
    }

    /// The paths listed under `key`, or `None` where the index has no such
    /// key.
    pub fn get(&self, key: &IdentityKey) -> (paths: Option<&Vec<FilePath>>)
        requires
            self.wf(),
        ensures
            match paths {
                Some(listed) => lookup(self@, key@) == Some(paths_of(listed@)),
                None => lookup(self@, key@) is None,
            },
    {
        let (at, present) = self.search(key);
        if present {
            Some(&self.entries[at].paths)
        } else {
            None
        }
    }

    /// Makes sure that the index has an entry for `key`, putting in one
    /// without paths where it has none, and returns the place of the entry.
    pub fn reserve(&mut self, key: IdentityKey) -> (at: usize)
        requires
            old(self).wf(),
        ensures
            final(self).wf(),
            final(self)@ == reserved(old(self)@, key@),
            at < final(self)@.len(),
            at == slot_of(final(self)@, key@),
            final(self)@[at as int].key == key@,
    {
        let (at, present) = self.search(&key);
        if !present {
            let ghost before = self@;
            let ghost model = EntryModel { key: key@, paths: Seq::empty() };
            let entry = IndexEntry { key, paths: Vec::new() };
            assert(entry@ =~= model) by {
                assert(paths_of(entry.paths@) =~= Seq::<PathModel>::empty());
            }
            self.entries.insert(at, entry);
            proof {
                assert(self@ =~= before.insert(at as int, model));
                lemma_reserved(before, model.key);
                lemma_slot_unique(self@, model.key, at as int);
            }
        }
        at
    }

    /// Appends `path` to the paths of `key`, after those already listed.
    pub fn insert(&mut self, key: IdentityKey, path: FilePath)
        requires
            old(self).wf(),
        ensures
            final(self).wf(),
            final(self)@ == with_path(old(self)@, key@, path@),
    {
        let ghost model = key@;
        let at: usize = self.reserve(key);
        let ghost wide = self@;
        self.entries[at].paths.push(path);
        proof {
            assert(self@[at as int].paths =~= wide[at as int].paths.push(path@));
            assert(self@ =~= wide.update(
                at as int,
                EntryModel { key: model, paths: wide[at as int].paths.push(path@) },
            ));
            lemma_update_paths(wide, at as int, wide[at as int].paths.push(path@));
        }
    }

    /// Where the index first lists `path`: the place of the entry and the
    /// place of the path among the paths of that entry.
    pub fn find(&self, path: &FilePath) -> (place: Option<(usize, usize)>)
        ensures
            match place {
                Some((at, nth)) => {
                    &&& lists(self@, path@)
                    &&& at == holder(self@, path@)
                    &&& at < self@.len()
                    &&& nth == first_place(self@[at as int].paths, path@)
                    &&& nth < self@[at as int].paths.len()
                },
                None => !lists(self@, path@),
            },
    {
        let mut at: usize = 0;
        while at < self.entries.len()
            invariant
                at <= self.entries.len(),
                forall|k: int| 0 <= k < at ==> !(#[trigger] self@[k]).paths.contains(path@),
            decreases self.entries.len() - at,
        {
            match position_of(&self.entries[at].paths, path) {
                Some(nth) => {
                    proof {
                        assert(self@[at as int].paths[nth as int] == path@);
                        lemma_holder_is(self@, path@, at as int);
                        lemma_first_place_is(self@[at as int].paths, path@, nth as int);
                    }
                    return Some((at, nth));
                },
                None => {},
            }
            at += 1;
        }
        None
    }

    /// Takes the first listing of `path` out of the index and returns the
    /// key under which it stood, or `None` where the index does not list
    /// the path. An entry that is left without paths leaves the index.
    pub fn remove_path(&mut self, path: &FilePath) -> (key: Option<IdentityKey>)
        requires
            old(self).wf(),
        ensures
            final(self).wf(),
            final(self)@ == without_path(old(self)@, path@),
            match key {
                Some(found) => lists(old(self)@, path@) && found@ == old(self)@[holder(
                    old(self)@,
                    path@,
                )].key,
                None => !lists(old(self)@, path@),
            },
    {
        let ghost before = self@;
        match self.find(path) {
            None => None,
            Some((at, nth)) => {
                let key = self.entries[at].key.duplicate();
                self.entries[at].paths.remove(nth);
                let ghost rest = before[at as int].paths.remove(nth as int);
                proof {
                    assert(self@[at as int].paths =~= rest);
                }
                if self.entries[at].paths.len() == 0 {
                    self.entries.remove(at);
                    assert(self@ =~= before.remove(at as int));
                } else {
                    assert(self@ =~= before.update(
                        at as int,
                        EntryModel { key: before[at as int].key, paths: rest },
                    ));
                }
                proof {
                    lemma_without_path(before, path@);
                }
                Some(key)
            },
        }
    }
}

/// The first place at which `wanted` stands in `paths`.
pub fn position_of(paths: &Vec<FilePath>, wanted: &FilePath) -> (place: Option<usize>)
    ensures
        match place {
            Some(nth) => is_first(paths_of(paths@), wanted@, nth as int),
            None => !paths_of(paths@).contains(wanted@),
        },
{
    let mut i: usize = 0;
    while i < paths.len()
        invariant
            i <= paths.len(),
            forall|j: int| 0 <= j < i ==> paths_of(paths@)[j] != wanted@,
        decreases paths.len() - i,
    {
        if paths[i].same_as(wanted) {
            assert(paths_of(paths@)[i as int] == wanted@);
            return Some(i);
        }
        i += 1;
    }
    None
}

/// The groups of duplicates of a tree: for every key with two or more
/// paths, in the order of the keys, all the paths of that key.
pub fn find_duplicates(index: &TreeIndex) -> (groups: Vec<Vec<FilePath>>)
    ensures
        groups_of(groups@) == duplicates(index@),
        groups@.len() > 0 <==> has_duplicates(index@),
{
    let mut groups: Vec<Vec<FilePath>> = Vec::new();
    let mut i: usize = 0;
    assert(index@.take(0) =~= Seq::<EntryModel>::empty());
    while i < index.entries.len()
        invariant
            i <= index.entries.len(),
            groups_of(groups@) == duplicates(index@.take(i as int)),
            groups@.len() > 0 <==> has_duplicates(index@.take(i as int)),
        decreases index.entries.len() - i,
    {
        let entry = &index.entries[i];
        let ghost seen = index@.take(i as int);
        let ghost next = index@.take(i + 1);
        proof {
            assert(next.drop_last() =~= seen);
            assert(next.last() == entry@);
        }
        if entry.paths.len() > 1 {
            let mut group: Vec<FilePath> = Vec::new();
            let mut j: usize = 0;
            while j < entry.paths.len()
                invariant
                    j <= entry.paths.len(),
                    group.len() == j,
                    forall|k: int| 0 <= k < j ==> group[k]@ == entry.paths[k]@,
                decreases entry.paths.len() - j,
            {
                group.push(entry.paths[j].duplicate());
                j += 1;
            }
            let ghost earlier = groups@;
            proof {
                assert(paths_of(group@) =~= entry@.paths);
            }
            groups.push(group);
            proof {
                assert(groups_of(groups@) =~= groups_of(earlier) + seq![entry@.paths]);
                assert(next[i as int].paths.len() > 1);
            }
        } else {
            proof {
                if has_duplicates(next) {
                    let at = choose|at: int| 0 <= at < next.len() && (#[trigger] next[at]).paths.len() > 1;
                    assert(seen[at] == next[at]);
                }
            }
        }
        proof {
            if has_duplicates(seen) {
                let at = choose|at: int| 0 <= at < seen.len() && (#[trigger] seen[at]).paths.len() > 1;
                assert(next[at] == seen[at]);
            }
        }
        i += 1;
    }
    assert(index@.take(i as int) =~= index@);
    groups
}

} // verus!
