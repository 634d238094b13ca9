//! The tree indexer.
//!
//! A walk over a tree meets one entry after another and probes what each
//! of them is. `visit` decides what becomes of an entry: a directory is
//! descended into, a regular file is put into the index under its size and
//! its file name, with its path relative to the root of the tree, and
//! anything else is passed over. Any failure ends the scan. `index` makes
//! the index of a whole tree from the entries that a walk met.

use crate::index::{with_path, EntryModel, TreeIndex};
use crate::key::{IdentityKey, KeyModel};
use crate::path::{file_name_of, is_relative, stripped, FilePath, PathModel};
use vstd::prelude::*;

verus! {

/// What a walk found out about an entry of the tree.
#[derive(Clone, Copy, Debug, PartialEq, Eq)]
pub enum Probe {
    /// The entry is a directory.
    Directory,
    /// The entry is a regular file of this length in bytes.
    File(u64),
    /// The entry is neither a directory nor a regular file.
    Other,
    /// The entry could not be read: a directory that cannot be listed, or
    /// a file whose length cannot be had.
    Unreadable,
}

/// What the walk does with an entry.
#[derive(Clone, Copy, Debug, PartialEq, Eq)]
pub enum Visit {
    /// The entry is a directory: its entries are visited next.
    Descend,
    /// The entry is a file and now stands in the index.
    Indexed,
    /// The entry is passed over.
    Skipped,
}

/// Why a scan failed.
#[derive(Clone, Debug, PartialEq, Eq)]
pub enum IndexError {
    /// The entry at this path could not be read.
    Io { path: FilePath },
    /// The path of a file does not end in a file name.
    NoFileName { path: FilePath },
    /// The path of a file has no relative path below the root of the tree.
    NotUnderRoot { path: FilePath },
}

/// The mathematical value of an indexer error.
pub enum IndexErrorModel {
    Io { path: PathModel },
    NoFileName { path: PathModel },
    NotUnderRoot { path: PathModel },
}

impl View for IndexError {
    type V = IndexErrorModel;

    open spec fn view(&self) -> IndexErrorModel {
        match self {
            IndexError::Io { path } => IndexErrorModel::Io { path: path@ },
            IndexError::NoFileName { path } => IndexErrorModel::NoFileName { path: path@ },
            IndexError::NotUnderRoot { path } => IndexErrorModel::NotUnderRoot { path: path@ },
        }
    }
}

/// The path of `path` relative to `root`: what is left of it below the
/// root, where the root is a prefix of it and what is left does not start
/// at the root directory.
pub open spec fn relative_to(path: PathModel, root: PathModel) -> Option<PathModel> {
    match stripped(path, root) {
        Some(rest) => if is_relative(rest) {
            Some(rest)
        } else {
            None
        },
        None => None,
    }
}

/// What a visit makes of the index, and what the walk does next, or why
/// the scan fails.
pub open spec fn visited(
    ix: Seq<EntryModel>,
    root: PathModel,
    path: PathModel,
    probe: Probe,
) -> Result<(Seq<EntryModel>, Visit), IndexErrorModel> {
    match probe {
        Probe::Unreadable => Err(IndexErrorModel::Io { path }),
        Probe::Directory => Ok((ix, Visit::Descend)),
        Probe::Other => Ok((ix, Visit::Skipped)),
        Probe::File(size) => match file_name_of(path) {
            None => Err(IndexErrorModel::NoFileName { path }),
            Some(name) => match relative_to(path, root) {
                None => Err(IndexErrorModel::NotUnderRoot { path }),
                Some(rest) => Ok(
                    (with_path(ix, KeyModel { size: size as nat, name }, rest), Visit::Indexed),
                ),
            },
        },
    }
}

/// Visits the entry at `path` of the tree rooted at `root`, given what the
/// walk found out about it.
///
/// A regular file is appended to the paths of its key, after the files met
/// before it. A failure leaves the index as it was.
pub fn visit(index: &mut TreeIndex, root: &FilePath, path: &FilePath, probe: Probe) -> (result:
    Result<Visit, IndexError>)
    requires
        old(index).wf(),
    ensures
        final(index).wf(),
        match result {
            Ok(next) => visited(old(index)@, root@, path@, probe) == Ok::<
                (Seq<EntryModel>, Visit),
                IndexErrorModel,
            >((final(index)@, next)),
            Err(error) => visited(old(index)@, root@, path@, probe) == Err::<
                (Seq<EntryModel>, Visit),
                IndexErrorModel,
            >(error@) && final(index)@ == old(index)@,
        },
{
    match probe {
        Probe::Unreadable => Err(IndexError::Io { path: path.duplicate() }),
        Probe::Directory => Ok(Visit::Descend),
        Probe::Other => Ok(Visit::Skipped),
        Probe::File(size) => {
            let name = match path.file_name() {
                None => {
                    return Err(IndexError::NoFileName { path: path.duplicate() });
                },
                Some(name) => name,
            };
            let rest = match path.strip_prefix(root) {
                None => {
                    return Err(IndexError::NotUnderRoot { path: path.duplicate() });
                },
                Some(rest) => rest,
            };
            if !rest.is_relative() {
                return Err(IndexError::NotUnderRoot { path: path.duplicate() });
            }
            index.insert(IdentityKey::new(size, name), rest);
            Ok(Visit::Indexed)
        },
    }
}

/// An entry that a walk met, and what the walk found out about it.
#[derive(Clone, Debug, PartialEq, Eq)]
pub struct Found {
    pub path: FilePath,
    pub probe: Probe,
}

/// The mathematical value of an entry that a walk met.
pub struct FoundModel {
    pub path: PathModel,
    pub probe: Probe,
}

impl View for Found {
    type V = FoundModel;

    open spec fn view(&self) -> FoundModel {
        FoundModel { path: self.path@, probe: self.probe }
    }
}

/// The entries that a vector of entries stands for.
pub open spec fn found_of(found: Seq<Found>) -> Seq<FoundModel> {
    Seq::new(found.len(), |i: int| found[i]@)
}

/// What the visits of the entries, one after another, make of an index,
/// or the failure of the first visit that fails.
pub open spec fn indexed_from(
    ix: Seq<EntryModel>,
    root: PathModel,
    found: Seq<FoundModel>,
) -> Result<Seq<EntryModel>, IndexErrorModel>
    decreases found.len(),
{
    if found.len() == 0 {
        Ok(ix)
    } else {
        match visited(ix, root, found[0].path, found[0].probe) {
            Err(error) => Err(error),
            Ok((next, step)) => indexed_from(next, root, found.drop_first()),
        }
    }
}

/// The index of the tree rooted at `root`, given the entries that a walk
/// over the tree met, in the order in which it met them.
///
/// The files stand in the index in that order. The first entry whose
/// visit fails ends the scan with that failure, and no index is returned.
pub fn index(root: &FilePath, found: &Vec<Found>) -> (result: Result<TreeIndex, IndexError>)
    ensures
        match result {
            Ok(index) => index.wf() && indexed_from(Seq::empty(), root@, found_of(found@)) == Ok::<
                Seq<EntryModel>,
                IndexErrorModel,
            >(index@),
            Err(error) => indexed_from(Seq::empty(), root@, found_of(found@)) == Err::<
                Seq<EntryModel>,
                IndexErrorModel,
            >(error@),
        },
{
    let ghost all = found_of(found@);
    let mut index = TreeIndex::new();
    let mut i: usize = 0;
    assert(all.skip(0) =~= all);
    while i < found.len()
        invariant
            i <= found.len(),
            all == found_of(found@),
            index.wf(),
            indexed_from(Seq::empty(), root@, all) == indexed_from(
                index@,
                root@,
                all.skip(i as int),
            ),
        decreases found.len() - i,
    {
        proof {
            assert(all.skip(i as int).len() > 0);
            assert(all.skip(i as int)[0] == found[i as int]@);
            assert(all.skip(i as int).drop_first() =~= all.skip(i + 1));
        }
        match visit(&mut index, root, &found[i].path, found[i].probe) {
            Err(error) => {
                return Err(error);
            },
            Ok(step) => {},
        }
        i += 1;
    }
    Ok(index)
}

} // verus!
