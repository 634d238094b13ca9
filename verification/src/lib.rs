//! Reconciles the folder layout of a target file collection with that of a
//! source collection: indexes both trees by file identity, detects
//! duplicates, and plans the copy, move and remove-duplicate operations
//! that bring the target in line with the source.

pub mod executor;
pub mod index;
pub mod index_lemmas;
pub mod indexer;
pub mod key;
pub mod laws;
pub mod path;
pub mod plan;
