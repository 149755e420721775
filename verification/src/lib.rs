//! A stateful diff-to-patch compiler for declarative UI trees.
//!
//! Successive snapshots of a tree of elements and text leaves are reconciled
//! into an ordered stream of addressed patch records.  Stable node identities
//! are kept across updates in a path-keyed identity map, attribute changes are
//! reduced to minimal deltas, and sibling permutations are encoded as a single
//! reorder record.

pub mod nodes;
pub mod patch;
pub mod states;
pub mod differ;
pub mod engine;
pub mod context;
pub mod laws;
pub mod stability;
pub mod coverage;
