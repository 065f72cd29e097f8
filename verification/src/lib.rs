//! A commit graph engine: the graph of all commits of a repository, kept in
//! a store, and the questions about its shape that a source-control service
//! asks: parents, generations, ancestry, differences of ancestries, common
//! bases, ranges and slices.
//!
//! The mathematical model is in [`dag`]; [`frontier`] holds the
//! generation-indexed set on which every traversal works, [`storage`] what
//! is asked of a store and [`memory`] a store in memory. The traversals are
//! methods of [`graph::CommitGraph`], one module each; [`laws`] states what
//! holds of them in every graph.
//!
//! Two modules serve neighbours of the graph: [`errors`], the error of an
//! indexed log, and [`transport`], what a client of the file service
//! computes around its requests.

pub mod add;
pub mod ancestors_frontier;
pub mod ancestry;
pub mod base;
pub mod dag;
pub mod difference;
pub mod errors;
pub mod frontier;
pub mod graph;
pub mod ids;
pub mod laws;
pub mod lowering;
pub mod memory;
pub mod property;
pub mod range;
pub mod slice;
pub mod storage;
pub mod transport;

pub use crate::difference::AncestorsDifferenceStream;
pub use crate::frontier::ChangesetFrontier;
pub use crate::graph::CommitGraph;
pub use crate::ids::{
    ChangesetEdges, ChangesetId, ChangesetIdPrefix, ChangesetIdsResolvedFromPrefix, ChangesetNode,
    ChangesetParents, Generation,
};
pub use crate::memory::InMemoryStorage;
pub use crate::range::RangeStream;
pub use crate::storage::{CommitGraphError, CommitGraphStorage, Prefetch};
