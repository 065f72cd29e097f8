//! The commit graph: the graph of all commits of a repository, over a store.

use crate::dag::Dag;
use crate::ids::{
    ChangesetEdges, ChangesetId, ChangesetIdPrefix, ChangesetIdsResolvedFromPrefix, ChangesetNode,
    ChangesetParents, Generation,
};
use crate::storage::{are_children_of, resolves, CommitGraphError, CommitGraphStorage};
use vstd::prelude::*;

verus! {

/// The commit graph of a repository.
///
/// It answers questions about the shape of history: parents, generations,
/// ancestry, differences of ancestries, common bases, ranges and slices.
pub struct CommitGraph<S: CommitGraphStorage> {
    /// The store where the commits are kept.
    pub storage: S,
}

/// The identifiers of the parents in a record, in order.
pub fn parents_of(edges: &ChangesetEdges) -> (parents: ChangesetParents)
    ensures
        parents@ == edges@.parents.map_values(|n: ChangesetNode| n.cs_id),
{
    let mut parents: Vec<ChangesetId> = Vec::new();
    let mut i: usize = 0;
    while i < edges.parents.len()
        invariant
            i <= edges.parents.len(),
            parents@ == edges.parents@.subrange(0, i as int).map_values(
                |n: ChangesetNode| n.cs_id,
            ),
        decreases edges.parents.len() - i,
    {
        parents.push(edges.parents[i].cs_id);
        i += 1;
        assert(parents@ =~= edges.parents@.subrange(0, i as int).map_values(
            |n: ChangesetNode| n.cs_id,
        ));
    }
    assert(edges.parents@.subrange(0, i as int) =~= edges.parents@);
    parents
}

impl<S: CommitGraphStorage> CommitGraph<S> {
    /// The graph that the store holds.
    pub open spec fn dag(&self) -> Dag {
        self.storage.dag()
    }

    /// The graph is a graph of commits: see `Dag::wf`.
    pub open spec fn wf(&self) -> bool {
        self.storage.dag().wf()
    }

    /// The store behind the graph never fails.
    pub open spec fn infallible(&self) -> bool {
        self.storage.infallible()
    }

    /// The commit graph over a store.
    pub fn new(storage: S) -> (graph: CommitGraph<S>)
        ensures
            graph.storage == storage,
    {
        CommitGraph { storage }
    }

    /// The changesets whose identifiers begin with the prefix, `limit` of
    /// them at most.
    pub fn find_by_prefix(
        &self,
        ctx: &S::Context,
        cs_prefix: ChangesetIdPrefix,
        limit: usize,
    ) -> (r: Result<
        ChangesetIdsResolvedFromPrefix,
        CommitGraphError,
    >)
        ensures
            match r {
                Ok(resolved) => resolves(self.dag(), cs_prefix, limit, resolved),
                Err(_) => !self.infallible(),
            },
    {
        self.storage.find_by_prefix(ctx, cs_prefix, limit)
    }

    /// The children of a changeset: the changesets that have it as a parent.
    pub fn changeset_children(&self, ctx: &S::Context, cs_id: ChangesetId) -> (r: Result<
        Vec<ChangesetId>,
        CommitGraphError,
    >)
        ensures
            match r {
                Ok(children) => are_children_of(self.dag(), cs_id, children@),
                Err(_) => !self.infallible(),
            },
    {
        self.storage.fetch_children(ctx, cs_id)
    }

    /// Whether the changeset is in the graph.
    pub fn changeset_exists(
        &self,
        ctx: &S::Context,
        cs_id: ChangesetId,
    ) -> (r: Result<bool, CommitGraphError>)
        ensures
            match r {
                Ok(found) => found == self.dag().contains(cs_id),
                Err(_) => !self.infallible(),
            },
    {
        let edges = self.storage.fetch_edges(ctx, cs_id)?;
        Ok(edges.is_some())
    }

    /// The parents of a changeset, if the graph has it.
    pub fn changeset_parents(&self, ctx: &S::Context, cs_id: ChangesetId) -> (r: Result<
        Option<ChangesetParents>,
        CommitGraphError,
    >)
        ensures
            match r {
                Ok(Some(parents)) => self.dag().contains(cs_id) && parents@ == self.dag().parent_ids(
                    cs_id,
                ),
                Ok(None) => !self.dag().contains(cs_id),
                Err(_) => !self.infallible(),
            },
    {
        match self.storage.fetch_edges(ctx, cs_id)? {
            Some(edges) => Ok(Some(parents_of(&edges))),
            None => Ok(None),
        }
    }

    /// The parents of a changeset that has to be in the graph.
    pub fn changeset_parents_required(&self, ctx: &S::Context, cs_id: ChangesetId) -> (r: Result<
        ChangesetParents,
        CommitGraphError,
    >)
        ensures
            match r {
                Ok(parents) => self.dag().contains(cs_id) && parents@ == self.dag().parent_ids(
                    cs_id,
                ),
                Err(e) => !self.infallible() || (e == CommitGraphError::MissingChangeset(cs_id)
                    && !self.dag().contains(cs_id)),
            },
    {
        match self.changeset_parents(ctx, cs_id)? {
            Some(parents) => Ok(parents),
            None => Err(CommitGraphError::MissingChangeset(cs_id)),
        }
    }

    /// The generation of a changeset, if the graph has it.
    pub fn changeset_generation(&self, ctx: &S::Context, cs_id: ChangesetId) -> (r: Result<
        Option<Generation>,
        CommitGraphError,
    >)
        ensures
            match r {
                Ok(Some(generation)) => self.dag().contains(cs_id) && generation == self.dag().node(
                    cs_id,
                ).generation,
                Ok(None) => !self.dag().contains(cs_id),
                Err(_) => !self.infallible(),
            },
    {
        match self.storage.fetch_edges(ctx, cs_id)? {
            Some(edges) => Ok(Some(edges.node.generation)),
            None => Ok(None),
        }
    }

    /// The generation of a changeset that has to be in the graph.
    pub fn changeset_generation_required(&self, ctx: &S::Context, cs_id: ChangesetId) -> (r: Result<
        Generation,
        CommitGraphError,
    >)
        ensures
            match r {
                Ok(generation) => self.dag().contains(cs_id) && generation == self.dag().node(
                    cs_id,
                ).generation,
                Err(e) => !self.infallible() || (e == CommitGraphError::MissingChangeset(cs_id)
                    && !self.dag().contains(cs_id)),
            },
    {
        match self.changeset_generation(ctx, cs_id)? {
            Some(generation) => Ok(generation),
            None => Err(CommitGraphError::MissingChangeset(cs_id)),
        }
    }
}

} // verus!
