//! What the engine asks of the store that keeps the graph.

use crate::dag::Dag;
use crate::ids::{ChangesetEdges, ChangesetId, ChangesetIdPrefix, ChangesetIdsResolvedFromPrefix};
use vstd::prelude::*;

verus! {

/// The ways in which a question to the commit graph can fail.
#[derive(Debug, PartialEq, Eq)]
pub enum CommitGraphError {
    /// A changeset that had to be in the graph is not in it.
    MissingChangeset(ChangesetId),
    /// The store could not answer; the text is the store's own.
    Storage(String),
    /// The changeset cannot be added: a parent already has the highest
    /// generation there is.
    GenerationOverflow(ChangesetId),
}

/// A hint to the store about what will be asked next. It never changes an answer.
#[derive(Clone, Copy, PartialEq, Eq, Structural, Debug)]
pub enum Prefetch {
    /// Nothing in particular will follow.
    NoHint,
    /// The first-parent ancestors of what is asked for will follow.
    LinearTraversal,
}

impl Prefetch {
    /// No hint.
    pub fn none() -> (p: Prefetch)
        ensures
            p == Prefetch::NoHint,
    {
        Prefetch::NoHint
    }

    /// The hint for a walk down the first parents.
    pub fn for_p1_linear_traversal() -> (p: Prefetch)
        ensures
            p == Prefetch::LinearTraversal,
    {
        Prefetch::LinearTraversal
    }
}

/// `found` is what the graph has for `cs_id`.
pub open spec fn is_record_of(dag: Dag, cs_id: ChangesetId, found: Option<ChangesetEdges>) -> bool {
    match found {
        Some(edges) => dag.contains(cs_id) && edges@ == dag.edges[cs_id],
        None => !dag.contains(cs_id),
    }
}

/// `found` holds, place by place, what the graph has for `cs_ids`.
pub open spec fn are_records_of(
    dag: Dag,
    cs_ids: Seq<ChangesetId>,
    found: Seq<Option<ChangesetEdges>>,
) -> bool {
    &&& found.len() == cs_ids.len()
    &&& forall|i: int| 0 <= i < cs_ids.len() ==> is_record_of(dag, cs_ids[i], #[trigger] found[i])
}

/// `found` holds, place by place, the records of `cs_ids`, all of which are in the graph.
pub open spec fn are_required_records_of(
    dag: Dag,
    cs_ids: Seq<ChangesetId>,
    found: Seq<ChangesetEdges>,
) -> bool {
    &&& found.len() == cs_ids.len()
    &&& forall|i: int|
        0 <= i < cs_ids.len() ==> is_record_of(dag, cs_ids[i], Some(#[trigger] found[i]))
}

/// `e` reports one of `cs_ids` as missing, and that changeset is not in the graph.
pub open spec fn reports_missing(dag: Dag, cs_ids: Seq<ChangesetId>, e: CommitGraphError) -> bool {
    exists|i: int|
        0 <= i < cs_ids.len() && e == CommitGraphError::MissingChangeset(#[trigger] cs_ids[i])
            && !dag.contains(cs_ids[i])
}

/// `id` is a changeset of the graph that begins with the prefix.
pub open spec fn has_prefix(dag: Dag, prefix: ChangesetIdPrefix, id: ChangesetId) -> bool {
    dag.contains(id) && prefix.covers(id)
}

/// `resolved` is the answer to the question which changesets of the graph
/// begin with the prefix, of which `limit` are wanted at most.
pub open spec fn resolves(
    dag: Dag,
    prefix: ChangesetIdPrefix,
    limit: usize,
    resolved: ChangesetIdsResolvedFromPrefix,
) -> bool {
    match resolved {
        ChangesetIdsResolvedFromPrefix::NoMatch => forall|id: ChangesetId|
            !#[trigger] has_prefix(dag, prefix, id),
        ChangesetIdsResolvedFromPrefix::Single(one) => forall|id: ChangesetId|
            #[trigger] has_prefix(dag, prefix, id) <==> id == one,
        ChangesetIdsResolvedFromPrefix::Multiple(ids) => {
            &&& ids@.no_duplicates()
            &&& 2 <= ids.len() <= limit
            &&& forall|id: ChangesetId| #[trigger] has_prefix(dag, prefix, id) <==> ids@.contains(id)
        },
        ChangesetIdsResolvedFromPrefix::TooMany(ids) => {
            &&& ids@.no_duplicates()
            &&& ids.len() == limit
            &&& forall|id: ChangesetId| ids@.contains(id) ==> #[trigger] has_prefix(dag, prefix, id)
            &&& exists|a: ChangesetId, b: ChangesetId|
                #[trigger] has_prefix(dag, prefix, a) && #[trigger] has_prefix(dag, prefix, b) && a
                    != b && !ids@.contains(a)
        },
    }
}

/// `children` are the changesets of the graph that have `cs_id` as a
/// parent, each once.
pub open spec fn are_children_of(dag: Dag, cs_id: ChangesetId, children: Seq<ChangesetId>) -> bool {
    &&& children.no_duplicates()
    &&& forall|c: ChangesetId| children.contains(c) <==> #[trigger] dag.is_parent(cs_id, c)
}

/// The store of a commit graph.
///
/// A store stands for a graph, `dag()`. Reading never changes it. A store for
/// which `infallible()` holds answers every question, and fails only to
/// report a required changeset that is missing.
pub trait CommitGraphStorage {
    /// What a caller hands through to the store with every question, such
    /// as where to log and whom the question is for. The engine passes it
    /// on and never looks into it.
    type Context;

    /// The graph that the store holds.
    spec fn dag(&self) -> Dag;

    /// The store itself never fails.
    spec fn infallible(&self) -> bool;

    /// The record of one changeset, if the graph has it.
    fn fetch_edges(&self, ctx: &Self::Context, cs_id: ChangesetId) -> (r: Result<
        Option<ChangesetEdges>,
        CommitGraphError,
    >)
        ensures
            match r {
                Ok(found) => is_record_of(self.dag(), cs_id, found),
                Err(_) => !self.infallible(),
            },
    ;

    /// The record of one changeset, which has to be in the graph.
    fn fetch_edges_required(&self, ctx: &Self::Context, cs_id: ChangesetId) -> (r: Result<
        ChangesetEdges,
        CommitGraphError,
    >)
        ensures
            match r {
                Ok(edges) => self.dag().contains(cs_id) && edges@ == self.dag().edges[cs_id],
                Err(e) => !self.infallible() || (e == CommitGraphError::MissingChangeset(cs_id)
                    && !self.dag().contains(cs_id)),
            },
    ;

    /// The records of several changesets, place by place; `None` where the
    /// graph does not have one.
    fn fetch_many_edges(
        &self,
        ctx: &Self::Context,
        cs_ids: &Vec<ChangesetId>,
        prefetch: Prefetch,
    ) -> (r: Result<
        Vec<Option<ChangesetEdges>>,
        CommitGraphError,
    >)
        ensures
            match r {
                Ok(found) => are_records_of(self.dag(), cs_ids@, found@),
                Err(_) => !self.infallible(),
            },
    ;

    /// The records of several changesets, place by place, all of which have
    /// to be in the graph.
    fn fetch_many_edges_required(
        &self,
        ctx: &Self::Context,
        cs_ids: &Vec<ChangesetId>,
        prefetch: Prefetch,
    ) -> (r:
        Result<Vec<ChangesetEdges>, CommitGraphError>)
        ensures
            match r {
                Ok(found) => are_required_records_of(self.dag(), cs_ids@, found@),
                Err(e) => !self.infallible() || reports_missing(self.dag(), cs_ids@, e),
            },
    ;

    /// Puts a record into the graph, unless the graph has one for the same
    /// changeset. Returns whether it did.
    fn add(
        &mut self,
        ctx: &Self::Context,
        edges: ChangesetEdges,
    ) -> (r: Result<bool, CommitGraphError>)
        ensures
            final(self).infallible() == old(self).infallible(),
            match r {
                Ok(true) => !old(self).dag().contains(edges.node.cs_id) && final(self).dag().edges
                    == old(self).dag().edges.insert(edges.node.cs_id, edges@),
                Ok(false) => old(self).dag().contains(edges.node.cs_id) && final(self).dag()
                    == old(self).dag(),
                Err(_) => final(self).dag() == old(self).dag() && (!old(self).infallible() || (old(
                    self,
                ).dag().contains(edges.node.cs_id) && old(self).dag().edges[edges.node.cs_id]
                    != edges@)),
            },
    ;

    /// The changesets of the graph whose identifiers begin with the prefix,
    /// `limit` of them at most.
    fn find_by_prefix(
        &self,
        ctx: &Self::Context,
        cs_prefix: ChangesetIdPrefix,
        limit: usize,
    ) -> (r: Result<
        ChangesetIdsResolvedFromPrefix,
        CommitGraphError,
    >)
        ensures
            match r {
                Ok(resolved) => resolves(self.dag(), cs_prefix, limit, resolved),
                Err(_) => !self.infallible(),
            },
    ;

    /// The children of a changeset: the changesets that have it as a parent.
    fn fetch_children(
        &self,
        ctx: &Self::Context,
        cs_id: ChangesetId,
    ) -> (r: Result<Vec<ChangesetId>, CommitGraphError>)
        ensures
            match r {
                Ok(children) => are_children_of(self.dag(), cs_id, children@),
                Err(_) => !self.infallible(),
            },
    ;
}

} // verus!
