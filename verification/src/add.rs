//! Adding a changeset to the graph.

use crate::dag::Dag;
use crate::graph::CommitGraph;
use crate::ids::{ChangesetEdges, ChangesetId, ChangesetNode, ChangesetParents, EdgesView, Generation};
use crate::storage::{
    are_required_records_of, is_record_of, reports_missing, CommitGraphError, CommitGraphStorage,
    Prefetch,
};
use vstd::prelude::*;

verus! {

impl Dag {
    /// The highest generation among the changesets of `ids`, and 0 where
    /// there is none.
    pub open spec fn highest_generation(self, ids: Seq<ChangesetId>) -> int
        decreases ids.len(),
    {
        if ids.len() == 0 {
            0
        } else {
            let rest = self.highest_generation(ids.drop_last());
            if self.generation(ids.last()) > rest {
                self.generation(ids.last())
            } else {
                rest
            }
        }
    }

    /// The skip pointer of a changeset whose first parent is `first`: two
    /// jumps from `first` where they are of the same length, and `first` itself
    /// where they are not or cannot be made.
    pub open spec fn skew_ancestor(self, first: ChangesetId) -> ChangesetNode {
        match self.edges[first].skip_tree_skew_ancestor {
            None => self.node(first),
            Some(near) => match self.edges[near.cs_id].skip_tree_skew_ancestor {
                None => self.node(first),
                Some(far) => if self.generation(first) - near.generation.0 == near.generation.0
                    - far.generation.0 {
                    far
                } else {
                    self.node(first)
                },
            },
        }
    }

    /// The record of a new changeset `cs_id` with the given parents.
    pub open spec fn new_record(self, cs_id: ChangesetId, parents: Seq<ChangesetId>) -> EdgesView {
        EdgesView {
            node: ChangesetNode {
                cs_id,
                generation: Generation((self.highest_generation(parents) + 1) as u64),
            },
            parents: parents.map_values(|p: ChangesetId| self.node(p)),
            skip_tree_skew_ancestor: if parents.len() == 0 {
                None
            } else {
                Some(self.skew_ancestor(parents[0]))
            },
        }
    }

    /// The graph with one more record.
    pub open spec fn with_record(self, record: EdgesView) -> Dag {
        Dag { edges: self.edges.insert(record.node.cs_id, record) }
    }

    /// The highest generation is the generation of one of the changesets and
    /// below none of them.
    pub proof fn lemma_highest_generation(self, ids: Seq<ChangesetId>)
        ensures
            forall|i: int|
                0 <= i < ids.len() ==> self.generation(#[trigger] ids[i]) <= self.highest_generation(
                    ids,
                ),
            ids.len() > 0 ==> exists|i: int|
                0 <= i < ids.len() && self.generation(#[trigger] ids[i]) == self.highest_generation(
                    ids,
                ),
            ids.len() == 0 ==> self.highest_generation(ids) == 0,
        decreases ids.len(),
    {
        if ids.len() > 0 {
            let rest = ids.drop_last();
            self.lemma_highest_generation(rest);
            assert forall|i: int| 0 <= i < ids.len() implies self.generation(#[trigger] ids[i])
                <= self.highest_generation(ids) by {
                if i < ids.len() - 1 {
                    assert(rest[i] == ids[i]);
                }
            }
            if self.generation(ids.last()) > self.highest_generation(rest) {
                assert(self.generation(ids[ids.len() - 1]) == self.highest_generation(ids));
            } else if rest.len() > 0 {
                let i = choose|i: int|
                    0 <= i < rest.len() && self.generation(#[trigger] rest[i])
                        == self.highest_generation(rest);
                assert(ids[i] == rest[i]);
            } else {
                assert(self.generation(ids[ids.len() - 1]) == self.highest_generation(ids)) by {
                    assert(self.highest_generation(rest) == 0);
                    // nothing is below generation 0
                    assert(self.generation(ids.last()) >= 0);
                }
            }
        }
    }

    /// Two first-parent lines, one after the other, are one.
    pub proof fn lemma_first_parent_lines_join(self, a: ChangesetId, b: ChangesetId, c: ChangesetId)
        requires
            self.on_first_parent_line(a, b),
            self.on_first_parent_line(b, c),
        ensures
            self.on_first_parent_line(a, c),
    {
        let upper = choose|line: Seq<ChangesetId>|
            #[trigger] self.is_first_parent_line(line) && line[0] == c && line.last() == b;
        let lower = choose|line: Seq<ChangesetId>|
            #[trigger] self.is_first_parent_line(line) && line[0] == b && line.last() == a;
        let line = upper + lower.subrange(1, lower.len() as int);
        assert(self.is_first_parent_line(line)) by {
            assert forall|i: int| 0 < i < line.len() implies self.is_first_parent(
                #[trigger] line[i],
                line[i - 1],
            ) by {
                if i < upper.len() {
                    assert(self.is_first_parent(upper[i], upper[i - 1]));
                } else {
                    let k = i - upper.len() + 1;
                    assert(self.is_first_parent(lower[k], lower[k - 1]));
                }
            }
        }
        assert(line[0] == c && line.last() == a);
    }

    /// The skip pointer chosen for a child of `first` is a changeset of the
    /// graph on the first-parent line of `first`, at the generation of `first` or
    /// below.
    pub proof fn lemma_skew_ancestor(self, first: ChangesetId)
        requires
            self.wf(),
            self.contains(first),
        ensures
            self.has_node(self.skew_ancestor(first)),
            self.skew_ancestor(first).generation.0 <= self.generation(first),
            self.on_first_parent_line(self.skew_ancestor(first).cs_id, first),
    {
        assert(self.record_wf(first));
        let stay = seq![first];
        assert(self.is_first_parent_line(stay));
        assert(stay[0] == first && stay.last() == first);
        assert(self.on_first_parent_line(first, first));
        match self.edges[first].skip_tree_skew_ancestor {
            None => {},
            Some(near) => {
                assert(self.record_wf(near.cs_id));
                match self.edges[near.cs_id].skip_tree_skew_ancestor {
                    None => {},
                    Some(far) => {
                        self.lemma_first_parent_lines_join(far.cs_id, near.cs_id, first);
                    },
                }
            },
        }
    }

    /// A graph of commits with the record of a new changeset, whose parents
    /// it has, is a graph of commits.
    #[verifier::rlimit(40)]
    pub proof fn lemma_with_new_record(self, cs_id: ChangesetId, parents: Seq<ChangesetId>)
        requires
            self.wf(),
            !self.contains(cs_id),
            forall|i: int| 0 <= i < parents.len() ==> self.contains(#[trigger] parents[i]),
            self.highest_generation(parents) < u64::MAX,
        ensures
            self.with_record(self.new_record(cs_id, parents)).wf(),
    {
        let record = self.new_record(cs_id, parents);
        let after = self.with_record(record);
        self.lemma_highest_generation(parents);
        // a first-parent line of the old graph is one of the new graph
        assert forall|a: ChangesetId, d: ChangesetId| #[trigger]
            self.on_first_parent_line(a, d) implies after.on_first_parent_line(a, d) by {
            let line = choose|line: Seq<ChangesetId>|
                #[trigger] self.is_first_parent_line(line) && line[0] == d && line.last() == a;
            assert(after.is_first_parent_line(line)) by {
                assert forall|i: int| 0 < i < line.len() implies after.is_first_parent(
                    #[trigger] line[i],
                    line[i - 1],
                ) by {
                    assert(self.is_first_parent(line[i], line[i - 1]));
                }
            }
        }
        assert forall|id: ChangesetId| after.contains(id) implies #[trigger] after.record_wf(id) by {
            if id == cs_id {
                assert(after.edges[id] == record);
                assert forall|i: int| 0 <= i < record.parents.len() implies after.has_node(
                    #[trigger] record.parents[i],
                ) && record.parents[i].generation.0 < record.node.generation.0 by {
                    assert(self.record_wf(parents[i]));
                    assert(self.generation(parents[i]) <= self.highest_generation(parents));
                }
                if parents.len() > 0 {
                    let i = choose|i: int|
                        0 <= i < parents.len() && self.generation(#[trigger] parents[i])
                            == self.highest_generation(parents);
                    assert(record.parents[i].generation.0 + 1 == record.node.generation.0);
                    let first = parents[0];
                    self.lemma_skew_ancestor(first);
                    let a = self.skew_ancestor(first);
                    assert(self.generation(first) <= self.highest_generation(parents));
                    assert(after.has_node(a));
                    assert(after.on_first_parent_line(a.cs_id, first));
                    let step = seq![cs_id, first];
                    assert(after.is_first_parent_line(step)) by {
                        assert(record.parents[0].cs_id == first) by {
                            assert(self.record_wf(first));
                        }
                        assert forall|i: int| 0 < i < step.len() implies after.is_first_parent(
                            #[trigger] step[i],
                            step[i - 1],
                        ) by {
                            assert(i == 1);
                        }
                    }
                    assert(step[0] == cs_id && step.last() == first);
                    assert(after.on_first_parent_line(first, cs_id));
                    after.lemma_first_parent_lines_join(a.cs_id, first, cs_id);
                }
            } else {
                assert(self.record_wf(id));
                assert(after.edges[id] == self.edges[id]);
                let e = self.edges[id];
                assert forall|i: int| 0 <= i < e.parents.len() implies after.has_node(
                    #[trigger] e.parents[i],
                ) by {
                    assert(self.has_node(e.parents[i]));
                }
                if e.parents.len() > 0 {
                    let i = choose|i: int|
                        0 <= i < e.parents.len() && (#[trigger] e.parents[i]).generation.0 + 1
                            == e.node.generation.0;
                }
            }
        }
    }
}

impl<S: CommitGraphStorage> CommitGraph<S> {
    /// The record of a new changeset, from the records of its parents.
    pub fn build_edges(
        &self,
        ctx: &S::Context,
        cs_id: ChangesetId,
        parents: &ChangesetParents,
        parent_edges: &Vec<ChangesetEdges>,
    ) -> (r: Result<ChangesetEdges, CommitGraphError>)
        requires
            self.wf(),
            are_required_records_of(self.dag(), parents@, parent_edges@),
        ensures
            match r {
                Ok(edges) => self.dag().highest_generation(parents@) < u64::MAX && edges@
                    == self.dag().new_record(cs_id, parents@),
                Err(e) => !self.infallible() || (e == CommitGraphError::GenerationOverflow(cs_id)
                    && self.dag().highest_generation(parents@) == u64::MAX),
            },
    {
        let ghost dag = self.dag();
        let mut max_parent_gen: u64 = 0;
        let mut edge_parents: Vec<ChangesetNode> = Vec::new();
        let mut i: usize = 0;
        proof {
            assert(parents@.subrange(0, 0) =~= Seq::<ChangesetId>::empty());
        }
        while i < parent_edges.len()
            invariant
                i <= parent_edges.len(),
                are_required_records_of(dag, parents@, parent_edges@),
                max_parent_gen == dag.highest_generation(parents@.subrange(0, i as int)),
                edge_parents@ == parents@.subrange(0, i as int).map_values(
                    |p: ChangesetId| dag.node(p),
                ),
            decreases parent_edges.len() - i,
        {
            let node = parent_edges[i].node;
            proof {
                assert(is_record_of(dag, parents@[i as int], Some(parent_edges@[i as int])));
                let longer = parents@.subrange(0, i + 1);
                assert(longer.drop_last() =~= parents@.subrange(0, i as int));
                assert(longer.last() == parents@[i as int]);
            }
            if node.generation.0 > max_parent_gen {
                max_parent_gen = node.generation.0;
            }
            edge_parents.push(node);
            i += 1;
            proof {
                assert(edge_parents@ =~= parents@.subrange(0, i as int).map_values(
                    |p: ChangesetId| dag.node(p),
                ));
            }
        }
        proof {
            assert(parents@.subrange(0, i as int) =~= parents@);
        }
        if max_parent_gen == u64::MAX {
            return Err(CommitGraphError::GenerationOverflow(cs_id));
        }
        let node = ChangesetNode { cs_id, generation: Generation(max_parent_gen + 1) };
        let skip_tree_skew_ancestor = if parent_edges.len() == 0 {
            None
        } else {
            let first = &parent_edges[0];
            proof {
                assert(is_record_of(dag, parents@[0], Some(parent_edges@[0])));
                assert(dag.record_wf(parents@[0]));
            }
            match first.skip_tree_skew_ancestor {
                None => Some(first.node),
                Some(near) => {
                    let near_edges = match self.storage.fetch_edges_required(ctx, near.cs_id) {
                        Ok(edges) => edges,
                        Err(e) => {
                            return Err(e);
                        },
                    };
                    proof {
                        assert(dag.record_wf(near.cs_id));
                    }
                    match near_edges.skip_tree_skew_ancestor {
                        None => Some(first.node),
                        Some(far) => {
                            if first.node.generation.0 - near.generation.0 == near.generation.0
                                - far.generation.0 {
                                Some(far)
                            } else {
                                Some(first.node)
                            }
                        },
                    }
                },
            }
        };
        Ok(ChangesetEdges { node, parents: edge_parents, skip_tree_skew_ancestor })
    }

    /// Adds a changeset with the given parents to the graph. Returns whether
    /// it did: `false` where the graph has the changeset already.
    pub fn add(
        &mut self,
        ctx: &S::Context,
        cs_id: ChangesetId,
        parents: ChangesetParents,
    ) -> (r: Result<
        bool,
        CommitGraphError,
    >)
        requires
            old(self).wf(),
        ensures
            final(self).wf(),
            final(self).infallible() == old(self).infallible(),
            match r {
                Ok(added) => {
                    &&& forall|i: int|
                        0 <= i < parents.len() ==> old(self).dag().contains(#[trigger] parents[i])
                    &&& added == !old(self).dag().contains(cs_id)
                    &&& added ==> final(self).dag() == old(self).dag().with_record(
                        old(self).dag().new_record(cs_id, parents@),
                    )
                    &&& !added ==> final(self).dag() == old(self).dag()
                },
                Err(e) => {
                    &&& final(self).dag() == old(self).dag()
                    &&& {
                        ||| !old(self).infallible()
                        ||| reports_missing(old(self).dag(), parents@, e)
                        ||| (e == CommitGraphError::GenerationOverflow(cs_id) && old(
                            self,
                        ).dag().highest_generation(parents@) == u64::MAX)
                        ||| (old(self).dag().contains(cs_id) && old(self).dag().edges[cs_id] != old(
                            self,
                        ).dag().new_record(cs_id, parents@))
                    }
                },
            },
    {
        let ghost dag = self.dag();
        let parent_edges = self.storage.fetch_many_edges_required(ctx, &parents, Prefetch::NoHint)?;
        let edges = self.build_edges(ctx, cs_id, &parents, &parent_edges)?;
        proof {
            assert forall|i: int| 0 <= i < parents.len() implies dag.contains(
                #[trigger] parents[i],
            ) by {
                assert(is_record_of(dag, parents@[i], Some(parent_edges@[i])));
            }
            if !dag.contains(cs_id) {
                dag.lemma_with_new_record(cs_id, parents@);
            }
        }
        let added = self.storage.add(ctx, edges);
        proof {
            if added == Ok::<bool, CommitGraphError>(true) {
                assert(self.dag() == dag.with_record(dag.new_record(cs_id, parents@)));
            }
        }
        added
    }
}

} // verus!
