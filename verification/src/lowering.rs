//! Building frontiers from the graph, and lowering them: replacing the
//! changesets of a frontier by their parents, from the highest generation down.

use crate::dag::Dag;
use crate::frontier::{height, is_bucket, is_highest, lemma_height, lemma_height_bounded, ChangesetFrontier};
use crate::graph::CommitGraph;
use crate::ids::{ChangesetEdges, ChangesetId, ChangesetNode, Generation};
use crate::storage::{are_required_records_of, is_record_of, CommitGraphError, CommitGraphStorage, Prefetch};
use vstd::prelude::*;

verus! {

/// The nodes that the records name as parents.
pub open spec fn all_parents(records: Seq<ChangesetEdges>) -> Set<ChangesetNode> {
    Set::new(
        |n: ChangesetNode|
            exists|k: int| 0 <= k < records.len() && (#[trigger] records[k]).parents@.contains(n),
    )
}

/// The nodes that the records that were found name as parents.
pub open spec fn found_parents(found: Seq<Option<ChangesetEdges>>) -> Set<ChangesetNode> {
    Set::new(
        |n: ChangesetNode|
            exists|k: int|
                0 <= k < found.len() && (#[trigger] found[k]) is Some
                    && found[k]->0.parents@.contains(n),
    )
}

/// The members of a prefix that is longer by one are those of the prefix
/// and the one.
pub proof fn lemma_prefix_to_set<T>(s: Seq<T>, j: int)
    requires
        0 <= j < s.len(),
    ensures
        s.subrange(0, j + 1).to_set() == s.subrange(0, j).to_set().insert(s[j]),
{
    let longer = s.subrange(0, j + 1);
    let shorter = s.subrange(0, j);
    assert forall|x: T| longer.to_set().contains(x) implies shorter.to_set().insert(s[j]).contains(
        x,
    ) by {
        let k = choose|k: int| 0 <= k < longer.len() && longer[k] == x;
        if k < j {
            assert(shorter[k] == x);
        }
    }
    assert forall|x: T| shorter.to_set().insert(s[j]).contains(x) implies longer.to_set().contains(
        x,
    ) by {
        if x == s[j] {
            assert(longer[j] == x);
        } else {
            let k = choose|k: int| 0 <= k < shorter.len() && shorter[k] == x;
            assert(longer[k] == x);
        }
    }
    assert(longer.to_set() =~= shorter.to_set().insert(s[j]));
}

proof fn lemma_all_parents_prefix(records: Seq<ChangesetEdges>, i: int)
    requires
        0 <= i < records.len(),
    ensures
        all_parents(records.subrange(0, i + 1)) == all_parents(records.subrange(0, i)).union(
            records[i].parents@.to_set(),
        ),
{
    let longer = records.subrange(0, i + 1);
    let shorter = records.subrange(0, i);
    let both = all_parents(shorter).union(records[i].parents@.to_set());
    assert forall|n: ChangesetNode| all_parents(longer).contains(n) implies both.contains(n) by {
        let k = choose|k: int| 0 <= k < longer.len() && (#[trigger] longer[k]).parents@.contains(n);
        if k < i {
            assert(shorter[k].parents@.contains(n));
        }
    }
    assert forall|n: ChangesetNode| both.contains(n) implies all_parents(longer).contains(n) by {
        if all_parents(shorter).contains(n) {
            let k = choose|k: int|
                0 <= k < shorter.len() && (#[trigger] shorter[k]).parents@.contains(n);
            assert(longer[k].parents@.contains(n));
        } else {
            assert(longer[i].parents@.contains(n));
        }
    }
    assert(all_parents(longer) =~= both);
}

/// Puts the parents named by a record into the frontier.
pub fn insert_parents(frontier: &mut ChangesetFrontier, edges: &ChangesetEdges)
    ensures
        final(frontier)@ == old(frontier)@.union(edges.parents@.to_set()),
{
    let ghost start = frontier@;
    let mut j: usize = 0;
    assert(edges.parents@.subrange(0, 0).to_set() =~= Set::<ChangesetNode>::empty());
    assert(start.union(Set::<ChangesetNode>::empty()) =~= start);
    while j < edges.parents.len()
        invariant
            j <= edges.parents.len(),
            frontier@ == start.union(edges.parents@.subrange(0, j as int).to_set()),
        decreases edges.parents.len() - j,
    {
        let parent = edges.parents[j];
        frontier.insert(parent.cs_id, parent.generation);
        proof {
            lemma_prefix_to_set(edges.parents@, j as int);
            assert(frontier@ =~= start.union(edges.parents@.subrange(0, j + 1).to_set()));
        }
        j += 1;
    }
    assert(edges.parents@.subrange(0, j as int) =~= edges.parents@);
}

/// Puts the parents named by the records into the frontier.
pub fn insert_all_parents(frontier: &mut ChangesetFrontier, records: &Vec<ChangesetEdges>)
    ensures
        final(frontier)@ == old(frontier)@.union(all_parents(records@)),
{
    let ghost start = frontier@;
    let mut i: usize = 0;
    assert(start.union(all_parents(records@.subrange(0, 0))) =~= start);
    while i < records.len()
        invariant
            i <= records.len(),
            frontier@ == start.union(all_parents(records@.subrange(0, i as int))),
        decreases records.len() - i,
    {
        insert_parents(frontier, &records[i]);
        proof {
            lemma_all_parents_prefix(records@, i as int);
            assert(frontier@ =~= start.union(all_parents(records@.subrange(0, i + 1))));
        }
        i += 1;
    }
    assert(records@.subrange(0, i as int) =~= records@);
}

/// Puts the parents named by the records that were found into the frontier.
pub fn insert_found_parents(frontier: &mut ChangesetFrontier, found: &Vec<Option<ChangesetEdges>>)
    ensures
        final(frontier)@ == old(frontier)@.union(found_parents(found@)),
{
    let ghost start = frontier@;
    let mut i: usize = 0;
    assert(start.union(found_parents(found@.subrange(0, 0))) =~= start);
    while i < found.len()
        invariant
            i <= found.len(),
            frontier@ == start.union(found_parents(found@.subrange(0, i as int))),
        decreases found.len() - i,
    {
        let ghost current = frontier@;
        match &found[i] {
            Some(edges) => {
                insert_parents(frontier, edges);
            },
            None => {},
        }
        proof {
            let longer = found@.subrange(0, i + 1);
            let shorter = found@.subrange(0, i as int);
            let extra = if found@[i as int] is Some {
                found@[i as int]->0.parents@.to_set()
            } else {
                Set::<ChangesetNode>::empty()
            };
            assert(frontier@ =~= current.union(extra));
            assert forall|n: ChangesetNode| found_parents(longer).contains(n) implies found_parents(
                shorter,
            ).union(extra).contains(n) by {
                let k = choose|k: int|
                    0 <= k < longer.len() && (#[trigger] longer[k]) is Some
                        && longer[k]->0.parents@.contains(n);
                if k < i {
                    assert(shorter[k] is Some && shorter[k]->0.parents@.contains(n));
                }
            }
            assert forall|n: ChangesetNode| found_parents(shorter).union(extra).contains(
                n,
            ) implies found_parents(longer).contains(n) by {
                if found_parents(shorter).contains(n) {
                    let k = choose|k: int|
                        0 <= k < shorter.len() && (#[trigger] shorter[k]) is Some
                            && shorter[k]->0.parents@.contains(n);
                    assert(longer[k] is Some && longer[k]->0.parents@.contains(n));
                } else {
                    assert(longer[i as int] is Some && longer[i as int]->0.parents@.contains(n));
                }
            }
            assert(found_parents(longer) =~= found_parents(shorter).union(extra));
            assert(frontier@ =~= start.union(found_parents(longer)));
        }
        i += 1;
    }
    assert(found@.subrange(0, i as int) =~= found@);
}

/// Replacing the highest generation of a frontier by the parents that its
/// records name lowers the frontier by one wave.
pub proof fn lemma_wave(
    dag: Dag,
    f: Set<ChangesetNode>,
    g: Generation,
    ids: Seq<ChangesetId>,
    records: Seq<ChangesetEdges>,
    after: Set<ChangesetNode>,
)
    requires
        dag.wf(),
        dag.has_nodes(f),
        is_highest(f, g.0),
        is_bucket(f, g, ids),
        are_required_records_of(dag, ids, records),
        after == f.filter(|n: ChangesetNode| n.generation != g).union(all_parents(records)),
    ensures
        after == dag.lowered(f, g.0 - 1),
        dag.has_nodes(after),
        height(after) < g.0,
        height(f) == g.0,
{
    let top = g.0 as int;
    assert forall|n: ChangesetNode|
        after.contains(n) <==> (f.contains(n) && n.generation.0 < top) || (dag.has_node(n)
            && exists|b: ChangesetNode|
            f.contains(b) && b.generation.0 == top && dag.is_parent(n.cs_id, #[trigger] b.cs_id)) by {
        if after.contains(n) && !(f.contains(n) && n.generation.0 < top) {
            let k = choose|k: int|
                0 <= k < records.len() && (#[trigger] records[k]).parents@.contains(n);
            let m = choose|m: int| 0 <= m < records[k].parents@.len() && records[k].parents@[m] == n;
            let b = ChangesetNode { cs_id: ids[k], generation: g };
            assert(ids.contains(ids[k]));
            assert(f.contains(b));
            assert(is_record_of(dag, ids[k], Some(records[k])));
            assert(dag.record_wf(ids[k]));
            assert(dag.parents(ids[k])[m] == n);
            assert(dag.has_node(dag.parents(ids[k])[m]));
            assert(dag.is_parent(n.cs_id, b.cs_id));
        }
        if dag.has_node(n) && exists|b: ChangesetNode|
            f.contains(b) && b.generation.0 == top && dag.is_parent(n.cs_id, #[trigger] b.cs_id) {
            let b = choose|b: ChangesetNode|
                f.contains(b) && b.generation.0 == top && dag.is_parent(n.cs_id, #[trigger] b.cs_id);
            assert(b == ChangesetNode { cs_id: b.cs_id, generation: g });
            assert(ids.contains(b.cs_id));
            let k = choose|k: int| 0 <= k < ids.len() && ids[k] == b.cs_id;
            assert(is_record_of(dag, ids[k], Some(records[k])));
            let m = choose|m: int|
                0 <= m < dag.parents(b.cs_id).len() && (#[trigger] dag.parents(b.cs_id)[m]).cs_id
                    == n.cs_id;
            assert(dag.record_wf(b.cs_id));
            assert(dag.has_node(dag.parents(b.cs_id)[m]));
            assert(records[k].parents@[m] == n);
            assert(records[k].parents@.contains(n));
            assert(all_parents(records).contains(n));
        }
    }
    dag.lemma_lowered_wave(f, top, after);
    dag.lemma_lowered_has_nodes(f, top - 1);
    let some = choose|n: ChangesetNode| f.contains(n) && #[trigger] n.generation.0 == g.0;
    assert(dag.has_node(some));
    dag.lemma_generation_positive(some.cs_id);
    lemma_height_bounded(after, top - 1);
    lemma_height(f, g.0);
}

impl<S: CommitGraphStorage> CommitGraph<S> {
    /// The frontier of one changeset, which has to be in the graph.
    pub fn single_frontier(&self, ctx: &S::Context, cs_id: ChangesetId) -> (r: Result<
        ChangesetFrontier,
        CommitGraphError,
    >)
        ensures
            match r {
                Ok(frontier) => self.dag().contains(cs_id) && frontier@ == Set::<
                    ChangesetNode,
                >::empty().insert(
                    ChangesetNode { cs_id, generation: self.dag().node(cs_id).generation },
                ),
                Err(e) => !self.infallible() || (e == CommitGraphError::MissingChangeset(cs_id)
                    && !self.dag().contains(cs_id)),
            },
    {
        let generation = self.changeset_generation_required(ctx, cs_id)?;
        Ok(ChangesetFrontier::new_single(cs_id, generation))
    }

    /// The frontier of several changesets, all of which have to be in the graph.
    pub fn frontier(&self, ctx: &S::Context, cs_ids: &Vec<ChangesetId>) -> (r: Result<
        ChangesetFrontier,
        CommitGraphError,
    >)
        requires
            self.wf(),
        ensures
            match r {
                Ok(frontier) => {
                    &&& forall|i: int| 0 <= i < cs_ids.len() ==> self.dag().contains(cs_ids[i])
                    &&& frontier@ == self.dag().nodes_of(cs_ids@)
                },
                Err(e) => !self.infallible() || crate::storage::reports_missing(
                    self.dag(),
                    cs_ids@,
                    e,
                ),
            },
    {
        let records = self.storage.fetch_many_edges_required(ctx, cs_ids, Prefetch::NoHint)?;
        let mut frontier = ChangesetFrontier::new();
        let mut i: usize = 0;
        assert(frontier@ =~= self.dag().nodes_of(cs_ids@.subrange(0, 0)));
        while i < records.len()
            invariant
                i <= records.len(),
                self.wf(),
                are_required_records_of(self.dag(), cs_ids@, records@),
                frontier@ == self.dag().nodes_of(cs_ids@.subrange(0, i as int)),
            decreases records.len() - i,
        {
            let node = records[i].node;
            frontier.insert(node.cs_id, node.generation);
            proof {
                let dag = self.dag();
                assert(is_record_of(dag, cs_ids@[i as int], Some(records@[i as int])));
                assert(dag.record_wf(cs_ids@[i as int]));
                assert(node == dag.node(cs_ids@[i as int]));
                let shorter = cs_ids@.subrange(0, i as int);
                let longer = cs_ids@.subrange(0, i + 1);
                assert forall|n: ChangesetNode| frontier@.contains(n) implies dag.nodes_of(
                    longer,
                ).contains(n) by {
                    if n == node {
                        assert(longer[i as int] == n.cs_id);
                    } else {
                        let k = choose|k: int| 0 <= k < shorter.len() && shorter[k] == n.cs_id;
                        assert(longer[k] == n.cs_id);
                    }
                }
                assert forall|n: ChangesetNode| dag.nodes_of(longer).contains(
                    n,
                ) implies frontier@.contains(n) by {
                    let k = choose|k: int| 0 <= k < longer.len() && longer[k] == n.cs_id;
                    if k < i {
                        assert(shorter[k] == n.cs_id);
                    }
                }
                assert(frontier@ =~= dag.nodes_of(longer));
            }
            i += 1;
        }
        assert(cs_ids@.subrange(0, i as int) =~= cs_ids@);
        assert forall|i: int| 0 <= i < cs_ids.len() implies self.dag().contains(cs_ids[i]) by {
            assert(is_record_of(self.dag(), cs_ids@[i], Some(records@[i])));
        }
        Ok(frontier)
    }

    /// Replaces the changesets at the highest generation of the frontier by
    /// their parents.
    pub fn lower_frontier_highest_generation(
        &self,
        ctx: &S::Context,
        frontier: &mut ChangesetFrontier,
    ) -> (r: Result<
        (),
        CommitGraphError,
    >)
        requires
            self.wf(),
            self.dag().has_nodes(old(frontier)@),
        ensures
            match r {
                Ok(_) => {
                    &&& old(frontier)@ == Set::<ChangesetNode>::empty() ==> final(frontier)@ == old(
                        frontier,
                    )@
                    &&& old(frontier)@ != Set::<ChangesetNode>::empty() ==> final(frontier)@
                        == self.dag().lowered(old(frontier)@, height(old(frontier)@) - 1)
                        && height(final(frontier)@) < height(old(frontier)@)
                },
                Err(_) => !self.infallible(),
            },
            self.dag().has_nodes(final(frontier)@),
    {
        let ghost before = frontier@;
        match frontier.pop_last() {
            None => Ok(()),
            Some((g, cs_ids)) => {
                let fetched = self.storage.fetch_many_edges_required(ctx, 
                    &cs_ids,
                    Prefetch::for_p1_linear_traversal(),
                );
                proof {
                    assert forall|i: int| 0 <= i < cs_ids.len() implies self.dag().contains(
                        #[trigger] cs_ids@[i],
                    ) by {
                        assert(cs_ids@.contains(cs_ids@[i]));
                        assert(self.dag().has_node(
                            ChangesetNode { cs_id: cs_ids@[i], generation: g },
                        ));
                    }
                    let some = choose|n: ChangesetNode|
                        before.contains(n) && #[trigger] n.generation.0 == g.0;
                    assert(before.contains(some));
                }
                match fetched {
                    Ok(records) => {
                        insert_all_parents(frontier, &records);
                        proof {
                            lemma_wave(self.dag(), before, g, cs_ids@, records@, frontier@);
                        }
                        Ok(())
                    },
                    Err(e) => Err(e),
                }
            },
        }
    }

    /// Lowers the frontier to `target`: replaces changesets by their parents
    /// until none is above `target`.
    pub fn lower_frontier(
        &self,
        ctx: &S::Context,
        frontier: &mut ChangesetFrontier,
        target: Generation,
    ) -> (r: Result<
        (),
        CommitGraphError,
    >)
        requires
            self.wf(),
            self.dag().has_nodes(old(frontier)@),
        ensures
            match r {
                Ok(_) => final(frontier)@ == self.dag().lowered(old(frontier)@, target.0 as int),
                Err(_) => !self.infallible(),
            },
            self.dag().has_nodes(final(frontier)@),
    {
        let ghost before = frontier@;
        loop
            invariant
                self.wf(),
                before == old(frontier)@,
                self.dag().has_nodes(frontier@),
                self.dag().has_nodes(before),
                self.dag().lowered(frontier@, target.0 as int) == self.dag().lowered(
                    before,
                    target.0 as int,
                ),
            decreases height(frontier@),
        {
            match frontier.highest_generation() {
                None => {
                    proof {
                        self.dag().lemma_lowered_unchanged(frontier@, target.0 as int);
                    }
                    return Ok(());
                },
                Some(g) => {
                    if g.0 <= target.0 {
                        proof {
                            self.dag().lemma_lowered_unchanged(frontier@, target.0 as int);
                        }
                        return Ok(());
                    }
                    let ghost current = frontier@;
                    proof {
                        lemma_height(current, g.0);
                        assert(current != Set::<ChangesetNode>::empty()) by {
                            let some = choose|n: ChangesetNode|
                                current.contains(n) && #[trigger] n.generation.0 == g.0;
                            assert(current.contains(some));
                        }
                    }
                    match self.lower_frontier_highest_generation(ctx, frontier) {
                        Ok(_) => {
                            proof {
                                self.dag().lemma_lowered_twice(current, g.0 - 1, target.0 as int);
                            }
                        },
                        Err(e) => {
                            return Err(e);
                        },
                    }
                },
            }
        }
    }
}

} // verus!
