//! The range between two changesets: the changesets that are descendants of
//! the one and ancestors of the other, from the lowest generation up.

use crate::dag::Dag;
use crate::frontier::{
    ascending, floor, height, is_bucket, is_highest, is_lowest, lemma_floor, lemma_floor_bounded,
    lemma_height, ChangesetFrontier,
};
use crate::graph::CommitGraph;
use crate::ids::{ChangesetEdges, ChangesetId, ChangesetNode, Generation};
use crate::lowering::{insert_all_parents, lemma_wave};
use crate::storage::{are_required_records_of, is_record_of, CommitGraphError, CommitGraphStorage, Prefetch};
use vstd::prelude::*;

verus! {

/// An edge of the graph, seen from the parent: `child` has `parent` as a parent.
#[derive(Clone, Copy, PartialEq, Eq, Structural, Debug)]
pub struct ChildEdge {
    pub parent: ChangesetId,
    pub child: ChangesetNode,
}

/// `record` names the edge `e` among its first `upto` parents: it is the
/// record of the child, and the parent is one of them.
pub open spec fn names_edge_within(record: ChangesetEdges, upto: int, e: ChildEdge) -> bool {
    record.node == e.child && exists|m: int|
        0 <= m < upto && (#[trigger] record.parents@[m]).cs_id == e.parent
}

/// `record` names the edge `e`: it is the record of the child, and the parent
/// is among its parents.
pub open spec fn names_edge(record: ChangesetEdges, e: ChildEdge) -> bool {
    names_edge_within(record, record.parents@.len() as int, e)
}

/// The edges that the records name.
pub open spec fn child_edges(records: Seq<ChangesetEdges>) -> Set<ChildEdge> {
    Set::new(
        |e: ChildEdge| exists|k: int| 0 <= k < records.len() && names_edge(#[trigger] records[k], e),
    )
}

/// The children that `edges` give to the changesets of `ids`.
pub open spec fn children_of(edges: Seq<ChildEdge>, ids: Seq<ChangesetId>) -> Set<ChangesetNode> {
    Set::new(
        |n: ChangesetNode|
            exists|k: int|
                0 <= k < edges.len() && (#[trigger] edges[k]).child == n && ids.contains(
                    edges[k].parent,
                ),
    )
}

/// `e` is an edge of the graph below `end` whose child lies above `floor`.
pub open spec fn is_range_edge(dag: Dag, end: ChangesetId, floor: int, e: ChildEdge) -> bool {
    &&& dag.has_node(e.child)
    &&& dag.is_ancestor(e.child.cs_id, end)
    &&& e.child.generation.0 > floor
    &&& dag.is_parent(e.parent, e.child.cs_id)
}

/// `x` is an ancestor of `end` and a descendant of a node of `f`.
pub open spec fn stands_between(dag: Dag, f: Set<ChangesetNode>, end: ChangesetId, x: ChangesetId) -> bool {
    dag.is_ancestor(x, end) && dag.rises_to(f, x)
}

/// The generations do not fall along `ids`.
pub open spec fn ascending_generations(dag: Dag, ids: Seq<ChangesetId>) -> bool {
    forall|i: int, j: int|
        0 <= i < j < ids.len() ==> dag.generation(ids[i]) <= dag.generation(ids[j])
}

/// Whether `id` is among `ids`.
pub fn contains_id(ids: &Vec<ChangesetId>, id: ChangesetId) -> (r: bool)
    ensures
        r == ids@.contains(id),
{
    let mut i: usize = 0;
    while i < ids.len()
        invariant
            i <= ids.len(),
            forall|k: int| 0 <= k < i ==> ids[k] != id,
        decreases ids.len() - i,
    {
        if ids[i] == id {
            return true;
        }
        i += 1;
    }
    false
}

/// Adds to `children` the edges that the records name.
fn record_children(children: &mut Vec<ChildEdge>, records: &Vec<ChangesetEdges>)
    ensures
        final(children)@.to_set() == old(children)@.to_set().union(child_edges(records@)),
{
    let ghost start = children@.to_set();
    let mut k: usize = 0;
    assert(start.union(child_edges(records@.subrange(0, 0))) =~= start);
    while k < records.len()
        invariant
            k <= records.len(),
            children@.to_set() == start.union(child_edges(records@.subrange(0, k as int))),
        decreases records.len() - k,
    {
        let record = &records[k];
        let ghost before = children@.to_set();
        let mut m: usize = 0;
        while m < record.parents.len()
            invariant
                m <= record.parents.len(),
                k < records.len(),
                record == &records[k as int],
                forall|e: ChildEdge|
                    #[trigger] children@.to_set().contains(e) <==> before.contains(e) || names_edge_within(
                        *record,
                        m as int,
                        e,
                    ),
            decreases record.parents.len() - m,
        {
            let ghost prior = children@;
            let edge = ChildEdge { parent: record.parents[m].cs_id, child: record.node };
            children.push(edge);
            proof {
                assert forall|e: ChildEdge|
                    #[trigger] children@.to_set().contains(e) <==> before.contains(e) || names_edge_within(
                        *record,
                        m + 1,
                        e,
                    ) by {
                    assert(prior.to_set().contains(e) <==> before.contains(e) || names_edge_within(
                        *record,
                        m as int,
                        e,
                    ));
                    if children@.contains(e) {
                        let i = choose|i: int| 0 <= i < children@.len() && children@[i] == e;
                        if i < prior.len() {
                            assert(prior.contains(e));
                            if names_edge_within(*record, m as int, e) {
                                let j = choose|j: int|
                                    0 <= j < m && (#[trigger] record.parents@[j]).cs_id == e.parent;
                                assert(names_edge_within(*record, m + 1, e));
                            }
                        } else {
                            assert(record.parents@[m as int].cs_id == e.parent);
                            assert(names_edge_within(*record, m + 1, e));
                        }
                    }
                    if prior.contains(e) {
                        let i = choose|i: int| 0 <= i < prior.len() && prior[i] == e;
                        assert(children@[i] == e);
                    }
                    if names_edge_within(*record, m + 1, e) {
                        let j = choose|j: int|
                            0 <= j < m + 1 && (#[trigger] record.parents@[j]).cs_id == e.parent;
                        if j == m {
                            assert(children@[children@.len() - 1] == e);
                        } else {
                            assert(names_edge_within(*record, m as int, e));
                        }
                    }
                }
            }
            m += 1;
        }
        proof {
            let longer = records@.subrange(0, k + 1);
            let shorter = records@.subrange(0, k as int);
            assert forall|e: ChildEdge|
                #[trigger] children@.to_set().contains(e) <==> start.union(child_edges(longer)).contains(
                    e,
                ) by {
                assert(before.contains(e) <==> start.union(child_edges(shorter)).contains(e));
                if child_edges(longer).contains(e) {
                    let i = choose|i: int| 0 <= i < longer.len() && names_edge(#[trigger] longer[i], e);
                    if i < k {
                        assert(names_edge(shorter[i], e));
                    }
                }
                if child_edges(shorter).contains(e) {
                    let i = choose|i: int|
                        0 <= i < shorter.len() && names_edge(#[trigger] shorter[i], e);
                    assert(names_edge(longer[i], e));
                }
                if names_edge_within(*record, m as int, e) {
                    assert(names_edge(longer[k as int], e));
                }
            }
            assert(children@.to_set() =~= start.union(child_edges(longer)));
        }
        k += 1;
    }
    assert(records@.subrange(0, k as int) =~= records@);
}

/// The changesets between a start and an end, as they come out: chunk by
/// chunk, from the lowest generation up.
pub struct RangeStream {
    /// The edges found on the way down from the end, seen from the parents.
    pub children: Vec<ChildEdge>,
    /// What is still to be walked on the way up from the start.
    pub upwards_frontier: ChangesetFrontier,
    /// The graph that was walked.
    pub dag: Ghost<Dag>,
    /// The end of the range.
    pub end: Ghost<ChangesetId>,
    /// The generation of the start of the range.
    pub start_generation: Ghost<int>,
}

impl RangeStream {
    /// The frontier lies in the graph between the start's generation and the
    /// end, and the edges are those of the graph below the end and above the
    /// start's generation.
    pub open spec fn wf(&self) -> bool {
        &&& self.dag@.wf()
        &&& forall|n: ChangesetNode|
            self.upwards_frontier@.contains(n) ==> self.dag@.has_node(n) && self.dag@.is_ancestor(
                n.cs_id,
                self.end@,
            ) && n.generation.0 >= self.start_generation@
        &&& forall|e: ChildEdge|
            self.children@.contains(e) <==> is_range_edge(
                self.dag@,
                self.end@,
                self.start_generation@,
                e,
            )
    }

    /// The changesets that the stream has still to give.
    pub open spec fn remaining(&self) -> Set<ChangesetId> {
        Set::new(
            |x: ChangesetId| stands_between(self.dag@, self.upwards_frontier@, self.end@, x),
        )
    }

    /// The number of chunks that the stream can still give, at most.
    pub open spec fn chunks_left(&self) -> int {
        if self.upwards_frontier@ == Set::<ChangesetNode>::empty() {
            0
        } else {
            self.dag@.generation(self.end@) + 1 - floor(self.upwards_frontier@)
        }
    }

    /// The next chunk of the stream: what remains at the lowest generation
    /// still to be walked, in ascending order; `None` when the walk is over.
    #[verifier::rlimit(40)]
    pub fn next_chunk(&mut self) -> (r: Option<Vec<ChangesetId>>)
        requires
            old(self).wf(),
        ensures
            final(self).wf(),
            final(self).dag == old(self).dag,
            final(self).end == old(self).end,
            final(self).start_generation == old(self).start_generation,
            match r {
                Some(chunk) => {
                    &&& ascending(chunk@)
                    &&& forall|id: ChangesetId|
                        chunk@.contains(id) <==> old(self).remaining().contains(id) && old(
                            self,
                        ).dag@.generation(id) == floor(old(self).upwards_frontier@)
                    &&& forall|x: ChangesetId|
                        old(self).remaining().contains(x) ==> old(self).dag@.generation(x)
                            >= floor(old(self).upwards_frontier@)
                    &&& final(self).remaining() == old(self).remaining().difference(
                        chunk@.to_set(),
                    )
                    &&& 0 <= final(self).chunks_left() < old(self).chunks_left()
                },
                None => {
                    &&& old(self).remaining() == Set::<ChangesetId>::empty()
                    &&& final(self).remaining() == Set::<ChangesetId>::empty()
                },
            },
    {
        let ghost dag = self.dag@;
        let ghost before = self.upwards_frontier@;
        match self.upwards_frontier.pop_first() {
            None => {
                proof {
                    assert forall|x: ChangesetId| !self.remaining().contains(x) by {
                        if dag.rises_to(before, x) {
                            let n = choose|n: ChangesetNode|
                                before.contains(n) && dag.is_ancestor(#[trigger] n.cs_id, x);
                        }
                    }
                    assert(self.remaining() =~= Set::<ChangesetId>::empty());
                }
                None
            },
            Some((g, cs_ids)) => {
                let ghost rest = self.upwards_frontier@;
                let mut k: usize = 0;
                assert(rest.union(children_of(self.children@.subrange(0, 0), cs_ids@)) =~= rest);
                while k < self.children.len()
                    invariant
                        k <= self.children.len(),
                        self.children == old(self).children,
                        self.dag == old(self).dag,
                        self.end == old(self).end,
                        self.start_generation == old(self).start_generation,
                        self.upwards_frontier@ == rest.union(
                            children_of(self.children@.subrange(0, k as int), cs_ids@),
                        ),
                    decreases self.children.len() - k,
                {
                    let edge = self.children[k];
                    let ghost current = self.upwards_frontier@;
                    let takes = contains_id(&cs_ids, edge.parent);
                    if takes {
                        self.upwards_frontier.insert(edge.child.cs_id, edge.child.generation);
                    }
                    proof {
                        let shorter = self.children@.subrange(0, k as int);
                        let longer = self.children@.subrange(0, k + 1);
                        let extra = if takes {
                            Set::<ChangesetNode>::empty().insert(edge.child)
                        } else {
                            Set::<ChangesetNode>::empty()
                        };
                        assert(self.upwards_frontier@ =~= current.union(extra));
                        assert forall|n: ChangesetNode|
                            children_of(longer, cs_ids@).contains(n) <==> children_of(
                                shorter,
                                cs_ids@,
                            ).union(extra).contains(n) by {
                            if children_of(longer, cs_ids@).contains(n) {
                                let i = choose|i: int|
                                    0 <= i < longer.len() && (#[trigger] longer[i]).child == n
                                        && cs_ids@.contains(longer[i].parent);
                                if i < k {
                                    assert(shorter[i].child == n);
                                }
                            }
                            if children_of(shorter, cs_ids@).contains(n) {
                                let i = choose|i: int|
                                    0 <= i < shorter.len() && (#[trigger] shorter[i]).child == n
                                        && cs_ids@.contains(shorter[i].parent);
                                assert(longer[i].child == n);
                            }
                            if extra.contains(n) {
                                assert(longer[k as int].child == n);
                            }
                        }
                        assert(children_of(longer, cs_ids@) =~= children_of(
                            shorter,
                            cs_ids@,
                        ).union(extra));
                        assert(self.upwards_frontier@ =~= rest.union(
                            children_of(longer, cs_ids@),
                        ));
                    }
                    k += 1;
                }
                proof {
                    assert(self.children@.subrange(0, k as int) =~= self.children@);
                    lemma_range_step(
                        dag,
                        self.end@,
                        self.start_generation@,
                        self.children@,
                        before,
                        g,
                        cs_ids@,
                        self.upwards_frontier@,
                    );
                    lemma_floor(before, g.0);
                    let chunk = cs_ids@.to_set();
                    assert forall|x: ChangesetId|
                        self.remaining().contains(x) <==> old(self).remaining().difference(
                            chunk,
                        ).contains(x) by {
                        assert(chunk.contains(x) <==> cs_ids@.contains(x));
                    }
                    assert(self.remaining() =~= old(self).remaining().difference(chunk));
                    assert(before.contains(
                        choose|n: ChangesetNode| before.contains(n) && #[trigger] n.generation.0 == g.0,
                    ));
                    assert(before != Set::<ChangesetNode>::empty());
                    assert forall|id: ChangesetId|
                        cs_ids@.contains(id) <==> old(self).remaining().contains(id)
                            && dag.generation(id) == floor(before) by {
                        assert(old(self).remaining().contains(id) <==> stands_between(
                            dag,
                            before,
                            self.end@,
                            id,
                        ));
                    }
                    assert forall|x: ChangesetId|
                        old(self).remaining().contains(x) implies dag.generation(x) >= floor(
                        before,
                    ) by {
                        assert(stands_between(dag, before, self.end@, x));
                    }
                    assert(self.wf());
                    assert(0 <= self.chunks_left() < old(self).chunks_left());
                }
                Some(cs_ids)
            },
        }
    }

    /// Everything that the stream has still to give, in the order in which
    /// it gives it.
    pub fn collect(&mut self) -> (ids: Vec<ChangesetId>)
        requires
            old(self).wf(),
        ensures
            final(self).wf(),
            ids@.no_duplicates(),
            ids@.to_set() == old(self).remaining(),
            ascending_generations(old(self).dag@, ids@),
            final(self).remaining() == Set::<ChangesetId>::empty(),
    {
        let ghost dag = self.dag@;
        let ghost total = self.remaining();
        let mut ids: Vec<ChangesetId> = Vec::new();
        loop
            invariant
                self.wf(),
                self.dag@ == dag,
                dag == old(self).dag@,
                total == old(self).remaining(),
                ids@.no_duplicates(),
                forall|x: ChangesetId|
                    total.contains(x) <==> ids@.contains(x) || self.remaining().contains(x),
                forall|x: ChangesetId| !(ids@.contains(x) && self.remaining().contains(x)),
                ascending_generations(dag, ids@),
                forall|i: int, x: ChangesetId|
                    0 <= i < ids.len() && self.remaining().contains(x) ==> dag.generation(
                        #[trigger] ids[i],
                    ) < #[trigger] dag.generation(x),
            decreases self.chunks_left(),
        {
            let ghost before = ids@;
            let ghost left = self.remaining();
            let ghost low = floor(self.upwards_frontier@);
            match self.next_chunk() {
                None => {
                    proof {
                        assert(ids@.to_set() =~= total);
                    }
                    return ids;
                },
                Some(chunk) => {
                    let mut chunk = chunk;
                    let ghost added = chunk@;
                    ids.append(&mut chunk);
                    proof {
                        assert(ids@ == before + added);
                        assert forall|i: int, j: int| 0 <= i < j < ids.len() implies ids[i]
                            != ids[j] by {
                            if j < before.len() {
                            } else if i < before.len() {
                                assert(added.contains(added[j - before.len()]));
                                assert(before.contains(before[i]));
                            } else {
                                assert(added[i - before.len()].precedes(added[j - before.len()]));
                            }
                        }
                        assert forall|x: ChangesetId|
                            total.contains(x) <==> ids@.contains(x) || self.remaining().contains(
                                x,
                            ) by {
                            if ids@.contains(x) {
                                let k = choose|k: int| 0 <= k < ids.len() && ids[k] == x;
                                if k < before.len() {
                                    assert(before.contains(x));
                                } else {
                                    assert(added.contains(added[k - before.len()]));
                                }
                            }
                            if before.contains(x) {
                                let k = choose|k: int| 0 <= k < before.len() && before[k] == x;
                                assert(ids[k] == x);
                            }
                            if added.contains(x) {
                                let k = choose|k: int| 0 <= k < added.len() && added[k] == x;
                                assert(ids[before.len() + k] == x);
                            }
                        }
                        assert forall|x: ChangesetId|
                            !(ids@.contains(x) && self.remaining().contains(x)) by {
                            if ids@.contains(x) {
                                let k = choose|k: int| 0 <= k < ids.len() && ids[k] == x;
                                if k < before.len() {
                                    assert(before.contains(x));
                                } else {
                                    assert(added.contains(added[k - before.len()]));
                                }
                            }
                        }
                        assert forall|i: int| before.len() <= i < ids.len() implies dag.generation(
                            #[trigger] ids[i],
                        ) == low && left.contains(ids[i]) by {
                            assert(added.contains(added[i - before.len()]));
                        }
                        assert forall|i: int, x: ChangesetId|
                            0 <= i < ids.len() && self.remaining().contains(
                                x,
                            ) implies dag.generation(#[trigger] ids[i]) < #[trigger] dag.generation(
                            x,
                        ) by {
                            assert(left.contains(x));
                            if i < before.len() {
                                assert(ids[i] == before[i]);
                            } else {
                                assert(!added.contains(x));
                            }
                        }
                        assert forall|i: int, j: int|
                            0 <= i < j < ids.len() implies dag.generation(ids[i])
                            <= dag.generation(ids[j]) by {
                            if j < before.len() {
                                assert(dag.generation(before[i]) <= dag.generation(before[j]));
                            } else if i < before.len() {
                                assert(ids[i] == before[i]);
                                assert(left.contains(ids[j]));
                            }
                        }
                    }
                },
            }
        }
    }
}

/// One step of the way up: the lowest generation of the frontier leaves, and
/// the children of what leaves come in.
#[verifier::rlimit(40)]
pub proof fn lemma_range_step(
    dag: Dag,
    end: ChangesetId,
    start_generation: int,
    children: Seq<ChildEdge>,
    f: Set<ChangesetNode>,
    g: Generation,
    ids: Seq<ChangesetId>,
    after: Set<ChangesetNode>,
)
    requires
        dag.wf(),
        forall|n: ChangesetNode|
            f.contains(n) ==> dag.has_node(n) && dag.is_ancestor(n.cs_id, end) && n.generation.0
                >= start_generation,
        forall|e: ChildEdge|
            children.contains(e) <==> is_range_edge(dag, end, start_generation, e),
        is_lowest(f, g.0),
        is_bucket(f, g, ids),
        after == f.filter(|n: ChangesetNode| n.generation != g).union(children_of(children, ids)),
    ensures
        forall|n: ChangesetNode|
            after.contains(n) ==> dag.has_node(n) && dag.is_ancestor(n.cs_id, end)
                && n.generation.0 >= start_generation && n.generation.0 > g.0,
        forall|id: ChangesetId|
            ids.contains(id) <==> #[trigger] stands_between(dag, f, end, id) && dag.generation(id)
                == g.0,
        forall|x: ChangesetId|
            #[trigger] stands_between(dag, f, end, x) ==> dag.generation(x) >= g.0,
        forall|x: ChangesetId|
            #[trigger] stands_between(dag, after, end, x) <==> (stands_between(dag, f, end, x)
                && !ids.contains(x)),
        g.0 <= dag.generation(end),
        after == Set::<ChangesetNode>::empty() || (g.0 < floor(after) <= dag.generation(end)),
{
    assert forall|n: ChangesetNode| after.contains(n) implies dag.has_node(n) && dag.is_ancestor(
        n.cs_id,
        end,
    ) && n.generation.0 >= start_generation && n.generation.0 > g.0 && exists|b: ChangesetNode|
        f.contains(b) && (b == n || (b.generation == g && dag.is_parent(
            #[trigger] b.cs_id,
            n.cs_id,
        ))) by {
        if f.contains(n) && n.generation != g {
        } else {
            let k = choose|k: int|
                0 <= k < children.len() && (#[trigger] children[k]).child == n && ids.contains(
                    children[k].parent,
                );
            assert(children.contains(children[k]));
            let b = ChangesetNode { cs_id: children[k].parent, generation: g };
            assert(f.contains(b));
            assert(dag.has_node(b));
            dag.lemma_parent(b.cs_id, n.cs_id);
            assert(f.contains(b) && (b == n || (b.generation == g && dag.is_parent(
                b.cs_id,
                n.cs_id,
            ))));
        }
    }
    assert forall|x: ChangesetId| #[trigger]
        stands_between(dag, f, end, x) implies dag.generation(x) >= g.0 && (dag.generation(x) == g.0
        ==> ids.contains(x)) by {
        let n = choose|n: ChangesetNode| f.contains(n) && dag.is_ancestor(#[trigger] n.cs_id, x);
        dag.lemma_ancestor_generation(n.cs_id, x);
        if dag.generation(x) == g.0 {
            assert(n == ChangesetNode { cs_id: x, generation: g });
        }
    }
    assert forall|id: ChangesetId| ids.contains(id) implies #[trigger] stands_between(
        dag,
        f,
        end,
        id,
    ) && dag.generation(id) == g.0 by {
        let n = ChangesetNode { cs_id: id, generation: g };
        assert(f.contains(n));
        dag.lemma_reflexive(id);
        assert(dag.is_ancestor(n.cs_id, id));
    }
    assert forall|x: ChangesetId|
        #[trigger] stands_between(dag, after, end, x) <==> (stands_between(dag, f, end, x)
            && !ids.contains(x)) by {
        if dag.is_ancestor(x, end) && dag.rises_to(after, x) {
            let n = choose|n: ChangesetNode|
                after.contains(n) && dag.is_ancestor(#[trigger] n.cs_id, x);
            dag.lemma_ancestor_generation(n.cs_id, x);
            let b = choose|b: ChangesetNode|
                f.contains(b) && (b == n || (b.generation == g && dag.is_parent(
                    #[trigger] b.cs_id,
                    n.cs_id,
                )));
            if b != n {
                dag.lemma_parent(b.cs_id, n.cs_id);
                dag.lemma_transitive(b.cs_id, n.cs_id, x);
            }
            assert(dag.is_ancestor(b.cs_id, x));
            assert(dag.rises_to(f, x));
        }
        if dag.is_ancestor(x, end) && dag.rises_to(f, x) && !ids.contains(x) {
            let n = choose|n: ChangesetNode| f.contains(n) && dag.is_ancestor(#[trigger] n.cs_id, x);
            if n.generation != g {
                assert(after.contains(n));
                assert(dag.rises_to(after, x));
            } else {
                assert(n == ChangesetNode { cs_id: n.cs_id, generation: g });
                assert(ids.contains(n.cs_id));
                let y = dag.lemma_last_step(n.cs_id, x);
                dag.lemma_parent(n.cs_id, y);
                dag.lemma_transitive(y, x, end);
                assert(dag.record_wf(y));
                let e = ChildEdge { parent: n.cs_id, child: dag.node(y) };
                assert(is_range_edge(dag, end, start_generation, e));
                assert(children.contains(e));
                let k = choose|k: int| 0 <= k < children.len() && children[k] == e;
                assert(children[k].child == dag.node(y) && ids.contains(children[k].parent));
                assert(children_of(children, ids).contains(dag.node(y)));
                assert(after.contains(dag.node(y)));
                assert(dag.is_ancestor(dag.node(y).cs_id, x));
                assert(dag.rises_to(after, x));
            }
        }
    }
    let some = choose|n: ChangesetNode| f.contains(n) && #[trigger] n.generation.0 == g.0;
    dag.lemma_ancestor_generation(some.cs_id, end);
    if after != Set::<ChangesetNode>::empty() {
        lemma_floor_bounded(after, g.0 as int);
        if exists|h: u64| is_lowest(after, h) {
            let h = choose|h: u64| is_lowest(after, h);
            let m = choose|m: ChangesetNode| after.contains(m) && #[trigger] m.generation.0 == h;
            dag.lemma_ancestor_generation(m.cs_id, end);
        } else {
            // a set of nodes of the graph that is not empty has a lowest generation
            assert(after =~= Set::<ChangesetNode>::empty()) by {
                lemma_has_lowest(dag, end, after);
            }
        }
    }
}

/// A set of ancestors of `end` that is not empty has a lowest generation.
proof fn lemma_has_lowest(dag: Dag, end: ChangesetId, s: Set<ChangesetNode>)
    requires
        dag.wf(),
        forall|n: ChangesetNode| s.contains(n) ==> dag.has_node(n) && dag.is_ancestor(n.cs_id, end),
        !(exists|h: u64| is_lowest(s, h)),
    ensures
        s == Set::<ChangesetNode>::empty(),
{
    if exists|n: ChangesetNode| s.contains(n) {
        let n = choose|n: ChangesetNode| s.contains(n);
        lemma_lowest_below(s, n, n.generation.0);
    }
    assert(s =~= Set::<ChangesetNode>::empty());
}

/// Below any node of a set there is a lowest generation of the set.
proof fn lemma_lowest_below(s: Set<ChangesetNode>, n: ChangesetNode, bound: u64)
    requires
        s.contains(n),
        n.generation.0 <= bound,
    ensures
        exists|h: u64| is_lowest(s, h),
    decreases bound,
{
    if forall|m: ChangesetNode| s.contains(m) ==> m.generation.0 >= n.generation.0 {
        assert(is_lowest(s, n.generation.0));
    } else {
        let m = choose|m: ChangesetNode| s.contains(m) && m.generation.0 < n.generation.0;
        lemma_lowest_below(s, m, (bound - 1) as u64);
    }
}

/// What the way down from `end` has come to, when everything at `above` or
/// higher has been walked: while `above` is over the start's generation, the
/// frontier is the end lowered to just under `above`, the start has not
/// been met, and the edges are those whose child is at `above` or higher;
/// from then on it is known whether the start is an ancestor of the end, and
/// the edges are all those whose child is above the start's generation.
pub open spec fn discovered(
    dag: Dag,
    start: ChangesetId,
    end: ChangesetId,
    f: Set<ChangesetNode>,
    edges: Set<ChildEdge>,
    reached_start: bool,
    above: int,
) -> bool {
    let low = dag.generation(start);
    &&& dag.has_nodes(f)
    &&& forall|n: ChangesetNode| f.contains(n) ==> n.generation.0 < above
    &&& above > low ==> !reached_start && f == dag.lowered(
        Set::<ChangesetNode>::empty().insert(dag.node(end)),
        above - 1,
    )
    &&& above <= low ==> reached_start == dag.is_ancestor(start, end)
    &&& forall|e: ChildEdge|
        edges.contains(e) <==> #[trigger] is_range_edge(dag, end, low, e) && (above > low
            ==> e.child.generation.0 >= above)
}

/// The way down begins at the end.
proof fn lemma_discovery_begins(dag: Dag, start: ChangesetId, end: ChangesetId)
    requires
        dag.wf(),
        dag.contains(start),
        dag.contains(end),
    ensures
        discovered(
            dag,
            start,
            end,
            Set::<ChangesetNode>::empty().insert(dag.node(end)),
            Set::<ChildEdge>::empty(),
            false,
            dag.generation(end) + 1,
        ),
{
    let f = Set::<ChangesetNode>::empty().insert(dag.node(end));
    let above = dag.generation(end) + 1;
    assert(dag.record_wf(end));
    assert(dag.has_node(dag.node(end)));
    dag.lemma_lowered_unchanged(f, above - 1);
    if dag.is_ancestor(start, end) {
        dag.lemma_ancestor_generation(start, end);
    }
    assert forall|e: ChildEdge| #[trigger]
        is_range_edge(dag, end, dag.generation(start), e) implies e.child.generation.0 < above
        && e.child.generation.0 <= dag.generation(end) by {
        dag.lemma_ancestor_generation(e.child.cs_id, end);
    }
}

/// The edges that a wave above the start's generation finds are those of the
/// graph below the end whose child is at the height of the frontier.
#[verifier::rlimit(40)]
proof fn lemma_wave_edges(
    dag: Dag,
    end: ChangesetId,
    low: int,
    f: Set<ChangesetNode>,
    above: int,
    g: Generation,
    ids: Seq<ChangesetId>,
    records: Seq<ChangesetEdges>,
    e: ChildEdge,
)
    requires
        dag.wf(),
        dag.contains(end),
        dag.has_nodes(f),
        f == dag.lowered(Set::<ChangesetNode>::empty().insert(dag.node(end)), above - 1),
        is_highest(f, g.0),
        is_bucket(f, g, ids),
        are_required_records_of(dag, ids, records),
        g.0 > low,
    ensures
        child_edges(records).contains(e) <==> is_range_edge(dag, end, low, e)
            && e.child.generation.0 >= g.0 && e.child.generation.0 < above,
{
    let top = g.0 as int;
    let f0 = Set::<ChangesetNode>::empty().insert(dag.node(end));
    assert(dag.record_wf(end));
    assert(dag.has_nodes(f0));
    if child_edges(records).contains(e) {
        let k = choose|k: int| 0 <= k < records.len() && names_edge(#[trigger] records[k], e);
        let m = choose|m: int|
            0 <= m < records[k].parents@.len() && (#[trigger] records[k].parents@[m]).cs_id
                == e.parent;
        assert(is_record_of(dag, ids[k], Some(records[k])));
        assert(ids.contains(ids[k]));
        let node = ChangesetNode { cs_id: ids[k], generation: g };
        assert(f.contains(node));
        assert(dag.has_node(node));
        assert(dag.record_wf(ids[k]));
        assert(e.child == node);
        dag.lemma_lowered_reached(f0, above - 1, node);
        let n0 = choose|n0: ChangesetNode|
            f0.contains(n0) && dag.is_ancestor(node.cs_id, #[trigger] n0.cs_id);
        assert(dag.is_ancestor(node.cs_id, end));
        assert(dag.parents(ids[k])[m].cs_id == e.parent);
        assert(dag.is_parent(e.parent, ids[k]));
    }
    if is_range_edge(dag, end, low, e) && e.child.generation.0 >= top && e.child.generation.0
        < above {
        let c = e.child.cs_id;
        assert(f0.contains(dag.node(end)));
        assert(dag.reaches(f0, c));
        dag.lemma_lowered_reaches(f0, above - 1, c);
        dag.lemma_reaches_bounded(f, top, c);
        dag.lemma_reaches_at_height(f, top, c);
        assert(e.child == ChangesetNode { cs_id: c, generation: g });
        assert(ids.contains(c));
        let k = choose|k: int| 0 <= k < ids.len() && ids[k] == c;
        assert(is_record_of(dag, ids[k], Some(records[k])));
        let m = choose|m: int|
            0 <= m < dag.parents(c).len() && (#[trigger] dag.parents(c)[m]).cs_id == e.parent;
        assert(records[k].parents@[m].cs_id == e.parent);
        assert(dag.record_wf(c));
        assert(records[k].node == e.child);
        assert(names_edge(records[k], e));
        assert(child_edges(records).contains(e));
    }
}

/// A step of the way down above the start's generation.
proof fn lemma_discovery_wave(
    dag: Dag,
    start: ChangesetId,
    end: ChangesetId,
    f: Set<ChangesetNode>,
    edges: Set<ChildEdge>,
    above: int,
    g: Generation,
    ids: Seq<ChangesetId>,
    records: Seq<ChangesetEdges>,
    f_after: Set<ChangesetNode>,
    edges_after: Set<ChildEdge>,
)
    requires
        dag.wf(),
        dag.contains(start),
        dag.contains(end),
        discovered(dag, start, end, f, edges, false, above),
        above > dag.generation(start),
        is_highest(f, g.0),
        is_bucket(f, g, ids),
        are_required_records_of(dag, ids, records),
        g.0 > dag.generation(start),
        f_after == f.filter(|n: ChangesetNode| n.generation != g).union(
            crate::lowering::all_parents(records),
        ),
        edges_after == edges.union(child_edges(records)),
    ensures
        discovered(dag, start, end, f_after, edges_after, false, g.0 as int),
        !ids.contains(start),
        height(f_after) < height(f),
{
    let low = dag.generation(start);
    let top = g.0 as int;
    let f0 = Set::<ChangesetNode>::empty().insert(dag.node(end));
    assert(dag.record_wf(end));
    assert(dag.record_wf(start));
    assert(dag.has_nodes(f0));
    lemma_wave(dag, f, g, ids, records, f_after);
    dag.lemma_lowered_twice(f0, above - 1, top - 1);
    if ids.contains(start) {
        assert(dag.has_node(ChangesetNode { cs_id: start, generation: g }));
    }
    assert forall|e: ChildEdge|
        edges_after.contains(e) <==> #[trigger] is_range_edge(dag, end, low, e)
            && e.child.generation.0 >= top by {
        lemma_wave_edges(dag, end, low, f, above, g, ids, records, e);
    }
}

/// The step of the way down that comes to the start's generation or below it.
#[verifier::rlimit(40)]
proof fn lemma_discovery_passes(
    dag: Dag,
    start: ChangesetId,
    end: ChangesetId,
    f: Set<ChangesetNode>,
    edges: Set<ChildEdge>,
    above: int,
    g: Generation,
    ids: Seq<ChangesetId>,
    f_after: Set<ChangesetNode>,
)
    requires
        dag.wf(),
        dag.contains(start),
        dag.contains(end),
        discovered(dag, start, end, f, edges, false, above),
        above > dag.generation(start),
        is_highest(f, g.0),
        is_bucket(f, g, ids),
        g.0 <= dag.generation(start),
        f_after == f.filter(|n: ChangesetNode| n.generation != g),
    ensures
        discovered(dag, start, end, f_after, edges, ids.contains(start), g.0 as int),
{
    let low = dag.generation(start);
    let top = g.0 as int;
    let f0 = Set::<ChangesetNode>::empty().insert(dag.node(end));
    assert(dag.record_wf(end));
    assert(dag.record_wf(start));
    assert(dag.has_nodes(f0));
    assert(f0.contains(dag.node(end)));
    assert forall|y: ChangesetId|
        dag.is_ancestor(y, end) && dag.generation(y) < above implies dag.generation(y) <= top by {
        assert(dag.reaches(f0, y));
        dag.lemma_lowered_reaches(f0, above - 1, y);
        dag.lemma_reaches_bounded(f, top, y);
    }
    if dag.is_ancestor(start, end) {
        assert(dag.reaches(f0, start));
        dag.lemma_lowered_reaches(f0, above - 1, start);
        dag.lemma_reaches_bounded(f, top, start);
        dag.lemma_reaches_at_height(f, top, start);
        assert(dag.node(start) == ChangesetNode { cs_id: start, generation: g });
        assert(ids.contains(start));
    }
    if ids.contains(start) {
        let node = ChangesetNode { cs_id: start, generation: g };
        assert(f.contains(node));
        dag.lemma_lowered_reached(f0, above - 1, node);
        let n0 = choose|n0: ChangesetNode|
            f0.contains(n0) && dag.is_ancestor(node.cs_id, #[trigger] n0.cs_id);
        assert(dag.is_ancestor(start, end));
    }
    assert forall|e: ChildEdge| edges.contains(e) <==> #[trigger] is_range_edge(dag, end, low, e) by {
        if is_range_edge(dag, end, low, e) {
            if e.child.generation.0 < above {
                assert(dag.generation(e.child.cs_id) <= top);
            }
        }
    }
}

/// One step of the way down.
proof fn lemma_discovery_step(
    dag: Dag,
    start: ChangesetId,
    end: ChangesetId,
    f: Set<ChangesetNode>,
    edges: Set<ChildEdge>,
    reached_start: bool,
    above: int,
    g: Generation,
    ids: Seq<ChangesetId>,
    records: Seq<ChangesetEdges>,
    f_after: Set<ChangesetNode>,
    edges_after: Set<ChildEdge>,
)
    requires
        dag.wf(),
        dag.contains(start),
        dag.contains(end),
        discovered(dag, start, end, f, edges, reached_start, above),
        is_highest(f, g.0),
        is_bucket(f, g, ids),
        are_required_records_of(dag, ids, records),
        g.0 > dag.generation(start) ==> f_after == f.filter(
            |n: ChangesetNode| n.generation != g,
        ).union(crate::lowering::all_parents(records)) && edges_after == edges.union(
            child_edges(records),
        ),
        g.0 <= dag.generation(start) ==> f_after == f.filter(|n: ChangesetNode| n.generation != g)
            && edges_after == edges,
    ensures
        discovered(
            dag,
            start,
            end,
            f_after,
            edges_after,
            reached_start || ids.contains(start),
            g.0 as int,
        ),
        height(f_after) < height(f),
{
    let low = dag.generation(start);
    let top = g.0 as int;
    lemma_height(f, g.0);
    let some = choose|n: ChangesetNode| f.contains(n) && #[trigger] n.generation.0 == g.0;
    assert(dag.has_node(some));
    dag.lemma_generation_positive(some.cs_id);
    if top > low {
        lemma_discovery_wave(
            dag,
            start,
            end,
            f,
            edges,
            above,
            g,
            ids,
            records,
            f_after,
            edges_after,
        );
    } else {
        crate::frontier::lemma_height_bounded(f_after, top - 1);
        if above > low {
            lemma_discovery_passes(dag, start, end, f, edges, above, g, ids, f_after);
        } else {
            if ids.contains(start) {
                assert(dag.has_node(ChangesetNode { cs_id: start, generation: g }));
            }
        }
    }
}

/// When the way down is over, it has passed the start's generation.
proof fn lemma_discovery_ends(
    dag: Dag,
    start: ChangesetId,
    end: ChangesetId,
    edges: Set<ChildEdge>,
    reached_start: bool,
    above: int,
)
    requires
        dag.wf(),
        dag.contains(start),
        dag.contains(end),
        above <= dag.generation(end) + 1,
        discovered(dag, start, end, Set::<ChangesetNode>::empty(), edges, reached_start, above),
    ensures
        reached_start == dag.is_ancestor(start, end),
        forall|e: ChildEdge|
            edges.contains(e) <==> #[trigger] is_range_edge(dag, end, dag.generation(start), e),
{
    let low = dag.generation(start);
    if above > low {
        let f0 = Set::<ChangesetNode>::empty().insert(dag.node(end));
        assert(dag.record_wf(end));
        assert(dag.record_wf(start));
        assert(dag.has_nodes(f0));
        let w = dag.lemma_level(end, above - 1);
        assert(f0.contains(dag.node(end)));
        assert(dag.reaches(f0, w));
        dag.lemma_lowered_reaches(f0, above - 1, w);
        let n = choose|n: ChangesetNode|
            dag.lowered(f0, above - 1).contains(n) && dag.is_ancestor(w, #[trigger] n.cs_id);
        assert(false);
    }
}

impl<S: CommitGraphStorage> CommitGraph<S> {
    /// The stream of the changesets that are descendants of `start_id` and
    /// ancestors of `end_id`. It gives nothing where `start_id` is not an
    /// ancestor of `end_id`.
    #[verifier::rlimit(40)]
    pub fn range_stream(
        &self,
        ctx: &S::Context,
        start_id: ChangesetId,
        end_id: ChangesetId,
    ) -> (r: Result<
        RangeStream,
        CommitGraphError,
    >)
        requires
            self.wf(),
        ensures
            match r {
                Ok(stream) => {
                    &&& self.dag().contains(start_id)
                    &&& self.dag().contains(end_id)
                    &&& stream.wf()
                    &&& stream.dag@ == self.dag()
                    &&& stream.end@ == end_id
                    &&& stream.remaining() == self.dag().range(start_id, end_id)
                },
                Err(e) => {
                    ||| !self.infallible()
                    ||| (e == CommitGraphError::MissingChangeset(start_id) && !self.dag().contains(
                        start_id,
                    ))
                    ||| (e == CommitGraphError::MissingChangeset(end_id) && !self.dag().contains(
                        end_id,
                    ))
                },
            },
    {
        let start_generation = self.changeset_generation_required(ctx, start_id)?;
        let mut frontier = self.single_frontier(ctx, end_id)?;
        let mut children: Vec<ChildEdge> = Vec::new();
        let mut reached_start = false;
        let ghost dag = self.dag();
        let ghost mut above: int = dag.generation(end_id) + 1;
        proof {
            assert(dag.record_wf(end_id));
            assert(dag.record_wf(start_id));
            lemma_discovery_begins(dag, start_id, end_id);
            assert(children@.to_set() =~= Set::<ChildEdge>::empty());
        }
        loop
            invariant
                self.wf(),
                dag == self.dag(),
                dag.contains(start_id),
                dag.contains(end_id),
                start_generation == dag.node(start_id).generation,
                above <= dag.generation(end_id) + 1,
                discovered(
                    dag,
                    start_id,
                    end_id,
                    frontier@,
                    children@.to_set(),
                    reached_start,
                    above,
                ),
            decreases height(frontier@),
        {
            let ghost f = frontier@;
            let ghost edges = children@.to_set();
            let ghost reached_before = reached_start;
            match frontier.pop_last() {
                None => {
                    proof {
                        lemma_discovery_ends(dag, start_id, end_id, edges, reached_start, above);
                        assert(dag.record_wf(start_id));
                    }
                    let upwards_frontier = if reached_start {
                        ChangesetFrontier::new_single(start_id, start_generation)
                    } else {
                        ChangesetFrontier::new()
                    };
                    let stream = RangeStream {
                        children,
                        upwards_frontier,
                        dag: Ghost(dag),
                        end: Ghost(end_id),
                        start_generation: Ghost(dag.generation(start_id)),
                    };
                    proof {
                        assert forall|x: ChangesetId|
                            stream.remaining().contains(x) <==> dag.range(start_id, end_id).contains(
                                x,
                            ) by {
                            if stands_between(dag, stream.upwards_frontier@, end_id, x) {
                                let n = choose|n: ChangesetNode|
                                    stream.upwards_frontier@.contains(n) && dag.is_ancestor(
                                        #[trigger] n.cs_id,
                                        x,
                                    );
                            }
                            if dag.range(start_id, end_id).contains(x) {
                                dag.lemma_transitive(start_id, x, end_id);
                                assert(stream.upwards_frontier@.contains(dag.node(start_id)));
                                assert(dag.is_ancestor(dag.node(start_id).cs_id, x));
                            }
                        }
                        assert(stream.remaining() =~= dag.range(start_id, end_id));
                        if reached_start {
                            dag.lemma_reflexive(start_id);
                        }
                    }
                    return Ok(stream);
                },
                Some((generation, cs_ids)) => {
                    proof {
                        assert forall|i: int| 0 <= i < cs_ids.len() implies dag.contains(
                            #[trigger] cs_ids@[i],
                        ) by {
                            assert(cs_ids@.contains(cs_ids@[i]));
                            assert(dag.has_node(
                                ChangesetNode { cs_id: cs_ids@[i], generation },
                            ));
                        }
                    }
                    let records = match self.storage.fetch_many_edges_required(ctx, 
                        &cs_ids,
                        Prefetch::for_p1_linear_traversal(),
                    ) {
                        Ok(records) => records,
                        Err(e) => {
                            return Err(e);
                        },
                    };
                    let met = contains_id(&cs_ids, start_id);
                    reached_start = reached_start || met;
                    if generation.0 > start_generation.0 {
                        record_children(&mut children, &records);
                        insert_all_parents(&mut frontier, &records);
                    }
                    proof {
                        lemma_discovery_step(
                            dag,
                            start_id,
                            end_id,
                            f,
                            edges,
                            reached_before,
                            above,
                            generation,
                            cs_ids@,
                            records@,
                            frontier@,
                            children@.to_set(),
                        );
                        above = generation.0 as int;
                    }
                },
            }
        }
    }
}

} // verus!
