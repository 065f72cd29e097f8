//! The difference of two ancestries: the ancestors of some heads that are
//! not ancestors of some common changesets, from the highest generation down.

use crate::dag::Dag;
use crate::frontier::{
    ascending, height, is_bucket, is_highest, lemma_height, lemma_height_bounded, ChangesetFrontier,
};
use crate::graph::CommitGraph;
use crate::ids::{ChangesetEdges, ChangesetId, ChangesetNode, Generation};
use crate::lowering::{found_parents, insert_found_parents};
use crate::property::{
    answers, can_ask, decides, fails_with, lemma_answered, lemma_one_answer, monotonic, never,
    nothing, said_no, said_yes,
};
use crate::storage::{
    are_records_of, is_record_of, reports_missing, CommitGraphError, CommitGraphStorage, Prefetch,
};
use vstd::prelude::*;

verus! {

/// The ancestors of `heads` that are not ancestors of `common` and are not
/// left out.
pub open spec fn difference_with(
    dag: Dag,
    heads: Seq<ChangesetId>,
    common: Seq<ChangesetId>,
    left_out: spec_fn(ChangesetId) -> bool,
) -> Set<ChangesetId> {
    Set::new(|x: ChangesetId| dag.difference(heads, common).contains(x) && !left_out(x))
}

/// What remains to be given from `heads`, less what `common` reaches and
/// what is left out.
pub open spec fn remainder(
    dag: Dag,
    heads: Set<ChangesetNode>,
    common: Set<ChangesetNode>,
    left_out: spec_fn(ChangesetId) -> bool,
) -> Set<ChangesetId> {
    Set::new(|x: ChangesetId| remains(dag, heads, common, left_out, x))
}

/// `chunk` is what remains at the highest generation of `heads`; nothing
/// remains above it; and with it given, and the frontiers now `next_heads`
/// and `next_common`, what remains is what remained, less the chunk.
pub open spec fn is_next_chunk(
    dag: Dag,
    heads: Set<ChangesetNode>,
    common: Set<ChangesetNode>,
    next_heads: Set<ChangesetNode>,
    next_common: Set<ChangesetNode>,
    left_out: spec_fn(ChangesetId) -> bool,
    chunk: Seq<ChangesetId>,
) -> bool {
    &&& forall|id: ChangesetId|
        chunk.contains(id) <==> #[trigger] remains(dag, heads, common, left_out, id)
            && dag.generation(id) == height(heads)
    &&& forall|x: ChangesetId|
        #[trigger] remains(dag, heads, common, left_out, x) ==> dag.generation(x) <= height(heads)
    &&& forall|x: ChangesetId|
        #[trigger] remains(dag, next_heads, next_common, left_out, x) <==> remains(
            dag,
            heads,
            common,
            left_out,
            x,
        ) && !chunk.contains(x)
}

/// Of what remained from `first_heads`, `ids` has been given and the rest
/// remains from `heads`.
pub open spec fn is_collected(
    dag: Dag,
    first_heads: Set<ChangesetNode>,
    first_common: Set<ChangesetNode>,
    heads: Set<ChangesetNode>,
    common: Set<ChangesetNode>,
    left_out: spec_fn(ChangesetId) -> bool,
    ids: Seq<ChangesetId>,
) -> bool {
    &&& forall|x: ChangesetId|
        #[trigger] remains(dag, first_heads, first_common, left_out, x) <==> ids.contains(x)
            || remains(dag, heads, common, left_out, x)
    &&& forall|x: ChangesetId|
        !(ids.contains(x) && #[trigger] remains(dag, heads, common, left_out, x))
}

/// `x` is reached from `heads`, not from `common`, and not left out.
pub open spec fn remains(
    dag: Dag,
    heads: Set<ChangesetNode>,
    common: Set<ChangesetNode>,
    left_out: spec_fn(ChangesetId) -> bool,
    x: ChangesetId,
) -> bool {
    dag.reaches(heads, x) && !dag.reaches(common, x) && !left_out(x)
}

/// The generations do not rise along `ids`.
pub open spec fn descending_generations(dag: Dag, ids: Seq<ChangesetId>) -> bool {
    forall|i: int, j: int|
        0 <= i < j < ids.len() ==> dag.generation(ids[i]) >= dag.generation(ids[j])
}

/// One step of the difference: the highest generation of `heads` leaves, what
/// of it remains is kept, and the parents of what is kept come in.
#[verifier::rlimit(40)]
pub proof fn lemma_difference_step(
    dag: Dag,
    heads: Set<ChangesetNode>,
    common: Set<ChangesetNode>,
    g: Generation,
    ids: Seq<ChangesetId>,
    kept: Seq<ChangesetId>,
    found: Seq<Option<ChangesetEdges>>,
    next_heads: Set<ChangesetNode>,
    left_out: spec_fn(ChangesetId) -> bool,
)
    requires
        dag.wf(),
        dag.has_nodes(heads),
        dag.has_nodes(common),
        is_highest(heads, g.0),
        is_bucket(heads, g, ids),
        forall|p: ChangesetId, c: ChangesetId|
            #[trigger] dag.is_parent(p, c) && left_out(c) ==> left_out(p),
        forall|id: ChangesetId|
            kept.contains(id) <==> ids.contains(id) && !dag.lowered(common, g.0 as int).contains(
                ChangesetNode { cs_id: id, generation: g },
            ) && !left_out(id),
        are_records_of(dag, kept, found),
        next_heads == heads.filter(|n: ChangesetNode| n.generation != g).union(
            found_parents(found),
        ),
    ensures
        forall|id: ChangesetId|
            kept.contains(id) <==> remains(dag, heads, common, left_out, id) && dag.generation(id)
                == g.0,
        forall|x: ChangesetId|
            remains(dag, next_heads, dag.lowered(common, g.0 as int), left_out, x) <==> remains(
                dag,
                heads,
                common,
                left_out,
                x,
            ) && !kept.contains(x),
        forall|x: ChangesetId|
            remains(dag, heads, common, left_out, x) ==> dag.generation(x) <= g.0,
        dag.has_nodes(next_heads),
        height(next_heads) < g.0,
        height(heads) == g.0,
{
    let top = g.0 as int;
    let low = dag.lowered(common, top);
    dag.lemma_lowered_has_nodes(common, top);
    lemma_height(heads, g.0);
    let some = choose|n: ChangesetNode| heads.contains(n) && #[trigger] n.generation.0 == g.0;
    assert(dag.has_node(some));
    dag.lemma_generation_positive(some.cs_id);
    // the parents that come in are nodes of the graph below the top
    assert forall|n: ChangesetNode| found_parents(found).contains(n) implies dag.has_node(n)
        && n.generation.0 < top && exists|k: int|
        0 <= k < kept.len() && dag.is_parent(n.cs_id, #[trigger] kept[k]) by {
        let k = choose|k: int|
            0 <= k < found.len() && (#[trigger] found[k]) is Some
                && found[k]->0.parents@.contains(n);
        let m = choose|m: int|
            0 <= m < found[k]->0.parents@.len() && found[k]->0.parents@[m] == n;
        assert(is_record_of(dag, kept[k], found[k]));
        assert(dag.record_wf(kept[k]));
        assert(dag.parents(kept[k])[m] == n);
        assert(dag.has_node(dag.parents(kept[k])[m]));
        assert(kept.contains(kept[k]));
        assert(ids.contains(kept[k]));
        assert(dag.has_node(ChangesetNode { cs_id: kept[k], generation: g }));
        assert(dag.is_parent(n.cs_id, kept[k]));
    }
    assert(dag.has_nodes(next_heads));
    lemma_height_bounded(next_heads, top - 1);
    assert forall|x: ChangesetId| remains(dag, heads, common, left_out, x) implies dag.generation(
        x,
    ) <= g.0 by {
        dag.lemma_reaches_bounded(heads, top, x);
    }
    assert forall|id: ChangesetId|
        kept.contains(id) <==> remains(dag, heads, common, left_out, id) && dag.generation(id)
            == g.0 by {
        let node = ChangesetNode { cs_id: id, generation: g };
        if kept.contains(id) {
            assert(heads.contains(node));
            assert(dag.has_node(node));
            dag.lemma_reflexive(id);
            assert(dag.reaches(heads, id));
            if dag.reaches(common, id) {
                dag.lemma_lowered_reaches(common, top, id);
                dag.lemma_reaches_at_height(low, top, id);
            }
        }
        if remains(dag, heads, common, left_out, id) && dag.generation(id) == g.0 {
            dag.lemma_reaches_at_height(heads, top, id);
            dag.lemma_reaches_bounded(heads, top, id);
            assert(dag.record_wf(id));
            assert(dag.node(id) == node);
            assert(ids.contains(id));
            if low.contains(node) {
                dag.lemma_lowered_reached(common, top, node);
            }
        }
    }
    assert forall|x: ChangesetId|
        remains(dag, next_heads, low, left_out, x) <==> remains(dag, heads, common, left_out, x)
            && !kept.contains(x) by {
        if remains(dag, next_heads, low, left_out, x) {
            let n = choose|n: ChangesetNode|
                next_heads.contains(n) && dag.is_ancestor(x, #[trigger] n.cs_id);
            dag.lemma_ancestor_generation(x, n.cs_id);
            assert(dag.has_node(n));
            if heads.contains(n) {
                assert(dag.reaches(heads, x));
            } else {
                let k = choose|k: int|
                    0 <= k < kept.len() && dag.is_parent(n.cs_id, #[trigger] kept[k]);
                assert(kept.contains(kept[k]));
                let top_node = ChangesetNode { cs_id: kept[k], generation: g };
                assert(heads.contains(top_node));
                dag.lemma_parent(n.cs_id, kept[k]);
                dag.lemma_transitive(x, n.cs_id, kept[k]);
                assert(dag.is_ancestor(x, top_node.cs_id));
                assert(dag.reaches(heads, x));
            }
            assert(dag.generation(x) < top);
            dag.lemma_lowered_reaches(common, top, x);
        }
        if remains(dag, heads, common, left_out, x) && !kept.contains(x) {
            dag.lemma_reaches_bounded(heads, top, x);
            assert(dag.generation(x) < top);
            let n = choose|n: ChangesetNode|
                heads.contains(n) && dag.is_ancestor(x, #[trigger] n.cs_id);
            assert(dag.has_node(n));
            if n.generation == g {
                assert(n == ChangesetNode { cs_id: n.cs_id, generation: g });
                assert(ids.contains(n.cs_id));
                if !kept.contains(n.cs_id) {
                    if left_out(n.cs_id) {
                        dag.lemma_closed_downward(left_out, x, n.cs_id);
                    } else {
                        dag.lemma_lowered_reached(common, top, n);
                        let c = choose|c: ChangesetNode|
                            common.contains(c) && dag.is_ancestor(n.cs_id, #[trigger] c.cs_id);
                        dag.lemma_transitive(x, n.cs_id, c.cs_id);
                        assert(dag.reaches(common, x));
                    }
                    assert(false);
                }
                let p = dag.lemma_first_step(x, n.cs_id);
                dag.lemma_parent(p, n.cs_id);
                let k = choose|k: int| 0 <= k < kept.len() && kept[k] == n.cs_id;
                assert(is_record_of(dag, kept[k], found[k]));
                let m = choose|m: int|
                    0 <= m < dag.parents(n.cs_id).len() && (#[trigger] dag.parents(
                        n.cs_id,
                    )[m]).cs_id == p;
                let parent = dag.parents(n.cs_id)[m];
                assert(found[k] is Some && found[k]->0.parents@[m] == parent);
                assert(found[k]->0.parents@.contains(parent));
                assert(found_parents(found).contains(parent));
                assert(next_heads.contains(parent));
                assert(dag.is_ancestor(x, parent.cs_id));
                assert(dag.reaches(next_heads, x));
            } else {
                assert(next_heads.contains(n));
                assert(dag.reaches(next_heads, x));
            }
            dag.lemma_lowered_reaches(common, top, x);
        }
    }
}

/// With the highest generation taken out of the heads and the parents of
/// what was kept of it put in, the heads lie in the graph, below that
/// generation.
proof fn lemma_chunk_parents(
    dag: Dag,
    heads: Set<ChangesetNode>,
    g: Generation,
    cs_ids: Seq<ChangesetId>,
    kept: Seq<ChangesetId>,
    found: Seq<Option<ChangesetEdges>>,
    next_heads: Set<ChangesetNode>,
)
    requires
        dag.wf(),
        dag.has_nodes(heads),
        is_highest(heads, g.0),
        is_bucket(heads, g, cs_ids),
        forall|id: ChangesetId| kept.contains(id) ==> cs_ids.contains(id),
        are_records_of(dag, kept, found),
        next_heads == heads.filter(|n: ChangesetNode| n.generation != g).union(
            found_parents(found),
        ),
    ensures
        dag.has_nodes(next_heads),
        height(next_heads) < g.0,
        height(heads) == g.0,
        forall|id: ChangesetId|
            kept.contains(id) ==> dag.contains(id) && dag.generation(id) == g.0,
{
    let top = g.0 as int;
    lemma_height(heads, g.0);
    let some = choose|n: ChangesetNode| heads.contains(n) && #[trigger] n.generation.0 == g.0;
    assert(dag.has_node(some));
    dag.lemma_generation_positive(some.cs_id);
    assert forall|n: ChangesetNode| found_parents(found).contains(n) implies dag.has_node(n)
        && n.generation.0 < top by {
        let k = choose|k: int|
            0 <= k < found.len() && (#[trigger] found[k]) is Some
                && found[k]->0.parents@.contains(n);
        let m = choose|m: int|
            0 <= m < found[k]->0.parents@.len() && found[k]->0.parents@[m] == n;
        assert(is_record_of(dag, kept[k], found[k]));
        assert(dag.record_wf(kept[k]));
        assert(dag.parents(kept[k])[m] == n);
        assert(dag.has_node(dag.parents(kept[k])[m]));
        assert(kept.contains(kept[k]));
        assert(cs_ids.contains(kept[k]));
        assert(dag.has_node(ChangesetNode { cs_id: kept[k], generation: g }));
    }
    assert(dag.has_nodes(next_heads));
    lemma_height_bounded(next_heads, top - 1);
    assert forall|id: ChangesetId| kept.contains(id) implies dag.contains(id) && dag.generation(id)
        == g.0 by {
        assert(cs_ids.contains(id));
        assert(dag.has_node(ChangesetNode { cs_id: id, generation: g }));
    }
}

/// One chunk, for a property that answers as `answer` says.
proof fn lemma_chunk<P: Fn(ChangesetId) -> Result<bool, CommitGraphError>>(
    dag: Dag,
    property: P,
    answer: spec_fn(ChangesetId) -> bool,
    heads: Set<ChangesetNode>,
    common: Set<ChangesetNode>,
    g: Generation,
    cs_ids: Seq<ChangesetId>,
    kept: Seq<ChangesetId>,
    found: Seq<Option<ChangesetEdges>>,
    next_heads: Set<ChangesetNode>,
)
    requires
        dag.wf(),
        dag.has_nodes(heads),
        dag.has_nodes(common),
        answers(property, answer, dag),
        monotonic(answer, dag),
        is_highest(heads, g.0),
        is_bucket(heads, g, cs_ids),
        forall|id: ChangesetId|
            kept.contains(id) <==> cs_ids.contains(id) && !dag.lowered(common, g.0 as int).contains(
                ChangesetNode { cs_id: id, generation: g },
            ) && said_no(property, id),
        forall|id: ChangesetId|
            cs_ids.contains(id) ==> dag.lowered(common, g.0 as int).contains(
                ChangesetNode { cs_id: id, generation: g },
            ) || #[trigger] said_yes(property, id) || said_no(property, id),
        are_records_of(dag, kept, found),
        next_heads == heads.filter(|n: ChangesetNode| n.generation != g).union(
            found_parents(found),
        ),
    ensures
        is_next_chunk(
            dag,
            heads,
            common,
            next_heads,
            dag.lowered(common, g.0 as int),
            answer,
            kept,
        ),
        dag.has_nodes(next_heads),
        height(next_heads) < height(heads),
{
    assert forall|id: ChangesetId|
        kept.contains(id) <==> cs_ids.contains(id) && !dag.lowered(common, g.0 as int).contains(
            ChangesetNode { cs_id: id, generation: g },
        ) && !answer(id) by {
        if cs_ids.contains(id) {
            assert(dag.has_node(ChangesetNode { cs_id: id, generation: g }));
            lemma_answered(property, answer, dag, id);
            assert(dag.lowered(common, g.0 as int).contains(
                ChangesetNode { cs_id: id, generation: g },
            ) || said_yes(property, id) || said_no(property, id));
        }
    }
    lemma_difference_step(dag, heads, common, g, cs_ids, kept, found, next_heads, answer);
}

/// What has been collected after one more chunk.
proof fn lemma_collect_step(
    dag: Dag,
    first_heads: Set<ChangesetNode>,
    first_common: Set<ChangesetNode>,
    heads: Set<ChangesetNode>,
    common: Set<ChangesetNode>,
    next_heads: Set<ChangesetNode>,
    next_common: Set<ChangesetNode>,
    left_out: spec_fn(ChangesetId) -> bool,
    ids: Seq<ChangesetId>,
    chunk: Seq<ChangesetId>,
)
    requires
        is_collected(dag, first_heads, first_common, heads, common, left_out, ids),
        is_next_chunk(dag, heads, common, next_heads, next_common, left_out, chunk),
    ensures
        is_collected(dag, first_heads, first_common, next_heads, next_common, left_out, ids + chunk),
{
    let all = ids + chunk;
    assert forall|x: ChangesetId| all.contains(x) <==> ids.contains(x) || chunk.contains(x) by {
        if all.contains(x) {
            let k = choose|k: int| 0 <= k < all.len() && all[k] == x;
            if k < ids.len() {
                assert(ids[k] == x);
            } else {
                assert(chunk[k - ids.len()] == x);
            }
        }
        if ids.contains(x) {
            let k = choose|k: int| 0 <= k < ids.len() && ids[k] == x;
            assert(all[k] == x);
        }
        if chunk.contains(x) {
            let k = choose|k: int| 0 <= k < chunk.len() && chunk[k] == x;
            assert(all[ids.len() + k] == x);
        }
    }
    assert forall|x: ChangesetId| #[trigger]
        remains(dag, first_heads, first_common, left_out, x) <==> all.contains(x) || remains(
            dag,
            next_heads,
            next_common,
            left_out,
            x,
        ) by {
        assert(remains(dag, next_heads, next_common, left_out, x) <==> remains(
            dag,
            heads,
            common,
            left_out,
            x,
        ) && !chunk.contains(x));
        if chunk.contains(x) {
            assert(remains(dag, heads, common, left_out, x));
        }
    }
    assert forall|x: ChangesetId|
        !(all.contains(x) && #[trigger] remains(dag, next_heads, next_common, left_out, x)) by {
        assert(remains(dag, next_heads, next_common, left_out, x) <==> remains(
            dag,
            heads,
            common,
            left_out,
            x,
        ) && !chunk.contains(x));
    }
}

/// Nothing remains from no heads.
proof fn lemma_nothing_remains(
    dag: Dag,
    common: Set<ChangesetNode>,
    left_out: spec_fn(ChangesetId) -> bool,
    x: ChangesetId,
)
    ensures
        !remains(dag, Set::<ChangesetNode>::empty(), common, left_out, x),
{
    if dag.reaches(Set::<ChangesetNode>::empty(), x) {
        let n = choose|n: ChangesetNode|
            Set::<ChangesetNode>::empty().contains(n) && dag.is_ancestor(x, #[trigger] n.cs_id);
    }
}

/// The ancestors of some heads, less the ancestors of some common changesets
/// and less the changesets of which a property holds, as they come out:
/// chunk by chunk, from the highest generation down.
pub struct AncestorsDifferenceStream<
    'a,
    S: CommitGraphStorage,
    P: Fn(ChangesetId) -> Result<bool, CommitGraphError>,
> {
    /// The graph that is walked.
    pub graph: &'a CommitGraph<S>,
    /// What is handed through to the store.
    pub ctx: &'a S::Context,
    /// What is still to be walked from the heads.
    pub heads: ChangesetFrontier,
    /// The common changesets, lowered as far as the walk has come.
    pub common: ChangesetFrontier,
    /// The property that leaves changesets out.
    pub property: P,
}

impl<'a, S: CommitGraphStorage, P: Fn(ChangesetId) -> Result<bool, CommitGraphError>> AncestorsDifferenceStream<
    'a,
    S,
    P,
> {
    /// The stream walks a graph of commits, its frontiers lie in the graph,
    /// and its property decides.
    pub open spec fn wf(&self) -> bool {
        &&& self.graph.wf()
        &&& self.graph.dag().has_nodes(self.heads@)
        &&& self.graph.dag().has_nodes(self.common@)
        &&& decides(self.property, self.graph.dag())
    }

    /// The changesets that the stream has still to give, where the property
    /// leaves out what `left_out` says.
    pub open spec fn remaining(&self, left_out: spec_fn(ChangesetId) -> bool) -> Set<ChangesetId> {
        remainder(self.graph.dag(), self.heads@, self.common@, left_out)
    }

    /// The next chunk of the stream: of the changesets at the highest
    /// generation still to be walked, those that the common changesets do
    /// not reach and of which the property said no, in ascending order;
    /// `None` when the walk is over. For a property that answers
    /// monotonically the chunk is what remains at that generation.
    #[verifier::rlimit(40)]
    pub fn next_chunk(&mut self) -> (r: Result<Option<Vec<ChangesetId>>, CommitGraphError>)
        requires
            old(self).wf(),
        ensures
            final(self).wf(),
            final(self).graph == old(self).graph,
            final(self).ctx == old(self).ctx,
            final(self).property == old(self).property,
            match r {
                Ok(Some(chunk)) => {
                    &&& ascending(chunk@)
                    &&& forall|id: ChangesetId|
                        #[trigger] chunk@.contains(id) ==> old(self).graph.dag().contains(id) && old(
                            self,
                        ).graph.dag().generation(id) == height(old(self).heads@) && said_no(
                            old(self).property,
                            id,
                        )
                    &&& forall|answer: spec_fn(ChangesetId) -> bool|
                        #[trigger] answers(old(self).property, answer, old(self).graph.dag())
                            && monotonic(answer, old(self).graph.dag()) ==> is_next_chunk(
                            old(self).graph.dag(),
                            old(self).heads@,
                            old(self).common@,
                            final(self).heads@,
                            final(self).common@,
                            answer,
                            chunk@,
                        )
                    &&& height(final(self).heads@) < height(old(self).heads@)
                },
                Ok(None) => {
                    &&& old(self).heads@ == Set::<ChangesetNode>::empty()
                    &&& final(self).heads@ == old(self).heads@
                    &&& final(self).common@ == old(self).common@
                },
                Err(e) => !old(self).graph.infallible() || fails_with(old(self).property, e),
            },
    {
        let ghost dag = self.graph.dag();
        let ghost heads = self.heads@;
        let ghost common = self.common@;
        match self.heads.pop_last() {
            None => Ok(None),
            Some((g, cs_ids)) => {
                match self.graph.lower_frontier(self.ctx, &mut self.common, g) {
                    Ok(_) => {},
                    Err(e) => {
                        return Err(e);
                    },
                }
                let mut kept: Vec<ChangesetId> = Vec::new();
                let mut i: usize = 0;
                while i < cs_ids.len()
                    invariant
                        i <= cs_ids.len(),
                        self.wf(),
                        self.graph.dag() == dag,
                        self.property == old(self).property,
                        self.graph == old(self).graph,
                        self.ctx == old(self).ctx,
                        self.common@ == dag.lowered(common, g.0 as int),
                        is_bucket(heads, g, cs_ids@),
                        dag.has_nodes(heads),
                        ascending(kept@),
                        forall|k: int|
                            0 <= k < kept.len() ==> cs_ids@.subrange(0, i as int).contains(
                                #[trigger] kept[k],
                            ),
                        forall|id: ChangesetId|
                            kept@.contains(id) <==> cs_ids@.subrange(0, i as int).contains(id)
                                && !self.common@.contains(
                                ChangesetNode { cs_id: id, generation: g },
                            ) && said_no(self.property, id),
                        forall|id: ChangesetId|
                            cs_ids@.subrange(0, i as int).contains(id) ==> self.common@.contains(
                                ChangesetNode { cs_id: id, generation: g },
                            ) || #[trigger] said_yes(self.property, id) || said_no(
                                self.property,
                                id,
                            ),
                    decreases cs_ids.len() - i,
                {
                    let cs_id = cs_ids[i];
                    let ghost seen = cs_ids@.subrange(0, i as int);
                    let ghost longer = cs_ids@.subrange(0, i + 1);
                    let ghost before = kept@;
                    proof {
                        assert(cs_ids@.contains(cs_id));
                        assert(dag.has_node(ChangesetNode { cs_id, generation: g }));
                        assert(can_ask(self.property, cs_id));
                        assert(longer =~= seen.push(cs_id));
                        lemma_one_answer(self.property, dag, cs_id);
                    }
                    let mut keep = false;
                    if !self.common.highest_generation_contains(cs_id, g) {
                        match (self.property)(cs_id) {
                            Ok(answer) => {
                                keep = !answer;
                                proof {
                                    assert(if answer {
                                        said_yes(self.property, cs_id)
                                    } else {
                                        said_no(self.property, cs_id)
                                    });
                                }
                            },
                            Err(e) => {
                                return Err(e);
                            },
                        }
                    }
                    if keep {
                        proof {
                            assert forall|k: int| 0 <= k < kept.len() implies kept[k].precedes(
                                cs_id,
                            ) by {
                                let c = choose|c: int| 0 <= c < seen.len() && seen[c] == kept[k];
                                assert(cs_ids[c].precedes(cs_ids[i as int]));
                            }
                        }
                        kept.push(cs_id);
                    }
                    proof {
                        assert forall|k: int| 0 <= k < kept.len() implies longer.contains(
                            #[trigger] kept[k],
                        ) by {
                            if k < before.len() {
                                let c = choose|c: int| 0 <= c < seen.len() && seen[c] == before[k];
                                assert(longer[c] == kept[k]);
                            } else {
                                assert(longer[i as int] == kept[k]);
                            }
                        }
                        assert forall|id: ChangesetId|
                            longer.contains(id) implies self.common@.contains(
                            ChangesetNode { cs_id: id, generation: g },
                        ) || #[trigger] said_yes(self.property, id) || said_no(
                            self.property,
                            id,
                        ) by {
                            let c = choose|c: int| 0 <= c < longer.len() && longer[c] == id;
                            if c < i {
                                assert(seen[c] == id);
                                assert(seen.contains(id));
                            }
                        }
                        assert forall|id: ChangesetId|
                            kept@.contains(id) <==> longer.contains(id) && !self.common@.contains(
                                ChangesetNode { cs_id: id, generation: g },
                            ) && said_no(self.property, id) by {
                            if kept@.contains(id) {
                                let k = choose|k: int| 0 <= k < kept.len() && kept[k] == id;
                                if k < before.len() {
                                    assert(before.contains(id));
                                    let c = choose|c: int| 0 <= c < seen.len() && seen[c] == id;
                                    assert(longer[c] == id);
                                } else {
                                    assert(longer[i as int] == id);
                                }
                            }
                            if longer.contains(id) && !self.common@.contains(
                                ChangesetNode { cs_id: id, generation: g },
                            ) && said_no(self.property, id) {
                                let c = choose|c: int| 0 <= c < longer.len() && longer[c] == id;
                                if c < i {
                                    assert(seen[c] == id);
                                    assert(before.contains(id));
                                    let k = choose|k: int| 0 <= k < before.len() && before[k] == id;
                                    assert(kept[k] == id);
                                } else {
                                    assert(kept[kept.len() - 1] == id);
                                }
                            }
                        }
                    }
                    i += 1;
                }
                proof {
                    assert(cs_ids@.subrange(0, i as int) =~= cs_ids@);
                }
                let found = match self.graph.storage.fetch_many_edges(
                    self.ctx,
                    &kept,
                    Prefetch::for_p1_linear_traversal(),
                ) {
                    Ok(found) => found,
                    Err(e) => {
                        return Err(e);
                    },
                };
                insert_found_parents(&mut self.heads, &found);
                proof {
                    lemma_chunk_parents(dag, heads, g, cs_ids@, kept@, found@, self.heads@);
                    dag.lemma_lowered_has_nodes(common, g.0 as int);
                    assert forall|answer: spec_fn(ChangesetId) -> bool| #[trigger]
                        answers(self.property, answer, dag) && monotonic(
                            answer,
                            dag,
                        ) implies is_next_chunk(
                        dag,
                        heads,
                        common,
                        self.heads@,
                        self.common@,
                        answer,
                        kept@,
                    ) by {
                        lemma_chunk(
                            dag,
                            self.property,
                            answer,
                            heads,
                            common,
                            g,
                            cs_ids@,
                            kept@,
                            found@,
                            self.heads@,
                        );
                    }
                }
                Ok(Some(kept))
            },
        }
    }

    /// Everything that the stream has still to give, in the order in which
    /// it gives it.
    pub fn collect(&mut self) -> (r: Result<Vec<ChangesetId>, CommitGraphError>)
        requires
            old(self).wf(),
        ensures
            final(self).wf(),
            final(self).graph == old(self).graph,
            final(self).ctx == old(self).ctx,
            final(self).property == old(self).property,
            match r {
                Ok(ids) => {
                    &&& ids@.no_duplicates()
                    &&& descending_generations(old(self).graph.dag(), ids@)
                    &&& forall|x: ChangesetId|
                        #[trigger] ids@.contains(x) ==> old(self).graph.dag().contains(x)
                            && said_no(old(self).property, x)
                    &&& forall|answer: spec_fn(ChangesetId) -> bool|
                        #[trigger] answers(old(self).property, answer, old(self).graph.dag())
                            && monotonic(answer, old(self).graph.dag()) ==> ids@.to_set() == old(
                            self,
                        ).remaining(answer)
                    &&& final(self).heads@ == Set::<ChangesetNode>::empty()
                },
                Err(e) => !old(self).graph.infallible() || fails_with(old(self).property, e),
            },
    {
        let ghost dag = self.graph.dag();
        let ghost first_heads = self.heads@;
        let ghost first_common = self.common@;
        let mut ids: Vec<ChangesetId> = Vec::new();
        loop
            invariant
                self.wf(),
                self.graph == old(self).graph,
                self.ctx == old(self).ctx,
                self.property == old(self).property,
                dag == self.graph.dag(),
                first_heads == old(self).heads@,
                first_common == old(self).common@,
                ids@.no_duplicates(),
                descending_generations(dag, ids@),
                forall|i: int|
                    0 <= i < ids.len() ==> dag.generation(#[trigger] ids[i]) > height(self.heads@),
                forall|x: ChangesetId|
                    #[trigger] ids@.contains(x) ==> dag.contains(x) && said_no(self.property, x),
                forall|answer: spec_fn(ChangesetId) -> bool|
                    #[trigger] answers(self.property, answer, dag) && monotonic(answer, dag)
                        ==> is_collected(
                        dag,
                        first_heads,
                        first_common,
                        self.heads@,
                        self.common@,
                        answer,
                        ids@,
                    ),
            decreases height(self.heads@),
        {
            let ghost before = ids@;
            let ghost heads = self.heads@;
            let ghost common = self.common@;
            let ghost top = height(self.heads@);
            match self.next_chunk() {
                Err(e) => {
                    return Err(e);
                },
                Ok(None) => {
                    proof {
                        assert forall|answer: spec_fn(ChangesetId) -> bool| #[trigger]
                            answers(self.property, answer, dag) && monotonic(
                                answer,
                                dag,
                            ) implies ids@.to_set() == old(self).remaining(answer) by {
                            assert forall|x: ChangesetId|
                                ids@.to_set().contains(x) <==> old(self).remaining(
                                    answer,
                                ).contains(x) by {
                                lemma_nothing_remains(dag, common, answer, x);
                                assert(remains(dag, first_heads, first_common, answer, x)
                                    <==> ids@.contains(x) || remains(
                                    dag,
                                    heads,
                                    common,
                                    answer,
                                    x,
                                ));
                            }
                            assert(ids@.to_set() =~= old(self).remaining(answer));
                        }
                    }
                    return Ok(ids);
                },
                Ok(Some(chunk)) => {
                    let mut chunk = chunk;
                    let ghost added = chunk@;
                    ids.append(&mut chunk);
                    proof {
                        assert(ids@ == before + added);
                        assert forall|i: int| 0 <= i < ids.len() implies dag.generation(
                            #[trigger] ids[i],
                        ) > height(self.heads@) && (i >= before.len() ==> dag.generation(ids[i])
                            == top) && dag.contains(ids[i]) && said_no(self.property, ids[i]) by {
                            if i >= before.len() {
                                assert(ids[i] == added[i - before.len()]);
                                assert(added.contains(added[i - before.len()]));
                            } else {
                                assert(ids[i] == before[i]);
                                assert(before.contains(before[i]));
                                assert(dag.generation(before[i]) > top);
                            }
                        }
                        assert forall|i: int, j: int| 0 <= i < j < ids.len() implies ids[i]
                            != ids[j] && dag.generation(ids[i]) >= dag.generation(ids[j]) by {
                            if j < before.len() {
                                assert(dag.generation(before[i]) >= dag.generation(before[j]));
                            } else if i < before.len() {
                                assert(dag.generation(before[i]) > top);
                                assert(dag.generation(ids[j]) == top);
                            } else {
                                assert(added[i - before.len()].precedes(added[j - before.len()]));
                                assert(dag.generation(ids[i]) == top);
                                assert(dag.generation(ids[j]) == top);
                            }
                        }
                        assert forall|x: ChangesetId| #[trigger] ids@.contains(x) implies dag.contains(x)
                            && said_no(self.property, x) by {
                            let k = choose|k: int| 0 <= k < ids.len() && ids[k] == x;
                            assert(dag.contains(ids[k]));
                        }
                        assert forall|answer: spec_fn(ChangesetId) -> bool| #[trigger]
                            answers(self.property, answer, dag) && monotonic(
                                answer,
                                dag,
                            ) implies is_collected(
                            dag,
                            first_heads,
                            first_common,
                            self.heads@,
                            self.common@,
                            answer,
                            ids@,
                        ) by {
                            lemma_collect_step(
                                dag,
                                first_heads,
                                first_common,
                                heads,
                                common,
                                self.heads@,
                                self.common@,
                                answer,
                                before,
                                added,
                            );
                        }
                    }
                },
            }
        }
    }
}

impl<S: CommitGraphStorage> CommitGraph<S> {
    /// The stream of the ancestors of `heads` that are not ancestors of
    /// `common` and of which `property` does not hold.
    pub fn ancestors_difference_stream_with<
        'a,
        P: Fn(ChangesetId) -> Result<bool, CommitGraphError>,
    >(
        &'a self,
        ctx: &'a S::Context,
        heads: Vec<ChangesetId>,
        common: Vec<ChangesetId>,
        property: P,
    ) -> (r: Result<AncestorsDifferenceStream<'a, S, P>, CommitGraphError>)
        requires
            self.wf(),
            decides(property, self.dag()),
        ensures
            match r {
                Ok(stream) => {
                    &&& stream.wf()
                    &&& *stream.graph == *self
                    &&& *stream.ctx == *ctx
                    &&& stream.property == property
                    &&& stream.heads@ == self.dag().nodes_of(heads@)
                    &&& stream.common@ == self.dag().nodes_of(common@)
                    &&& forall|left_out: spec_fn(ChangesetId) -> bool|
                        #[trigger] stream.remaining(left_out) == difference_with(
                            self.dag(),
                            heads@,
                            common@,
                            left_out,
                        )
                },
                Err(e) => {
                    ||| !self.infallible()
                    ||| reports_missing(self.dag(), heads@, e)
                    ||| reports_missing(self.dag(), common@, e)
                },
            },
    {
        let heads_frontier = self.frontier(ctx, &heads)?;
        let common_frontier = self.frontier(ctx, &common)?;
        let stream = AncestorsDifferenceStream {
            graph: self,
            ctx,
            heads: heads_frontier,
            common: common_frontier,
            property,
        };
        proof {
            let dag = self.dag();
            assert forall|left_out: spec_fn(ChangesetId) -> bool| #[trigger]
                stream.remaining(left_out) == difference_with(dag, heads@, common@, left_out) by {
                assert forall|x: ChangesetId|
                    stream.remaining(left_out).contains(x) <==> difference_with(
                        dag,
                        heads@,
                        common@,
                        left_out,
                    ).contains(x) by {
                    dag.lemma_nodes_of_reaches(heads@, x);
                    dag.lemma_nodes_of_reaches(common@, x);
                }
                assert(stream.remaining(left_out) =~= difference_with(
                    dag,
                    heads@,
                    common@,
                    left_out,
                ));
            }
        }
        Ok(stream)
    }

    /// The stream of the ancestors of `heads` that are not ancestors of `common`.
    pub fn ancestors_difference_stream<'a>(
        &'a self,
        ctx: &'a S::Context,
        heads: Vec<ChangesetId>,
        common: Vec<ChangesetId>,
    ) -> (r: Result<
        AncestorsDifferenceStream<'a, S, impl Fn(ChangesetId) -> Result<bool, CommitGraphError>>,
        CommitGraphError,
    >)
        requires
            self.wf(),
        ensures
            match r {
                Ok(stream) => {
                    &&& stream.wf()
                    &&& *stream.graph == *self
                    &&& *stream.ctx == *ctx
                    &&& forall|e: CommitGraphError| !fails_with(stream.property, e)
                    &&& answers(stream.property, nothing(), self.dag())
                    &&& stream.remaining(nothing()) == self.dag().difference(heads@, common@)
                },
                Err(e) => {
                    ||| !self.infallible()
                    ||| reports_missing(self.dag(), heads@, e)
                    ||| reports_missing(self.dag(), common@, e)
                },
            },
    {
        let property = never();
        proof {
            assert(difference_with(self.dag(), heads@, common@, nothing()) =~= self.dag().difference(
                heads@,
                common@,
            ));
        }
        self.ancestors_difference_stream_with(ctx, heads, common, property)
    }

    /// The ancestors of `heads` that are not ancestors of `common` and of
    /// which `property` said no, each once, from the highest generation
    /// down. For a property that answers monotonically these are the
    /// ancestors of `heads` that are not ancestors of `common` and of which
    /// the property does not hold.
    pub fn ancestors_difference_with<P: Fn(ChangesetId) -> Result<bool, CommitGraphError>>(
        &self,
        ctx: &S::Context,
        heads: Vec<ChangesetId>,
        common: Vec<ChangesetId>,
        property: P,
    ) -> (r: Result<Vec<ChangesetId>, CommitGraphError>)
        requires
            self.wf(),
            decides(property, self.dag()),
        ensures
            match r {
                Ok(ids) => {
                    &&& ids@.no_duplicates()
                    &&& descending_generations(self.dag(), ids@)
                    &&& forall|x: ChangesetId|
                        #[trigger] ids@.contains(x) ==> self.dag().contains(x) && said_no(
                            property,
                            x,
                        )
                    &&& forall|answer: spec_fn(ChangesetId) -> bool|
                        #[trigger] answers(property, answer, self.dag()) && monotonic(
                            answer,
                            self.dag(),
                        ) ==> ids@.to_set() == difference_with(
                            self.dag(),
                            heads@,
                            common@,
                            answer,
                        )
                },
                Err(e) => {
                    ||| !self.infallible()
                    ||| reports_missing(self.dag(), heads@, e)
                    ||| reports_missing(self.dag(), common@, e)
                    ||| fails_with(property, e)
                },
            },
    {
        let mut stream = self.ancestors_difference_stream_with(ctx, heads, common, property)?;
        let ghost first = stream;
        let ids = stream.collect()?;
        proof {
            assert forall|answer: spec_fn(ChangesetId) -> bool| #[trigger]
                answers(property, answer, self.dag()) && monotonic(
                    answer,
                    self.dag(),
                ) implies ids@.to_set() == difference_with(
                self.dag(),
                heads@,
                common@,
                answer,
            ) by {
                assert(first.remaining(answer) == difference_with(
                    self.dag(),
                    heads@,
                    common@,
                    answer,
                ));
            }
        }
        Ok(ids)
    }

    /// The ancestors of `heads` that are not ancestors of `common`, each
    /// once, from the highest generation down.
    pub fn ancestors_difference(
        &self,
        ctx: &S::Context,
        heads: Vec<ChangesetId>,
        common: Vec<ChangesetId>,
    ) -> (r: Result<Vec<ChangesetId>, CommitGraphError>)
        requires
            self.wf(),
        ensures
            match r {
                Ok(ids) => {
                    &&& ids@.no_duplicates()
                    &&& ids@.to_set() == self.dag().difference(heads@, common@)
                    &&& descending_generations(self.dag(), ids@)
                },
                Err(e) => {
                    ||| !self.infallible()
                    ||| reports_missing(self.dag(), heads@, e)
                    ||| reports_missing(self.dag(), common@, e)
                },
            },
    {
        let mut stream = self.ancestors_difference_stream(ctx, heads, common)?;
        let ghost first = stream;
        let ids = stream.collect()?;
        proof {
            assert(monotonic(nothing(), self.dag()));
            assert(answers(first.property, nothing(), self.dag()));
            assert(ids@.to_set() == first.remaining(nothing()));
        }
        Ok(ids)
    }
}

} // verus!
