//! The common base of two changesets: their greatest common ancestors.

use crate::dag::Dag;
use crate::frontier::{
    ascending, at_both_heights, height, is_highest, lemma_height, lemma_height_bounded,
};
use crate::graph::CommitGraph;
use crate::ids::{ChangesetId, ChangesetNode, Generation};
use crate::storage::{CommitGraphError, CommitGraphStorage};
use vstd::prelude::*;

verus! {

/// The two frontiers reach, between them, exactly the common ancestors of
/// `u` and `v`.
pub open spec fn frames_common_ancestors(
    dag: Dag,
    a: Set<ChangesetNode>,
    b: Set<ChangesetNode>,
    u: ChangesetId,
    v: ChangesetId,
) -> bool {
    forall|x: ChangesetId|
        (dag.reaches(a, x) && dag.reaches(b, x)) <==> #[trigger] dag.is_common_ancestor(x, u, v)
}

/// Lowering the second frontier to the height of the first loses no common ancestor.
proof fn lemma_level_second(
    dag: Dag,
    a: Set<ChangesetNode>,
    b: Set<ChangesetNode>,
    g: Generation,
    u: ChangesetId,
    v: ChangesetId,
)
    requires
        dag.wf(),
        dag.has_nodes(a),
        dag.has_nodes(b),
        is_highest(a, g.0),
        frames_common_ancestors(dag, a, b, u, v),
    ensures
        frames_common_ancestors(dag, a, dag.lowered(b, g.0 as int), u, v),
{
    let low = dag.lowered(b, g.0 as int);
    assert forall|x: ChangesetId|
        (dag.reaches(a, x) && dag.reaches(low, x)) <==> #[trigger] dag.is_common_ancestor(
            x,
            u,
            v,
        ) by {
        dag.lemma_lowered_reaches(b, g.0 as int, x);
        if dag.reaches(a, x) {
            dag.lemma_reaches_bounded(a, g.0 as int, x);
        }
    }
}

/// Where the two frontiers meet at their common height, what they share
/// there is the common base.
proof fn lemma_meeting(
    dag: Dag,
    a: Set<ChangesetNode>,
    b: Set<ChangesetNode>,
    g: Generation,
    u: ChangesetId,
    v: ChangesetId,
    c: ChangesetId,
)
    requires
        dag.wf(),
        dag.has_nodes(a),
        dag.has_nodes(b),
        is_highest(a, g.0),
        forall|n: ChangesetNode| b.contains(n) ==> n.generation.0 <= g.0,
        frames_common_ancestors(dag, a, b, u, v),
    ensures
        at_both_heights(a, b, c) ==> dag.is_common_base(c, u, v),
        dag.is_common_ancestor(c, u, v) && dag.generation(c) == g.0 ==> at_both_heights(a, b, c),
        dag.is_common_ancestor(c, u, v) ==> dag.generation(c) <= g.0,
{
    if at_both_heights(a, b, c) {
        let h = choose|h: u64|
            #[trigger] is_highest(a, h) && is_highest(b, h) && a.contains(
                ChangesetNode { cs_id: c, generation: Generation(h) },
            ) && b.contains(ChangesetNode { cs_id: c, generation: Generation(h) });
        lemma_height(a, h);
        lemma_height(a, g.0);
        let node = ChangesetNode { cs_id: c, generation: g };
        assert(dag.has_node(node));
        dag.lemma_reflexive(c);
        assert(dag.reaches(a, c) && dag.reaches(b, c));
        assert(dag.is_common_ancestor(c, u, v));
        assert forall|d: ChangesetId| #[trigger]
            dag.is_common_ancestor(d, u, v) implies dag.generation(d) <= dag.generation(c) by {
            dag.lemma_reaches_bounded(a, g.0 as int, d);
        }
    }
    if dag.is_common_ancestor(c, u, v) {
        dag.lemma_reaches_bounded(a, g.0 as int, c);
        if dag.generation(c) == g.0 {
            dag.lemma_reaches_at_height(a, g.0 as int, c);
            dag.lemma_reaches_at_height(b, g.0 as int, c);
            assert(dag.record_wf(c));
            assert(dag.node(c) == ChangesetNode { cs_id: c, generation: g });
            assert(is_highest(b, g.0));
        }
    }
}

/// Where both frontiers, lowered to `t`, share no node, they have lost no
/// common ancestor.
proof fn lemma_jump(
    dag: Dag,
    a: Set<ChangesetNode>,
    b: Set<ChangesetNode>,
    t: Generation,
    u: ChangesetId,
    v: ChangesetId,
)
    requires
        dag.wf(),
        dag.has_nodes(a),
        dag.has_nodes(b),
        t.0 >= 1,
        frames_common_ancestors(dag, a, b, u, v),
        dag.lowered(a, t.0 as int).disjoint(dag.lowered(b, t.0 as int)),
    ensures
        frames_common_ancestors(dag, dag.lowered(a, t.0 as int), dag.lowered(b, t.0 as int), u, v),
{
    let low_a = dag.lowered(a, t.0 as int);
    let low_b = dag.lowered(b, t.0 as int);
    dag.lemma_lowered_has_nodes(a, t.0 as int);
    dag.lemma_lowered_has_nodes(b, t.0 as int);
    assert forall|x: ChangesetId|
        (dag.reaches(low_a, x) && dag.reaches(low_b, x)) <==> #[trigger] dag.is_common_ancestor(
            x,
            u,
            v,
        ) by {
        dag.lemma_lowered_reaches(a, t.0 as int, x);
        dag.lemma_lowered_reaches(b, t.0 as int, x);
        if dag.is_common_ancestor(x, u, v) && dag.generation(x) > t.0 {
            assert(dag.reaches(a, x) && dag.reaches(b, x));
            let in_a = choose|n: ChangesetNode| a.contains(n) && dag.is_ancestor(x, #[trigger] n.cs_id);
            let in_b = choose|n: ChangesetNode| b.contains(n) && dag.is_ancestor(x, #[trigger] n.cs_id);
            dag.lemma_ancestor_generation(x, in_a.cs_id);
            let w = dag.lemma_level(x, t.0 as int);
            dag.lemma_transitive(w, x, in_a.cs_id);
            dag.lemma_transitive(w, x, in_b.cs_id);
            assert(dag.reaches(a, w) && dag.reaches(b, w));
            dag.lemma_lowered_reaches(a, t.0 as int, w);
            dag.lemma_lowered_reaches(b, t.0 as int, w);
            dag.lemma_reaches_at_height(low_a, t.0 as int, w);
            dag.lemma_reaches_at_height(low_b, t.0 as int, w);
            assert(low_a.contains(dag.node(w)) && low_b.contains(dag.node(w)));
            assert(false);
        }
    }
}

/// With no common ancestor at the height of the first frontier, one wave of
/// lowering it loses none.
proof fn lemma_slow_step(
    dag: Dag,
    a: Set<ChangesetNode>,
    b: Set<ChangesetNode>,
    g: Generation,
    u: ChangesetId,
    v: ChangesetId,
)
    requires
        dag.wf(),
        dag.has_nodes(a),
        dag.has_nodes(b),
        is_highest(a, g.0),
        frames_common_ancestors(dag, a, b, u, v),
        forall|c: ChangesetId|
            #[trigger] dag.is_common_ancestor(c, u, v) ==> dag.generation(c) != g.0,
    ensures
        frames_common_ancestors(dag, dag.lowered(a, g.0 - 1), b, u, v),
{
    let low = dag.lowered(a, g.0 - 1);
    assert forall|x: ChangesetId|
        (dag.reaches(low, x) && dag.reaches(b, x)) <==> #[trigger] dag.is_common_ancestor(
            x,
            u,
            v,
        ) by {
        dag.lemma_lowered_reaches(a, g.0 - 1, x);
        if dag.reaches(a, x) {
            dag.lemma_reaches_bounded(a, g.0 as int, x);
        }
    }
}

impl<S: CommitGraphStorage> CommitGraph<S> {
    /// The common base of `u` and `v`: of the changesets that are ancestors
    /// of both, those of the highest generation, in ascending order. Empty
    /// where `u` and `v` share no ancestor.
    #[verifier::rlimit(40)]
    pub fn common_base(&self, ctx: &S::Context, u: ChangesetId, v: ChangesetId) -> (r: Result<
        Vec<ChangesetId>,
        CommitGraphError,
    >)
        requires
            self.wf(),
        ensures
            match r {
                Ok(ids) => {
                    &&& self.dag().contains(u)
                    &&& self.dag().contains(v)
                    &&& ascending(ids@)
                    &&& forall|c: ChangesetId|
                        ids@.contains(c) <==> self.dag().is_common_base(c, u, v)
                },
                Err(e) => {
                    ||| !self.infallible()
                    ||| (e == CommitGraphError::MissingChangeset(u) && !self.dag().contains(u))
                    ||| (e == CommitGraphError::MissingChangeset(v) && !self.dag().contains(v))
                },
            },
    {
        let mut u_frontier = self.single_frontier(ctx, u)?;
        let mut v_frontier = self.single_frontier(ctx, v)?;
        let ghost dag = self.dag();
        proof {
            assert(dag.record_wf(u));
            assert(dag.record_wf(v));
            assert forall|x: ChangesetId|
                (dag.reaches(u_frontier@, x) && dag.reaches(v_frontier@, x))
                    <==> #[trigger] dag.is_common_ancestor(x, u, v) by {
                if dag.reaches(u_frontier@, x) {
                    let n = choose|n: ChangesetNode|
                        u_frontier@.contains(n) && dag.is_ancestor(x, #[trigger] n.cs_id);
                }
                if dag.reaches(v_frontier@, x) {
                    let n = choose|n: ChangesetNode|
                        v_frontier@.contains(n) && dag.is_ancestor(x, #[trigger] n.cs_id);
                }
                if dag.is_common_ancestor(x, u, v) {
                    assert(u_frontier@.contains(dag.node(u)));
                    assert(v_frontier@.contains(dag.node(v)));
                }
            }
        }
        loop
            invariant
                self.wf(),
                dag == self.dag(),
                dag.contains(u),
                dag.contains(v),
                dag.has_nodes(u_frontier@),
                dag.has_nodes(v_frontier@),
                frames_common_ancestors(dag, u_frontier@, v_frontier@, u, v),
            decreases height(u_frontier@),
        {
            let (u_gen, top_ids) = match u_frontier.last_key_value() {
                Some((g, ids)) => (g, ids),
                None => {
                    // With nothing left above, there is no common ancestor.
                    let none: Vec<ChangesetId> = Vec::new();
                    proof {
                        assert forall|c: ChangesetId| !dag.is_common_base(c, u, v) by {
                            if dag.is_common_ancestor(c, u, v) {
                                assert(dag.reaches(u_frontier@, c));
                                let n = choose|n: ChangesetNode|
                                    u_frontier@.contains(n) && dag.is_ancestor(
                                        c,
                                        #[trigger] n.cs_id,
                                    );
                            }
                        }
                    }
                    return Ok(none);
                },
            };
            let ghost a = u_frontier@;
            let ghost b = v_frontier@;
            proof {
                lemma_height(a, u_gen.0);
                lemma_level_second(dag, a, b, u_gen, u, v);
            }
            // Lower the other frontier to the height of this one.
            match self.lower_frontier(ctx, &mut v_frontier, u_gen) {
                Ok(_) => {},
                Err(e) => {
                    return Err(e);
                },
            }
            let ghost b = v_frontier@;
            proof {
                dag.lemma_lowered_has_nodes(b, u_gen.0 as int);
            }
            // Where the two meet at this height, what they share is the answer.
            let intersection = u_frontier.highest_generation_intersection(&v_frontier);
            if intersection.len() > 0 {
                proof {
                    assert forall|c: ChangesetId|
                        intersection@.contains(c) <==> dag.is_common_base(c, u, v) by {
                        lemma_meeting(dag, a, b, u_gen, u, v, c);
                        let first = intersection@[0];
                        assert(intersection@.contains(first));
                        lemma_meeting(dag, a, b, u_gen, u, v, first);
                        if dag.is_common_base(c, u, v) {
                            assert(dag.is_common_ancestor(first, u, v));
                        }
                    }
                }
                return Ok(intersection);
            }
            proof {
                assert forall|c: ChangesetId| #[trigger]
                    dag.is_common_ancestor(c, u, v) implies dag.generation(c) != u_gen.0 by {
                    lemma_meeting(dag, a, b, u_gen, u, v, c);
                    if dag.generation(c) == u_gen.0 {
                        assert(intersection@.contains(c));
                    }
                }
                let some = choose|n: ChangesetNode| a.contains(n) && #[trigger] n.generation.0 == u_gen.0;
                assert(a.contains(ChangesetNode { cs_id: some.cs_id, generation: u_gen }));
                assert(top_ids@.contains(some.cs_id));
            }
            let top_id = top_ids[0];
            proof {
                assert(top_ids@.contains(top_id));
                assert(dag.has_node(ChangesetNode { cs_id: top_id, generation: u_gen }));
            }
            let top_edges = match self.storage.fetch_edges_required(ctx, top_id) {
                Ok(edges) => edges,
                Err(e) => {
                    return Err(e);
                },
            };
            // Try the long jump: lower both frontiers to the generation of
            // the skip ancestor, and keep the result if they share nothing.
            let mut jumped = false;
            if let Some(ancestor) = top_edges.skip_tree_skew_ancestor {
                let mut lowered_u = u_frontier.clone();
                let mut lowered_v = v_frontier.clone();
                match self.lower_frontier(ctx, &mut lowered_u, ancestor.generation) {
                    Ok(_) => {},
                    Err(e) => {
                        return Err(e);
                    },
                }
                match self.lower_frontier(ctx, &mut lowered_v, ancestor.generation) {
                    Ok(_) => {},
                    Err(e) => {
                        return Err(e);
                    },
                }
                if lowered_u.is_disjoint(&lowered_v) {
                    proof {
                        assert(dag.record_wf(top_id));
                        assert(dag.has_node(ancestor));
                        dag.lemma_generation_positive(ancestor.cs_id);
                        lemma_jump(dag, a, b, ancestor.generation, u, v);
                        dag.lemma_lowered_has_nodes(a, ancestor.generation.0 as int);
                        lemma_height_bounded(lowered_u@, ancestor.generation.0 as int);
                    }
                    u_frontier = lowered_u;
                    v_frontier = lowered_v;
                    jumped = true;
                }
            }
            if !jumped {
                // Lower only the highest generation.
                match self.lower_frontier_highest_generation(ctx, &mut u_frontier) {
                    Ok(_) => {},
                    Err(e) => {
                        return Err(e);
                    },
                }
                proof {
                    assert(a != Set::<ChangesetNode>::empty()) by {
                        let some = choose|n: ChangesetNode|
                            a.contains(n) && #[trigger] n.generation.0 == u_gen.0;
                        assert(a.contains(some));
                    }
                    lemma_slow_step(dag, a, b, u_gen, u, v);
                }
            }
        }
    }
}

} // verus!
