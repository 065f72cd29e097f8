//! The frontier of the ancestors of which a property holds: on every way
//! down from the heads, the first changeset of which it holds.

use crate::dag::Dag;
use crate::frontier::{
    ascending, height, is_bucket, is_highest, lemma_height, lemma_height_bounded, ChangesetFrontier,
};
use crate::graph::CommitGraph;
use crate::ids::{ChangesetEdges, ChangesetId, ChangesetNode, Generation};
use crate::lowering::{all_parents, insert_parents};
use crate::property::{
    answers, can_ask, decides, fails_with, lemma_answered, lemma_one_answer, monotonic, said_no,
    said_yes,
};
use crate::storage::{
    are_required_records_of, is_record_of, reports_missing, CommitGraphError, CommitGraphStorage,
    Prefetch,
};
use vstd::prelude::*;

verus! {

/// `x` is a head, or a parent of an ancestor of the heads that is not in
/// `members` and whose generation is `above` at least.
pub open spec fn is_met(
    dag: Dag,
    heads: Seq<ChangesetId>,
    members: spec_fn(ChangesetId) -> bool,
    above: int,
    x: ChangesetId,
) -> bool {
    heads.contains(x) || exists|c: ChangesetId|
        #[trigger] dag.is_parent(x, c) && dag.is_ancestor_of_any(c, heads) && !members(c)
            && dag.generation(c) >= above
}

/// `x` is on the frontier of `members`: a changeset in `members` that is a
/// head, or a parent of an ancestor of the heads that is not in `members`.
pub open spec fn on_frontier(
    dag: Dag,
    heads: Seq<ChangesetId>,
    members: spec_fn(ChangesetId) -> bool,
    x: ChangesetId,
) -> bool {
    dag.contains(x) && members(x) && is_met(dag, heads, members, 0, x)
}

/// What the walk has in hand when everything at `above` or higher has been
/// walked: the changesets below `above` that it has met.
pub open spec fn in_hand(
    dag: Dag,
    heads: Seq<ChangesetId>,
    members: spec_fn(ChangesetId) -> bool,
    above: int,
) -> Set<ChangesetNode> {
    Set::new(
        |n: ChangesetNode|
            dag.has_node(n) && n.generation.0 < above && is_met(dag, heads, members, above, n.cs_id),
    )
}

/// What is met is an ancestor of the heads.
proof fn lemma_met_is_ancestor(
    dag: Dag,
    heads: Seq<ChangesetId>,
    members: spec_fn(ChangesetId) -> bool,
    above: int,
    x: ChangesetId,
)
    requires
        dag.wf(),
        dag.contains(x),
        is_met(dag, heads, members, above, x),
    ensures
        dag.is_ancestor_of_any(x, heads),
{
    if heads.contains(x) {
        let i = choose|i: int| 0 <= i < heads.len() && heads[i] == x;
        dag.lemma_reflexive(x);
        assert(dag.is_ancestor(x, heads[i]));
    } else {
        let c = choose|c: ChangesetId|
            #[trigger] dag.is_parent(x, c) && dag.is_ancestor_of_any(c, heads) && !members(c)
                && dag.generation(c) >= above;
        let i = choose|i: int| 0 <= i < heads.len() && dag.is_ancestor(c, #[trigger] heads[i]);
        dag.lemma_parent(x, c);
        dag.lemma_transitive(x, c, heads[i]);
    }
}

/// On the way down from `x`, an ancestor of the heads outside `members`, to
/// `c` below `above`, also outside `members`, there is a node in hand.
proof fn lemma_in_hand_cuts(
    dag: Dag,
    heads: Seq<ChangesetId>,
    members: spec_fn(ChangesetId) -> bool,
    above: int,
    x: ChangesetId,
    c: ChangesetId,
) -> (m: ChangesetNode)
    requires
        dag.wf(),
        forall|p: ChangesetId, c: ChangesetId|
            #[trigger] dag.is_parent(p, c) && members(c) ==> members(p),
        dag.is_ancestor(c, x),
        !members(c),
        dag.generation(c) < above,
        dag.is_ancestor_of_any(x, heads),
        dag.generation(x) >= above || in_hand(dag, heads, members, above).contains(dag.node(x)),
    ensures
        in_hand(dag, heads, members, above).contains(m),
        dag.is_ancestor(c, m.cs_id),
    decreases dag.generation(x),
{
    dag.lemma_ancestor_generation(c, x);
    if in_hand(dag, heads, members, above).contains(dag.node(x)) {
        assert(dag.record_wf(x));
        dag.node(x)
    } else {
        if members(x) {
            dag.lemma_closed_downward(members, c, x);
        }
        let p = dag.lemma_first_step(c, x);
        dag.lemma_parent(p, x);
        let i = choose|i: int| 0 <= i < heads.len() && dag.is_ancestor(x, #[trigger] heads[i]);
        dag.lemma_transitive(p, x, heads[i]);
        assert(dag.is_ancestor_of_any(p, heads));
        assert(dag.record_wf(p));
        if dag.generation(p) < above {
            assert(dag.has_node(dag.node(p)));
            assert(is_met(dag, heads, members, above, p));
            assert(in_hand(dag, heads, members, above).contains(dag.node(p)));
        }
        lemma_in_hand_cuts(dag, heads, members, above, p, c)
    }
}

/// What is in hand reaches every ancestor of the heads below `above` that is
/// not in `members`.
proof fn lemma_in_hand_reaches(
    dag: Dag,
    heads: Seq<ChangesetId>,
    members: spec_fn(ChangesetId) -> bool,
    above: int,
    c: ChangesetId,
)
    requires
        dag.wf(),
        forall|p: ChangesetId, c: ChangesetId|
            #[trigger] dag.is_parent(p, c) && members(c) ==> members(p),
        dag.is_ancestor_of_any(c, heads),
        !members(c),
        dag.generation(c) < above,
    ensures
        dag.reaches(in_hand(dag, heads, members, above), c),
{
    let i = choose|i: int| 0 <= i < heads.len() && dag.is_ancestor(c, #[trigger] heads[i]);
    let h = heads[i];
    dag.lemma_ancestor_generation(c, h);
    dag.lemma_reflexive(h);
    assert(dag.is_ancestor_of_any(h, heads));
    assert(dag.record_wf(h));
    if dag.generation(h) < above {
        assert(heads.contains(h));
        assert(dag.has_node(dag.node(h)));
        assert(is_met(dag, heads, members, above, h));
        assert(in_hand(dag, heads, members, above).contains(dag.node(h)));
    }
    let m = lemma_in_hand_cuts(dag, heads, members, above, h, c);
}

/// One wave under a property is a wave of lowering: with the highest
/// generation taken out and the parents of those that passed put in, the
/// frontier is what is left of it without those given out, lowered by one.
proof fn lemma_step_is_lowering(
    dag: Dag,
    before: Set<ChangesetNode>,
    g: Generation,
    ids: Seq<ChangesetId>,
    members: spec_fn(ChangesetId) -> bool,
    passed: Seq<ChangesetEdges>,
    after: Set<ChangesetNode>,
)
    requires
        dag.wf(),
        dag.has_nodes(before),
        is_highest(before, g.0),
        is_bucket(before, g, ids),
        forall|k: int|
            0 <= k < passed.len() ==> ids.contains((#[trigger] passed[k]).node.cs_id) && !members(
                passed[k].node.cs_id,
            ) && is_record_of(dag, passed[k].node.cs_id, Some(passed[k])),
        forall|id: ChangesetId|
            ids.contains(id) && !members(id) ==> exists|k: int|
                0 <= k < passed.len() && (#[trigger] passed[k]).node.cs_id == id,
        after == before.filter(|n: ChangesetNode| n.generation != g).union(all_parents(passed)),
    ensures
        after == dag.lowered(
            before.filter(|n: ChangesetNode| !(n.generation.0 == g.0 && members(n.cs_id))),
            g.0 - 1,
        ),
        dag.has_nodes(after),
        height(after) < g.0,
{
    let top = g.0 as int;
    let kept = before.filter(|n: ChangesetNode| !(n.generation.0 == g.0 && members(n.cs_id)));
    let some = choose|n: ChangesetNode| before.contains(n) && #[trigger] n.generation.0 == g.0;
    assert(dag.has_node(some));
    dag.lemma_generation_positive(some.cs_id);
    assert forall|n: ChangesetNode|
        after.contains(n) <==> (kept.contains(n) && n.generation.0 < top) || (dag.has_node(n)
            && exists|b: ChangesetNode|
            kept.contains(b) && b.generation.0 == top && dag.is_parent(
                n.cs_id,
                #[trigger] b.cs_id,
            )) by {
        if after.contains(n) && !(kept.contains(n) && n.generation.0 < top) {
            let k = choose|k: int|
                0 <= k < passed.len() && (#[trigger] passed[k]).parents@.contains(n);
            let m = choose|m: int| 0 <= m < passed[k].parents@.len() && passed[k].parents@[m] == n;
            let c = passed[k].node.cs_id;
            let b = ChangesetNode { cs_id: c, generation: g };
            assert(before.contains(b));
            assert(kept.contains(b));
            assert(is_record_of(dag, c, Some(passed[k])));
            assert(dag.record_wf(c));
            assert(dag.parents(c)[m] == n);
            assert(dag.has_node(dag.parents(c)[m]));
            assert(dag.is_parent(n.cs_id, b.cs_id));
        }
        if dag.has_node(n) && exists|b: ChangesetNode|
            kept.contains(b) && b.generation.0 == top && dag.is_parent(n.cs_id, #[trigger] b.cs_id) {
            let b = choose|b: ChangesetNode|
                kept.contains(b) && b.generation.0 == top && dag.is_parent(
                    n.cs_id,
                    #[trigger] b.cs_id,
                );
            assert(b == ChangesetNode { cs_id: b.cs_id, generation: g });
            assert(ids.contains(b.cs_id));
            let k = choose|k: int| 0 <= k < passed.len() && (#[trigger] passed[k]).node.cs_id == b.cs_id;
            assert(is_record_of(dag, b.cs_id, Some(passed[k])));
            let m = choose|m: int|
                0 <= m < dag.parents(b.cs_id).len() && (#[trigger] dag.parents(b.cs_id)[m]).cs_id
                    == n.cs_id;
            assert(dag.record_wf(b.cs_id));
            assert(dag.has_node(dag.parents(b.cs_id)[m]));
            assert(passed[k].parents@[m] == n);
            assert(passed[k].parents@.contains(n));
            assert(all_parents(passed).contains(n));
        }
    }
    dag.lemma_lowered_wave(kept, top, after);
    dag.lemma_lowered_has_nodes(kept, top - 1);
    lemma_height_bounded(after, top - 1);
}

/// One wave of the walk: the highest generation in hand leaves; what of it
/// is in `members` is given out, and the parents of the rest come in.
#[verifier::rlimit(40)]
proof fn lemma_frontier_wave(
    dag: Dag,
    heads: Seq<ChangesetId>,
    members: spec_fn(ChangesetId) -> bool,
    above: int,
    f: Set<ChangesetNode>,
    g: Generation,
    emitted: Set<ChangesetNode>,
    after: Set<ChangesetNode>,
)
    requires
        dag.wf(),
        forall|p: ChangesetId, c: ChangesetId|
            #[trigger] dag.is_parent(p, c) && members(c) ==> members(p),
        f == in_hand(dag, heads, members, above),
        is_highest(f, g.0),
        emitted == f.filter(|n: ChangesetNode| n.generation.0 == g.0 && members(n.cs_id)),
        after == dag.lowered(
            f.filter(|n: ChangesetNode| !(n.generation.0 == g.0 && members(n.cs_id))),
            g.0 - 1,
        ),
    ensures
        after == in_hand(dag, heads, members, g.0 as int),
        forall|x: ChangesetId|
            emitted.contains(ChangesetNode { cs_id: x, generation: g }) <==> on_frontier(
                dag,
                heads,
                members,
                x,
            ) && dag.generation(x) == g.0,
        forall|x: ChangesetId|
            on_frontier(dag, heads, members, x) && dag.generation(x) < above ==> dag.generation(x)
                <= g.0,
{
    let top = g.0 as int;
    let kept = f.filter(|n: ChangesetNode| !(n.generation.0 == g.0 && members(n.cs_id)));
    let next = in_hand(dag, heads, members, top);
    assert(dag.has_nodes(kept));
    // what lies below `above` outside the members is at the top or below
    assert forall|c: ChangesetId|
        dag.is_ancestor_of_any(c, heads) && !members(c) && dag.generation(c)
            < above implies dag.generation(c) <= top && (dag.generation(c) == top ==> kept.contains(
        dag.node(c),
    )) by {
        lemma_in_hand_reaches(dag, heads, members, above, c);
        dag.lemma_reaches_bounded(f, top, c);
        if dag.generation(c) == top {
            dag.lemma_reaches_at_height(f, top, c);
            assert(dag.record_wf(c));
        }
    }
    assert forall|n: ChangesetNode| after.contains(n) implies next.contains(n) by {
        if kept.contains(n) {
            if !heads.contains(n.cs_id) {
                let c = choose|c: ChangesetId|
                    #[trigger] dag.is_parent(n.cs_id, c) && dag.is_ancestor_of_any(c, heads)
                        && !members(c) && dag.generation(c) >= above;
                assert(is_met(dag, heads, members, top, n.cs_id));
            }
        } else {
            let y = choose|y: ChangesetId|
                #[trigger] dag.reaches(kept, y) && dag.generation(y) > top - 1 && dag.is_parent(
                    n.cs_id,
                    y,
                );
            dag.lemma_reaches_bounded(kept, top, y);
            dag.lemma_reaches_at_height(kept, top, y);
            assert(dag.record_wf(y));
            lemma_met_is_ancestor(dag, heads, members, above, y);
            assert(is_met(dag, heads, members, top, n.cs_id));
        }
    }
    assert forall|n: ChangesetNode| next.contains(n) implies after.contains(n) by {
        if heads.contains(n.cs_id) {
            assert(is_met(dag, heads, members, above, n.cs_id));
            assert(kept.contains(n));
        } else {
            let c = choose|c: ChangesetId|
                #[trigger] dag.is_parent(n.cs_id, c) && dag.is_ancestor_of_any(c, heads)
                    && !members(c) && dag.generation(c) >= top;
            if dag.generation(c) >= above {
                assert(is_met(dag, heads, members, above, n.cs_id));
                assert(kept.contains(n));
            } else {
                assert(kept.contains(dag.node(c)));
                dag.lemma_parent(n.cs_id, c);
                dag.lemma_reflexive(c);
                assert(dag.record_wf(c));
                assert(dag.is_ancestor(c, dag.node(c).cs_id));
                assert(dag.reaches(kept, c));
            }
        }
    }
    assert(after =~= next);
    assert forall|x: ChangesetId|
        on_frontier(dag, heads, members, x) && dag.generation(x) < above implies dag.generation(x)
        <= g.0 && (dag.generation(x) == g.0 ==> f.contains(dag.node(x))) by {
        assert(dag.record_wf(x));
        assert(dag.has_node(dag.node(x)));
        if heads.contains(x) {
            assert(f.contains(dag.node(x)));
        } else {
            let c = choose|c: ChangesetId|
                #[trigger] dag.is_parent(x, c) && dag.is_ancestor_of_any(c, heads) && !members(c)
                    && dag.generation(c) >= 0;
            dag.lemma_parent(x, c);
            if dag.generation(c) < above {
                assert(dag.generation(c) <= top);
            } else {
                assert(is_met(dag, heads, members, above, x));
                assert(f.contains(dag.node(x)));
            }
        }
    }
    assert forall|x: ChangesetId|
        emitted.contains(ChangesetNode { cs_id: x, generation: g }) <==> on_frontier(
            dag,
            heads,
            members,
            x,
        ) && dag.generation(x) == g.0 by {
        let n = ChangesetNode { cs_id: x, generation: g };
        if emitted.contains(n) {
            assert(f.contains(n));
            if !heads.contains(x) {
                let c = choose|c: ChangesetId|
                    #[trigger] dag.is_parent(x, c) && dag.is_ancestor_of_any(c, heads) && !members(
                        c,
                    ) && dag.generation(c) >= above;
                dag.lemma_parent(x, c);
                assert(is_met(dag, heads, members, 0, x));
            }
        }
        if on_frontier(dag, heads, members, x) && dag.generation(x) == g.0 {
            assert(dag.record_wf(x));
            assert(dag.node(x) == n);
        }
    }
}

/// With nothing in hand, nothing below `above` is on the frontier.
proof fn lemma_nothing_below(
    dag: Dag,
    heads: Seq<ChangesetId>,
    members: spec_fn(ChangesetId) -> bool,
    above: int,
    x: ChangesetId,
)
    requires
        dag.wf(),
        forall|p: ChangesetId, c: ChangesetId|
            #[trigger] dag.is_parent(p, c) && members(c) ==> members(p),
        in_hand(dag, heads, members, above) == Set::<ChangesetNode>::empty(),
        on_frontier(dag, heads, members, x),
    ensures
        dag.generation(x) >= above,
{
    if dag.generation(x) < above {
        assert(dag.record_wf(x));
        assert(dag.has_node(dag.node(x)));
        if !heads.contains(x) {
            let c = choose|c: ChangesetId|
                #[trigger] dag.is_parent(x, c) && dag.is_ancestor_of_any(c, heads) && !members(c)
                    && dag.generation(c) >= 0;
            if dag.generation(c) < above {
                lemma_in_hand_reaches(dag, heads, members, above, c);
                let n = choose|n: ChangesetNode|
                    in_hand(dag, heads, members, above).contains(n) && dag.is_ancestor(
                        c,
                        #[trigger] n.cs_id,
                    );
                assert(false);
            }
            assert(is_met(dag, heads, members, above, x));
        }
        assert(in_hand(dag, heads, members, above).contains(dag.node(x)));
        assert(false);
    }
}

/// The changesets of a frontier whose nodes are all at one generation come
/// out of it each once.
proof fn lemma_one_generation(
    emitted: Set<ChangesetNode>,
    order: Seq<ChangesetNode>,
    g: Generation,
    ids: Seq<ChangesetId>,
)
    requires
        crate::frontier::ascending_nodes(order),
        order.to_set() == emitted,
        forall|n: ChangesetNode| emitted.contains(n) ==> n.generation == g,
        ids == crate::frontier::ids_of(order),
    ensures
        ascending(ids),
        forall|x: ChangesetId|
            ids.contains(x) <==> emitted.contains(ChangesetNode { cs_id: x, generation: g }),
{
    assert forall|i: int, j: int| 0 <= i < j < ids.len() implies ids[i].precedes(ids[j]) by {
        assert(order.contains(order[i]));
        assert(order.contains(order[j]));
        assert(emitted.contains(order[i]) && emitted.contains(order[j]));
        assert(order[i].precedes(order[j]));
    }
    assert forall|x: ChangesetId|
        ids.contains(x) <==> emitted.contains(ChangesetNode { cs_id: x, generation: g }) by {
        let n = ChangesetNode { cs_id: x, generation: g };
        if ids.contains(x) {
            let i = choose|i: int| 0 <= i < ids.len() && ids[i] == x;
            assert(order.contains(order[i]));
            assert(emitted.contains(order[i]));
            assert(order[i] == n);
        }
        if emitted.contains(n) {
            let i = choose|i: int| 0 <= i < order.len() && order[i] == n;
            assert(ids[i] == x);
        }
    }
}

/// `ids` are the changesets on the frontier of `members`.
pub open spec fn is_frontier(
    dag: Dag,
    heads: Seq<ChangesetId>,
    members: spec_fn(ChangesetId) -> bool,
    ids: Seq<ChangesetId>,
) -> bool {
    forall|x: ChangesetId| ids.contains(x) <==> on_frontier(dag, heads, members, x)
}

/// The walk has come to `above`: it has in hand what it has met below
/// `above`, and has given out what is on the frontier at `above` or higher.
pub open spec fn is_walked(
    dag: Dag,
    heads: Seq<ChangesetId>,
    members: spec_fn(ChangesetId) -> bool,
    above: int,
    f: Set<ChangesetNode>,
    out: Seq<ChangesetId>,
) -> bool {
    &&& f == in_hand(dag, heads, members, above)
    &&& forall|x: ChangesetId|
        out.contains(x) <==> on_frontier(dag, heads, members, x) && dag.generation(x) >= above
}

/// The walk begins with the heads in hand.
proof fn lemma_walk_begins(dag: Dag, heads: Seq<ChangesetId>, members: spec_fn(ChangesetId) -> bool)
    ensures
        is_walked(
            dag,
            heads,
            members,
            u64::MAX + 1,
            dag.nodes_of(heads),
            Seq::<ChangesetId>::empty(),
        ),
{
    let above = u64::MAX + 1;
    assert forall|n: ChangesetNode|
        dag.nodes_of(heads).contains(n) <==> in_hand(dag, heads, members, above).contains(n) by {
        if in_hand(dag, heads, members, above).contains(n) {
            if !heads.contains(n.cs_id) {
                let c = choose|c: ChangesetId|
                    #[trigger] dag.is_parent(n.cs_id, c) && dag.is_ancestor_of_any(c, heads)
                        && !members(c) && dag.generation(c) >= above;
            }
        }
    }
    assert(dag.nodes_of(heads) =~= in_hand(dag, heads, members, above));
}

/// The walk ends with nothing in hand: what it has given out is the frontier.
proof fn lemma_walk_ends(
    dag: Dag,
    heads: Seq<ChangesetId>,
    members: spec_fn(ChangesetId) -> bool,
    above: int,
    out: Seq<ChangesetId>,
)
    requires
        dag.wf(),
        monotonic(members, dag),
        is_walked(dag, heads, members, above, Set::<ChangesetNode>::empty(), out),
    ensures
        is_frontier(dag, heads, members, out),
{
    assert forall|x: ChangesetId| out.contains(x) <==> on_frontier(dag, heads, members, x) by {
        if on_frontier(dag, heads, members, x) {
            lemma_nothing_below(dag, heads, members, above, x);
        }
    }
}

/// One wave of the walk, for a property that answers as `answer` says.
proof fn lemma_walk_step<P: Fn(ChangesetId) -> Result<bool, CommitGraphError>>(
    dag: Dag,
    heads: Seq<ChangesetId>,
    property: P,
    answer: spec_fn(ChangesetId) -> bool,
    above: int,
    f: Set<ChangesetNode>,
    g: Generation,
    emitted: Set<ChangesetNode>,
    added: Seq<ChangesetId>,
    after: Set<ChangesetNode>,
    out: Seq<ChangesetId>,
)
    requires
        dag.wf(),
        answers(property, answer, dag),
        monotonic(answer, dag),
        dag.has_nodes(f),
        is_walked(dag, heads, answer, above, f, out),
        is_highest(f, g.0),
        emitted == f.filter(
            |n: ChangesetNode| n.generation.0 == height(f) && said_yes(property, n.cs_id),
        ),
        forall|n: ChangesetNode|
            f.contains(n) && n.generation.0 == height(f) ==> #[trigger] said_yes(
                property,
                n.cs_id,
            ) || said_no(property, n.cs_id),
        after == dag.lowered(
            f.filter(
                |n: ChangesetNode| !(n.generation.0 == height(f) && said_yes(property, n.cs_id)),
            ),
            height(f) - 1,
        ),
        forall|x: ChangesetId|
            added.contains(x) <==> emitted.contains(ChangesetNode { cs_id: x, generation: g }),
    ensures
        is_walked(dag, heads, answer, g.0 as int, after, out + added),
{
    lemma_height(f, g.0);
    assert forall|n: ChangesetNode| f.contains(n) && n.generation.0 == g.0 implies (said_yes(
        property,
        n.cs_id,
    ) <==> answer(n.cs_id)) by {
        assert(dag.has_node(n));
        lemma_answered(property, answer, dag, n.cs_id);
        assert(said_yes(property, n.cs_id) || said_no(property, n.cs_id));
    }
    assert(emitted =~= f.filter(|n: ChangesetNode| n.generation.0 == g.0 && answer(n.cs_id)));
    assert(f.filter(
        |n: ChangesetNode| !(n.generation.0 == height(f) && said_yes(property, n.cs_id)),
    ) =~= f.filter(|n: ChangesetNode| !(n.generation.0 == g.0 && answer(n.cs_id))));
    lemma_frontier_wave(dag, heads, answer, above, f, g, emitted, after);
    let all = out + added;
    assert forall|x: ChangesetId|
        all.contains(x) <==> on_frontier(dag, heads, answer, x) && dag.generation(x) >= g.0 by {
        if all.contains(x) {
            let k = choose|k: int| 0 <= k < all.len() && all[k] == x;
            if k < out.len() {
                assert(out.contains(out[k]));
            } else {
                assert(added.contains(added[k - out.len()]));
            }
        }
        if out.contains(x) {
            let k = choose|k: int| 0 <= k < out.len() && out[k] == x;
            assert(all[k] == x);
        }
        if added.contains(x) {
            let k = choose|k: int| 0 <= k < added.len() && added[k] == x;
            assert(all[out.len() + k] == x);
        }
        let some = choose|n: ChangesetNode| f.contains(n) && #[trigger] n.generation.0 == g.0;
        assert(f.contains(some));
    }
}

impl<S: CommitGraphStorage> CommitGraph<S> {
    /// One wave of lowering under a property: takes the highest generation
    /// out of the frontier and asks the property of each changeset of it;
    /// gives back those of which it said yes, and puts the parents of the
    /// others, of which it said no, into the frontier. `None` when the
    /// frontier is empty.
    #[verifier::rlimit(40)]
    pub fn lower_frontier_step<P: Fn(ChangesetId) -> Result<bool, CommitGraphError>>(
        &self,
        ctx: &S::Context,
        frontier: &mut ChangesetFrontier,
        property: &P,
        prefetch: Prefetch,
    ) -> (r: Result<Option<ChangesetFrontier>, CommitGraphError>)
        requires
            self.wf(),
            self.dag().has_nodes(old(frontier)@),
            decides(*property, self.dag()),
        ensures
            self.dag().has_nodes(final(frontier)@),
            match r {
                Ok(None) => old(frontier)@ == Set::<ChangesetNode>::empty() && final(frontier)@
                    == old(frontier)@,
                Ok(Some(emitted)) => {
                    &&& exists|g: u64| is_highest(old(frontier)@, g)
                    &&& emitted@ == old(frontier)@.filter(
                        |n: ChangesetNode|
                            n.generation.0 == height(old(frontier)@) && said_yes(*property, n.cs_id),
                    )
                    &&& final(frontier)@ == self.dag().lowered(
                        old(frontier)@.filter(
                            |n: ChangesetNode|
                                !(n.generation.0 == height(old(frontier)@) && said_yes(
                                    *property,
                                    n.cs_id,
                                )),
                        ),
                        height(old(frontier)@) - 1,
                    )
                    &&& forall|n: ChangesetNode|
                        old(frontier)@.contains(n) && n.generation.0 == height(old(frontier)@)
                            ==> #[trigger] said_yes(*property, n.cs_id) || said_no(
                            *property,
                            n.cs_id,
                        )
                    &&& height(final(frontier)@) < height(old(frontier)@)
                },
                Err(e) => !self.infallible() || fails_with(*property, e),
            },
    {
        let ghost dag = self.dag();
        let ghost before = frontier@;
        match frontier.pop_last() {
            None => Ok(None),
            Some((g, cs_ids)) => {
                proof {
                    lemma_height(before, g.0);
                    assert forall|i: int| 0 <= i < cs_ids.len() implies dag.contains(
                        #[trigger] cs_ids@[i],
                    ) by {
                        assert(cs_ids@.contains(cs_ids@[i]));
                        assert(dag.has_node(ChangesetNode { cs_id: cs_ids@[i], generation: g }));
                    }
                    let some = choose|n: ChangesetNode|
                        before.contains(n) && #[trigger] n.generation.0 == g.0;
                    assert(before.contains(some));
                }
                let records = match self.storage.fetch_many_edges_required(ctx, &cs_ids, prefetch) {
                    Ok(records) => records,
                    Err(e) => {
                        return Err(e);
                    },
                };
                let ghost rest = frontier@;
                let mut emitted = ChangesetFrontier::new();
                let mut i: usize = 0;
                proof {
                    assert(rest.union(all_parents(Seq::<ChangesetEdges>::empty())) =~= rest);
                }
                let ghost mut passed: Seq<ChangesetEdges> = Seq::empty();
                while i < cs_ids.len()
                    invariant
                        i <= cs_ids.len(),
                        self.wf(),
                        dag == self.dag(),
                        decides(*property, dag),
                        dag.has_nodes(before),
                        is_bucket(before, g, cs_ids@),
                        are_required_records_of(dag, cs_ids@, records@),
                        forall|n: ChangesetNode|
                            emitted@.contains(n) <==> n.generation == g && cs_ids@.subrange(
                                0,
                                i as int,
                            ).contains(n.cs_id) && said_yes(*property, n.cs_id),
                        frontier@ == rest.union(all_parents(passed)),
                        dag.has_nodes(frontier@),
                        forall|id: ChangesetId|
                            cs_ids@.subrange(0, i as int).contains(id) ==> #[trigger] said_yes(
                                *property,
                                id,
                            ) || said_no(*property, id),
                        forall|k: int|
                            0 <= k < passed.len() ==> cs_ids@.subrange(0, i as int).contains(
                                (#[trigger] passed[k]).node.cs_id,
                            ) && !said_yes(*property, passed[k].node.cs_id) && is_record_of(
                                dag,
                                passed[k].node.cs_id,
                                Some(passed[k]),
                            ),
                        forall|id: ChangesetId|
                            cs_ids@.subrange(0, i as int).contains(id) && !said_yes(*property, id)
                                ==> exists|k: int|
                                0 <= k < passed.len() && (#[trigger] passed[k]).node.cs_id == id,
                    decreases cs_ids.len() - i,
                {
                    let cs_id = cs_ids[i];
                    let ghost seen = cs_ids@.subrange(0, i as int);
                    let ghost longer = cs_ids@.subrange(0, i + 1);
                    let ghost passed_before = passed;
                    proof {
                        assert(cs_ids@.contains(cs_id));
                        assert(dag.has_node(ChangesetNode { cs_id, generation: g }));
                        assert(can_ask(*property, cs_id));
                        assert(longer =~= seen.push(cs_id));
                        assert(is_record_of(dag, cs_ids@[i as int], Some(records@[i as int])));
                        assert(dag.record_wf(cs_id));
                    }
                    let answer = match property(cs_id) {
                        Ok(answer) => answer,
                        Err(e) => {
                            return Err(e);
                        },
                    };
                    proof {
                        lemma_one_answer(*property, dag, cs_id);
                        assert(if answer {
                            said_yes(*property, cs_id)
                        } else {
                            said_no(*property, cs_id)
                        });
                        assert forall|id: ChangesetId| longer.contains(id) implies #[trigger] said_yes(
                            *property,
                            id,
                        ) || said_no(*property, id) by {
                            let c = choose|c: int| 0 <= c < longer.len() && longer[c] == id;
                            if c < i {
                                assert(seen[c] == id);
                                assert(seen.contains(id));
                            }
                        }
                    }
                    if answer {
                        emitted.insert(cs_id, g);
                    } else {
                        insert_parents(frontier, &records[i]);
                        proof {
                            assert forall|n: ChangesetNode|
                                records@[i as int].parents@.contains(n) implies dag.has_node(n) by {
                                let m = choose|m: int|
                                    0 <= m < records@[i as int].parents@.len()
                                        && records@[i as int].parents@[m] == n;
                                assert(dag.has_node(dag.parents(cs_id)[m]));
                            }
                            passed = passed.push(records@[i as int]);
                            assert forall|n: ChangesetNode|
                                all_parents(passed).contains(n) <==> all_parents(
                                    passed_before,
                                ).contains(n) || records@[i as int].parents@.contains(n) by {
                                if all_parents(passed).contains(n) {
                                    let k = choose|k: int|
                                        0 <= k < passed.len() && (
                                        #[trigger] passed[k]).parents@.contains(n);
                                    if k < passed_before.len() {
                                        assert(passed_before[k].parents@.contains(n));
                                    }
                                }
                                if all_parents(passed_before).contains(n) {
                                    let k = choose|k: int|
                                        0 <= k < passed_before.len() && (
                                        #[trigger] passed_before[k]).parents@.contains(n);
                                    assert(passed[k].parents@.contains(n));
                                }
                                if records@[i as int].parents@.contains(n) {
                                    assert(passed[passed.len() - 1].parents@.contains(n));
                                }
                            }
                            assert(frontier@ =~= rest.union(all_parents(passed)));
                        }
                    }
                    proof {
                        assert forall|n: ChangesetNode|
                            emitted@.contains(n) <==> n.generation == g && longer.contains(n.cs_id)
                                && said_yes(*property, n.cs_id) by {
                            if longer.contains(n.cs_id) {
                                let c = choose|c: int| 0 <= c < longer.len() && longer[c] == n.cs_id;
                                if c < i {
                                    assert(seen[c] == n.cs_id);
                                }
                            }
                            if seen.contains(n.cs_id) {
                                let c = choose|c: int| 0 <= c < seen.len() && seen[c] == n.cs_id;
                                assert(longer[c] == n.cs_id);
                            }
                            assert(longer[i as int] == cs_id);
                        }
                        assert forall|k: int| 0 <= k < passed.len() implies longer.contains(
                            (#[trigger] passed[k]).node.cs_id,
                        ) && !said_yes(*property, passed[k].node.cs_id) && is_record_of(
                            dag,
                            passed[k].node.cs_id,
                            Some(passed[k]),
                        ) by {
                            if k < passed_before.len() {
                                assert(passed[k] == passed_before[k]);
                                let c = choose|c: int|
                                    0 <= c < seen.len() && seen[c] == passed_before[k].node.cs_id;
                                assert(longer[c] == passed[k].node.cs_id);
                            } else {
                                assert(longer[i as int] == cs_id);
                            }
                        }
                        assert forall|id: ChangesetId|
                            longer.contains(id) && !said_yes(*property, id) implies exists|k: int|
                            0 <= k < passed.len() && (#[trigger] passed[k]).node.cs_id == id by {
                            let c = choose|c: int| 0 <= c < longer.len() && longer[c] == id;
                            if c < i {
                                assert(seen[c] == id);
                                let k = choose|k: int|
                                    0 <= k < passed_before.len() && (
                                    #[trigger] passed_before[k]).node.cs_id == id;
                                assert(passed[k].node.cs_id == id);
                            } else {
                                assert(passed[passed.len() - 1].node.cs_id == id);
                            }
                        }
                    }
                    i += 1;
                }
                proof {
                    assert(cs_ids@.subrange(0, i as int) =~= cs_ids@);
                    let top = height(before);
                    let given = before.filter(
                        |n: ChangesetNode| n.generation.0 == top && said_yes(*property, n.cs_id),
                    );
                    assert(emitted@ =~= given) by {
                        assert forall|n: ChangesetNode| emitted@.contains(n) <==> given.contains(
                            n,
                        ) by {
                            if given.contains(n) {
                                assert(n == ChangesetNode { cs_id: n.cs_id, generation: g });
                            }
                        }
                    }
                    assert forall|n: ChangesetNode|
                        before.contains(n) && n.generation.0 == top implies #[trigger] said_yes(
                        *property,
                        n.cs_id,
                    ) || said_no(*property, n.cs_id) by {
                        assert(n == ChangesetNode { cs_id: n.cs_id, generation: g });
                        assert(cs_ids@.contains(n.cs_id));
                    }
                    let members = |c: ChangesetId| said_yes(*property, c);
                    lemma_step_is_lowering(dag, before, g, cs_ids@, members, passed, frontier@);
                    assert(before.filter(
                        |n: ChangesetNode| !(n.generation.0 == top && said_yes(*property, n.cs_id)),
                    ) =~= before.filter(
                        |n: ChangesetNode| !(n.generation.0 == g.0 && members(n.cs_id)),
                    ));
                }
                Ok(Some(emitted))
            },
        }
    }

    /// The frontier of the ancestors of `heads` of which the property holds:
    /// on every way down from a head, the first changeset of which it said
    /// yes. For a property that answers monotonically these are the
    /// changesets of which it holds that are heads, or parents of an
    /// ancestor of the heads of which it does not hold. They come from the
    /// highest generation down, each once.
    #[verifier::rlimit(40)]
    pub fn ancestors_frontier_with<P: Fn(ChangesetId) -> Result<bool, CommitGraphError>>(
        &self,
        ctx: &S::Context,
        heads: Vec<ChangesetId>,
        monotonic_property: P,
    ) -> (r: Result<Vec<ChangesetId>, CommitGraphError>)
        requires
            self.wf(),
            decides(monotonic_property, self.dag()),
        ensures
            match r {
                Ok(ids) => {
                    &&& ids@.no_duplicates()
                    &&& crate::difference::descending_generations(self.dag(), ids@)
                    &&& forall|x: ChangesetId|
                        #[trigger] ids@.contains(x) ==> self.dag().contains(x) && said_yes(
                            monotonic_property,
                            x,
                        )
                    &&& forall|answer: spec_fn(ChangesetId) -> bool|
                        #[trigger] answers(monotonic_property, answer, self.dag()) && monotonic(
                            answer,
                            self.dag(),
                        ) ==> is_frontier(self.dag(), heads@, answer, ids@)
                },
                Err(e) => {
                    ||| !self.infallible()
                    ||| reports_missing(self.dag(), heads@, e)
                    ||| fails_with(monotonic_property, e)
                },
            },
    {
        let ghost dag = self.dag();
        let mut ancestors_frontier: Vec<ChangesetId> = Vec::new();
        let mut frontier = self.frontier(ctx, &heads)?;
        let ghost mut above: int = u64::MAX + 1;
        proof {
            assert forall|answer: spec_fn(ChangesetId) -> bool| #[trigger]
                answers(monotonic_property, answer, dag) && monotonic(
                    answer,
                    dag,
                ) implies is_walked(
                dag,
                heads@,
                answer,
                above,
                frontier@,
                ancestors_frontier@,
            ) by {
                lemma_walk_begins(dag, heads@, answer);
            }
        }
        loop
            invariant
                self.wf(),
                dag == self.dag(),
                decides(monotonic_property, dag),
                above <= u64::MAX + 1,
                dag.has_nodes(frontier@),
                forall|n: ChangesetNode| frontier@.contains(n) ==> n.generation.0 < above,
                ancestors_frontier@.no_duplicates(),
                crate::difference::descending_generations(dag, ancestors_frontier@),
                forall|i: int|
                    0 <= i < ancestors_frontier.len() ==> dag.generation(
                        #[trigger] ancestors_frontier[i],
                    ) >= above,
                forall|x: ChangesetId|
                    #[trigger] ancestors_frontier@.contains(x) ==> dag.contains(x) && said_yes(
                        monotonic_property,
                        x,
                    ),
                forall|answer: spec_fn(ChangesetId) -> bool|
                    #[trigger] answers(monotonic_property, answer, dag) && monotonic(answer, dag)
                        ==> is_walked(dag, heads@, answer, above, frontier@, ancestors_frontier@),
            decreases height(frontier@),
        {
            let ghost f = frontier@;
            let ghost out = ancestors_frontier@;
            match self.lower_frontier_step(ctx, &mut frontier, &monotonic_property, Prefetch::NoHint) {
                Err(e) => {
                    return Err(e);
                },
                Ok(None) => {
                    proof {
                        assert forall|answer: spec_fn(ChangesetId) -> bool| #[trigger]
                            answers(monotonic_property, answer, dag) && monotonic(
                                answer,
                                dag,
                            ) implies is_frontier(dag, heads@, answer, ancestors_frontier@) by {
                            lemma_walk_ends(dag, heads@, answer, above, ancestors_frontier@);
                        }
                    }
                    return Ok(ancestors_frontier);
                },
                Ok(Some(emitted)) => {
                    let mut extension = emitted.changesets();
                    let ghost added = extension@;
                    ancestors_frontier.append(&mut extension);
                    proof {
                        let g = choose|g: u64| is_highest(f, g);
                        lemma_height(f, g);
                        let top = Generation(g);
                        let kept = f.filter(
                            |n: ChangesetNode|
                                !(n.generation.0 == height(f) && said_yes(
                                    monotonic_property,
                                    n.cs_id,
                                )),
                        );
                        dag.lemma_lowered_has_nodes(kept, g - 1);
                        lemma_one_generation(emitted@, emitted.order(), top, added);
                        assert(ancestors_frontier@ == out + added);
                        assert forall|k: int| 0 <= k < added.len() implies dag.contains(
                            #[trigger] added[k],
                        ) && dag.generation(added[k]) == g && said_yes(
                            monotonic_property,
                            added[k],
                        ) by {
                            assert(added.contains(added[k]));
                            let n = ChangesetNode { cs_id: added[k], generation: top };
                            assert(emitted@.contains(n));
                            assert(dag.has_node(n));
                        }
                        let some = choose|n: ChangesetNode| f.contains(n) && #[trigger] n.generation.0 == g;
                        assert(f.contains(some));
                        assert forall|i: int, j: int|
                            0 <= i < j < ancestors_frontier.len() implies ancestors_frontier[i]
                            != ancestors_frontier[j] && dag.generation(ancestors_frontier[i])
                            >= dag.generation(ancestors_frontier[j]) by {
                            if j < out.len() {
                                assert(dag.generation(out[i]) >= dag.generation(out[j]));
                            } else if i < out.len() {
                                assert(ancestors_frontier[i] == out[i]);
                                assert(ancestors_frontier[j] == added[j - out.len()]);
                            } else {
                                assert(added[i - out.len()].precedes(added[j - out.len()]));
                            }
                        }
                        assert forall|i: int| 0 <= i < ancestors_frontier.len() implies dag.generation(
                            #[trigger] ancestors_frontier[i],
                        ) >= g by {
                            if i < out.len() {
                                assert(ancestors_frontier[i] == out[i]);
                            } else {
                                assert(ancestors_frontier[i] == added[i - out.len()]);
                            }
                        }
                        assert forall|x: ChangesetId|
                            #[trigger] ancestors_frontier@.contains(x) implies dag.contains(x)
                            && said_yes(monotonic_property, x) by {
                            let k = choose|k: int|
                                0 <= k < ancestors_frontier.len() && ancestors_frontier[k] == x;
                            if k < out.len() {
                                assert(ancestors_frontier[k] == out[k]);
                                assert(out.contains(x));
                            } else {
                                assert(ancestors_frontier[k] == added[k - out.len()]);
                                assert(dag.contains(added[k - out.len()]));
                            }
                        }
                        assert forall|answer: spec_fn(ChangesetId) -> bool| #[trigger]
                            answers(monotonic_property, answer, dag) && monotonic(
                                answer,
                                dag,
                            ) implies is_walked(
                            dag,
                            heads@,
                            answer,
                            g as int,
                            frontier@,
                            ancestors_frontier@,
                        ) by {
                            lemma_walk_step(
                                dag,
                                heads@,
                                monotonic_property,
                                answer,
                                above,
                                f,
                                top,
                                emitted@,
                                added,
                                frontier@,
                                out,
                            );
                        }
                        above = g as int;
                    }
                },
            }
        }
    }
}

} // verus!
