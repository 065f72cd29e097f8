//! Laws of the commit graph: what holds of ancestry, differences, common
//! bases, ranges and frontiers in every graph of commits.

use crate::ancestors_frontier::{is_met, on_frontier};
use crate::dag::Dag;
use crate::frontier::{ascending, one_generation_each};
use crate::ids::ChangesetNode;
use crate::ids::{
    lemma_be_value_bound, lemma_be_value_order, lemma_radix_16, lexicographic, ChangesetId,
};
use vstd::prelude::*;

verus! {

/// Identifiers are in the order of the byte strings that they stand for,
/// and are equal only where the byte strings are.
pub proof fn law_identifier_order(a: Seq<u8>, b: Seq<u8>)
    requires
        a.len() == 32,
        b.len() == 32,
    ensures
        ChangesetId::of_bytes(a).precedes(ChangesetId::of_bytes(b)) <==> lexicographic(a, b),
        ChangesetId::of_bytes(a) == ChangesetId::of_bytes(b) <==> a == b,
{
    let a_hi = a.subrange(0, 16);
    let a_lo = a.subrange(16, 32);
    let b_hi = b.subrange(0, 16);
    let b_lo = b.subrange(16, 32);
    lemma_radix_16();
    lemma_be_value_bound(a_hi);
    lemma_be_value_bound(a_lo);
    lemma_be_value_bound(b_hi);
    lemma_be_value_bound(b_lo);
    lemma_be_value_order(a_hi, b_hi);
    lemma_be_value_order(a_lo, b_lo);
    if lexicographic(a, b) {
        let k = choose|k: int|
            0 <= k < a.len() && #[trigger] a[k] < b[k] && forall|j: int| 0 <= j < k ==> a[j] == b[j];
        if k < 16 {
            assert(a_hi[k] < b_hi[k]);
            assert forall|j: int| 0 <= j < k implies a_hi[j] == b_hi[j] by {
                assert(a[j] == b[j]);
            }
            assert(lexicographic(a_hi, b_hi));
        } else {
            assert(a_hi =~= b_hi) by {
                assert forall|j: int| 0 <= j < 16 implies a_hi[j] == b_hi[j] by {
                    assert(a[j] == b[j]);
                }
            }
            assert(a_lo[k - 16] < b_lo[k - 16]);
            assert forall|j: int| 0 <= j < k - 16 implies a_lo[j] == b_lo[j] by {
                assert(a[j + 16] == b[j + 16]);
            }
            assert(lexicographic(a_lo, b_lo));
        }
    }
    if lexicographic(a_hi, b_hi) {
        let k = choose|k: int|
            0 <= k < a_hi.len() && #[trigger] a_hi[k] < b_hi[k] && forall|j: int|
                0 <= j < k ==> a_hi[j] == b_hi[j];
        assert(a[k] < b[k]);
        assert forall|j: int| 0 <= j < k implies a[j] == b[j] by {
            assert(a_hi[j] == b_hi[j]);
        }
    }
    if a_hi == b_hi && lexicographic(a_lo, b_lo) {
        let k = choose|k: int|
            0 <= k < a_lo.len() && #[trigger] a_lo[k] < b_lo[k] && forall|j: int|
                0 <= j < k ==> a_lo[j] == b_lo[j];
        assert(a[k + 16] < b[k + 16]);
        assert forall|j: int| 0 <= j < k + 16 implies a[j] == b[j] by {
            if j < 16 {
                assert(a_hi[j] == b_hi[j]);
            } else {
                assert(a_lo[j - 16] == b_lo[j - 16]);
            }
        }
    }
    if a_hi == b_hi && a_lo == b_lo {
        assert(a =~= b) by {
            assert forall|j: int| 0 <= j < 32 implies a[j] == b[j] by {
                if j < 16 {
                    assert(a_hi[j] == b_hi[j]);
                } else {
                    assert(a_lo[j - 16] == b_lo[j - 16]);
                }
            }
        }
    }
}

/// Of two identifiers that differ, one comes before the other, and not
/// both ways; the order is that of a line.
pub proof fn law_identifiers_in_line(a: ChangesetId, b: ChangesetId, c: ChangesetId)
    ensures
        a == b || a.precedes(b) || b.precedes(a),
        !(a.precedes(b) && b.precedes(a)),
        !a.precedes(a),
        a.precedes(b) && b.precedes(c) ==> a.precedes(c),
{
}

/// Every changeset of the graph is its own ancestor.
pub proof fn law_ancestry_reflexive(dag: Dag, c: ChangesetId)
    requires
        dag.contains(c),
    ensures
        dag.is_ancestor(c, c),
{
    dag.lemma_reflexive(c);
}

/// Two changesets that are ancestors of each other are one changeset.
pub proof fn law_ancestry_antisymmetric(dag: Dag, a: ChangesetId, b: ChangesetId)
    requires
        dag.wf(),
        dag.is_ancestor(a, b),
        dag.is_ancestor(b, a),
    ensures
        a == b,
{
    dag.lemma_ancestor_generation(a, b);
    dag.lemma_ancestor_generation(b, a);
}

/// An ancestor of an ancestor is an ancestor.
pub proof fn law_ancestry_transitive(dag: Dag, a: ChangesetId, b: ChangesetId, c: ChangesetId)
    requires
        dag.is_ancestor(a, b),
        dag.is_ancestor(b, c),
    ensures
        dag.is_ancestor(a, c),
{
    dag.lemma_transitive(a, b, c);
}

/// A parent has a lower generation than its child, and is an ancestor of it.
pub proof fn law_parent(dag: Dag, c: ChangesetId, i: int)
    requires
        dag.wf(),
        dag.contains(c),
        0 <= i < dag.parent_ids(c).len(),
    ensures
        dag.contains(dag.parent_ids(c)[i]),
        dag.generation(dag.parent_ids(c)[i]) < dag.generation(c),
        dag.is_ancestor(dag.parent_ids(c)[i], c),
{
    let p = dag.parent_ids(c)[i];
    assert(dag.parents(c)[i].cs_id == p);
    assert(dag.is_parent(p, c));
    dag.lemma_parent(p, c);
}

/// The generation of a changeset is 1 for a root, and one more than the
/// highest generation among its parents for any other.
pub proof fn law_generation(dag: Dag, c: ChangesetId)
    requires
        dag.wf(),
        dag.contains(c),
    ensures
        dag.generation(c) == dag.highest_generation(dag.parent_ids(c)) + 1,
{
    let ids = dag.parent_ids(c);
    assert(dag.record_wf(c));
    dag.lemma_highest_generation(ids);
    let e = dag.edges[c];
    assert forall|i: int| 0 <= i < ids.len() implies dag.generation(#[trigger] ids[i])
        == e.parents[i].generation.0 by {
        assert(dag.has_node(e.parents[i]));
    }
    if ids.len() > 0 {
        let k = choose|k: int|
            0 <= k < e.parents.len() && (#[trigger] e.parents[k]).generation.0 + 1
                == e.node.generation.0;
        assert(dag.generation(ids[k]) + 1 == dag.generation(c));
        let m = choose|m: int|
            0 <= m < ids.len() && dag.generation(#[trigger] ids[m]) == dag.highest_generation(ids);
        assert(e.parents[m].generation.0 < e.node.generation.0);
    }
}

/// A changeset that is added to the graph, with parents that the graph has
/// and whose generations leave room for one more, has the generation that
/// is one more than the highest among its parents, 1 where it has none; so
/// every parent has a lower generation than it, and is an ancestor of it.
pub proof fn law_added_generation(dag: Dag, cs_id: ChangesetId, parents: Seq<ChangesetId>, i: int)
    requires
        dag.wf(),
        !dag.contains(cs_id),
        forall|k: int| 0 <= k < parents.len() ==> dag.contains(#[trigger] parents[k]),
        dag.highest_generation(parents) < u64::MAX,
    ensures
        dag.with_record(dag.new_record(cs_id, parents)).wf(),
        dag.with_record(dag.new_record(cs_id, parents)).generation(cs_id) == dag.highest_generation(
            parents,
        ) + 1,
        parents.len() == 0 ==> dag.with_record(dag.new_record(cs_id, parents)).generation(cs_id)
            == 1,
        0 <= i < parents.len() ==> {
            let after = dag.with_record(dag.new_record(cs_id, parents));
            &&& after.generation(parents[i]) == dag.generation(parents[i])
            &&& after.generation(parents[i]) < after.generation(cs_id)
            &&& after.is_ancestor(parents[i], cs_id)
        },
{
    let record = dag.new_record(cs_id, parents);
    let after = dag.with_record(record);
    dag.lemma_with_new_record(cs_id, parents);
    dag.lemma_highest_generation(parents);
    assert(after.edges[cs_id] == record);
    if 0 <= i < parents.len() {
        assert(dag.record_wf(parents[i]));
        assert(after.edges[parents[i]] == dag.edges[parents[i]]);
        assert(after.parents(cs_id)[i].cs_id == parents[i]);
        assert(after.is_parent(parents[i], cs_id));
        after.lemma_parent(parents[i], cs_id);
    }
}

/// The ancestors of a changeset less the ancestors of the same changeset
/// are none.
pub proof fn law_difference_with_itself(dag: Dag, h: ChangesetId)
    ensures
        dag.difference(seq![h], seq![h]) == Set::<ChangesetId>::empty(),
{
    assert(dag.difference(seq![h], seq![h]) =~= Set::<ChangesetId>::empty());
}

/// The ancestors of a changeset less the ancestors of nothing are the
/// ancestors of the changeset.
pub proof fn law_difference_with_nothing(dag: Dag, h: ChangesetId)
    ensures
        dag.difference(seq![h], Seq::<ChangesetId>::empty()) == Set::new(
            |x: ChangesetId| dag.is_ancestor(x, h),
        ),
{
    let heads = seq![h];
    let all = Set::new(|x: ChangesetId| dag.is_ancestor(x, h));
    assert forall|x: ChangesetId|
        dag.difference(heads, Seq::<ChangesetId>::empty()).contains(x) <==> all.contains(x) by {
        if dag.is_ancestor(x, h) {
            assert(dag.is_ancestor(x, heads[0]));
        }
        if dag.is_ancestor_of_any(x, heads) {
            let i = choose|i: int| 0 <= i < heads.len() && dag.is_ancestor(x, #[trigger] heads[i]);
            assert(heads[i] == h);
        }
    }
    assert(dag.difference(heads, Seq::<ChangesetId>::empty()) =~= all);
}

/// A list in strictly ascending order holds nothing twice.
pub proof fn law_ascending_is_unique(ids: Seq<ChangesetId>)
    requires
        ascending(ids),
    ensures
        ids.no_duplicates(),
{
    assert forall|i: int, j: int| 0 <= i < ids.len() && 0 <= j < ids.len() && i != j implies ids[i]
        != ids[j] by {
        if i < j {
            assert(ids[i].precedes(ids[j]));
        } else {
            assert(ids[j].precedes(ids[i]));
        }
    }
}

/// A changeset of the common base of `u` and `v` is an ancestor of both,
/// and no strict descendant of it is.
pub proof fn law_common_base_is_greatest(
    dag: Dag,
    u: ChangesetId,
    v: ChangesetId,
    c: ChangesetId,
    d: ChangesetId,
)
    requires
        dag.wf(),
        dag.is_common_base(c, u, v),
        dag.is_ancestor(c, d),
        dag.is_ancestor(d, u),
        dag.is_ancestor(d, v),
    ensures
        dag.is_ancestor(c, u),
        dag.is_ancestor(c, v),
        d == c,
{
    assert(dag.is_common_ancestor(d, u, v));
    dag.lemma_ancestor_generation(c, d);
}

/// The changesets of the common base of `u` and `v` are of one generation.
pub proof fn law_common_base_one_generation(
    dag: Dag,
    u: ChangesetId,
    v: ChangesetId,
    c: ChangesetId,
    d: ChangesetId,
)
    requires
        dag.is_common_base(c, u, v),
        dag.is_common_base(d, u, v),
    ensures
        dag.generation(c) == dag.generation(d),
{
    assert(dag.is_common_ancestor(c, u, v));
    assert(dag.is_common_ancestor(d, u, v));
}

/// Two changesets with a common ancestor have a common base.
pub proof fn law_common_base_exists(dag: Dag, u: ChangesetId, v: ChangesetId, c: ChangesetId)
    requires
        dag.wf(),
        dag.is_common_ancestor(c, u, v),
    ensures
        exists|b: ChangesetId| #[trigger] dag.is_common_base(b, u, v),
    decreases dag.generation(u) - dag.generation(c),
{
    dag.lemma_ancestor_generation(c, u);
    if forall|d: ChangesetId|
        #[trigger] dag.is_common_ancestor(d, u, v) ==> dag.generation(d) <= dag.generation(c) {
        assert(dag.is_common_base(c, u, v));
    } else {
        let d = choose|d: ChangesetId|
            #[trigger] dag.is_common_ancestor(d, u, v) && dag.generation(d) > dag.generation(c);
        dag.lemma_ancestor_generation(d, u);
        law_common_base_exists(dag, u, v, d);
    }
}

/// The range from a changeset to itself holds that changeset alone.
pub proof fn law_range_of_one(dag: Dag, c: ChangesetId)
    requires
        dag.wf(),
        dag.contains(c),
    ensures
        dag.range(c, c) == Set::<ChangesetId>::empty().insert(c),
{
    dag.lemma_reflexive(c);
    assert forall|x: ChangesetId| dag.range(c, c).contains(x) implies x == c by {
        law_ancestry_antisymmetric(dag, c, x);
    }
    assert(dag.range(c, c) =~= Set::<ChangesetId>::empty().insert(c));
}

/// A frontier that lies in the graph holds no changeset under two
/// generations.
pub proof fn law_frontier_one_generation_each(dag: Dag, f: Set<ChangesetNode>)
    requires
        dag.has_nodes(f),
    ensures
        one_generation_each(f),
{
    assert forall|a: ChangesetNode, b: ChangesetNode|
        f.contains(a) && f.contains(b) && a.cs_id == b.cs_id implies a == b by {
        assert(dag.has_node(a) && dag.has_node(b));
    }
}

/// The range from `start` to `end` holds a changeset just when `start` is
/// an ancestor of `end`; and then it holds both.
pub proof fn law_range_not_empty(dag: Dag, start: ChangesetId, end: ChangesetId)
    requires
        dag.wf(),
    ensures
        dag.range(start, end) != Set::<ChangesetId>::empty() <==> dag.is_ancestor(start, end),
        dag.is_ancestor(start, end) ==> dag.range(start, end).contains(start) && dag.range(
            start,
            end,
        ).contains(end),
{
    if dag.is_ancestor(start, end) {
        dag.lemma_ancestor_generation(start, end);
        dag.lemma_reflexive(start);
        dag.lemma_reflexive(end);
        assert(dag.range(start, end).contains(start));
    }
    if dag.range(start, end) != Set::<ChangesetId>::empty() {
        if forall|x: ChangesetId| !dag.range(start, end).contains(x) {
            assert(dag.range(start, end) =~= Set::<ChangesetId>::empty());
        }
        let x = choose|x: ChangesetId| dag.range(start, end).contains(x);
        dag.lemma_transitive(start, x, end);
    }
}

/// Every changeset of the range from `start` to `end` is a descendant of
/// `start` and an ancestor of `end`, and its generation lies between theirs.
pub proof fn law_range_between(dag: Dag, start: ChangesetId, end: ChangesetId, x: ChangesetId)
    requires
        dag.wf(),
        dag.range(start, end).contains(x),
    ensures
        dag.is_ancestor(start, x),
        dag.is_ancestor(x, end),
        dag.generation(start) <= dag.generation(x) <= dag.generation(end),
{
    dag.lemma_ancestor_generation(start, x);
    dag.lemma_ancestor_generation(x, end);
}

/// The windows of two slices that start apart hold no changeset in common:
/// slices cut the ancestors of the heads into parts.
pub proof fn law_slices_apart(
    dag: Dag,
    heads: Seq<ChangesetId>,
    size: int,
    first_start: int,
    second_start: int,
    x: ChangesetId,
)
    requires
        size > 0,
        first_start >= 1,
        second_start >= 1,
        (first_start - 1) % size == 0,
        (second_start - 1) % size == 0,
        dag.ancestors_in_window(heads, first_start, size).contains(x),
        dag.ancestors_in_window(heads, second_start, size).contains(x),
    ensures
        first_start == second_start,
{
    let a = first_start - 1;
    let b = second_start - 1;
    vstd::arithmetic::div_mod::lemma_fundamental_div_mod(a, size);
    vstd::arithmetic::div_mod::lemma_fundamental_div_mod(b, size);
    let qa = a / size;
    let qb = b / size;
    assert(a == size * qa);
    assert(b == size * qb);
    assert(qa == qb) by (nonlinear_arith)
        requires
            size > 0,
            a == size * qa,
            b == size * qb,
            a - b < size,
            b - a < size,
    ;
}

/// A changeset on the frontier of `members` is in `members` and is an
/// ancestor of a head.
pub proof fn law_frontier_members(
    dag: Dag,
    heads: Seq<ChangesetId>,
    members: spec_fn(ChangesetId) -> bool,
    f: ChangesetId,
)
    requires
        dag.wf(),
        on_frontier(dag, heads, members, f),
    ensures
        members(f),
        dag.is_ancestor_of_any(f, heads),
{
    if heads.contains(f) {
        let i = choose|i: int| 0 <= i < heads.len() && heads[i] == f;
        dag.lemma_reflexive(f);
        assert(dag.is_ancestor(f, heads[i]));
    } else {
        let c = choose|c: ChangesetId|
            #[trigger] dag.is_parent(f, c) && dag.is_ancestor_of_any(c, heads) && !members(c)
                && dag.generation(c) >= 0;
        let i = choose|i: int| 0 <= i < heads.len() && dag.is_ancestor(c, #[trigger] heads[i]);
        dag.lemma_parent(f, c);
        dag.lemma_transitive(f, c, heads[i]);
    }
}

/// On the way down from `d`, which is a head or was come to from outside
/// `members`, to `x` in `members`, there is a changeset on the frontier.
proof fn lemma_frontier_on_the_way(
    dag: Dag,
    heads: Seq<ChangesetId>,
    members: spec_fn(ChangesetId) -> bool,
    d: ChangesetId,
    x: ChangesetId,
) -> (f: ChangesetId)
    requires
        dag.wf(),
        dag.is_ancestor(x, d),
        dag.is_ancestor_of_any(d, heads),
        members(x),
        is_met(dag, heads, members, 0, d),
    ensures
        on_frontier(dag, heads, members, f),
        dag.is_ancestor(x, f),
        dag.is_ancestor(f, d),
    decreases dag.generation(d),
{
    dag.lemma_ancestor_generation(x, d);
    if members(d) {
        dag.lemma_reflexive(d);
        d
    } else {
        let p = dag.lemma_first_step(x, d);
        dag.lemma_parent(p, d);
        let i = choose|i: int| 0 <= i < heads.len() && dag.is_ancestor(d, #[trigger] heads[i]);
        dag.lemma_transitive(p, d, heads[i]);
        dag.lemma_generation_positive(d);
        assert(is_met(dag, heads, members, 0, p));
        let f = lemma_frontier_on_the_way(dag, heads, members, p, x);
        dag.lemma_transitive(f, p, d);
        f
    }
}

/// Every ancestor of a head that is in `members` is an ancestor of a
/// changeset on the frontier of `members`.
pub proof fn law_frontier_covers(
    dag: Dag,
    heads: Seq<ChangesetId>,
    members: spec_fn(ChangesetId) -> bool,
    x: ChangesetId,
)
    requires
        dag.wf(),
        dag.is_ancestor_of_any(x, heads),
        members(x),
    ensures
        exists|f: ChangesetId|
            on_frontier(dag, heads, members, f) && #[trigger] dag.is_ancestor(x, f),
{
    let i = choose|i: int| 0 <= i < heads.len() && dag.is_ancestor(x, #[trigger] heads[i]);
    let h = heads[i];
    dag.lemma_ancestor_generation(x, h);
    dag.lemma_reflexive(h);
    assert(heads.contains(h));
    assert(dag.is_ancestor(h, heads[i]));
    let f = lemma_frontier_on_the_way(dag, heads, members, h, x);
}

/// On a way down from a head, the first changeset in `members` is on the
/// frontier of `members`: the frontier has one changeset for each way down
/// that comes into `members`.
pub proof fn law_frontier_first_on_the_way(
    dag: Dag,
    heads: Seq<ChangesetId>,
    members: spec_fn(ChangesetId) -> bool,
    path: Seq<ChangesetId>,
    k: int,
)
    requires
        dag.wf(),
        dag.is_path(path),
        heads.contains(path[0]),
        0 <= k < path.len(),
        members(path[k]),
        forall|j: int| 0 <= j < k ==> !members(#[trigger] path[j]),
    ensures
        on_frontier(dag, heads, members, path[k]),
{
    dag.lemma_path_nodes(path, k);
    if k > 0 {
        let upper = path.subrange(0, k);
        assert(dag.is_path(upper)) by {
            assert forall|i: int| 0 < i < upper.len() implies dag.is_parent(
                #[trigger] upper[i],
                upper[i - 1],
            ) by {
                assert(dag.is_parent(path[i], path[i - 1]));
            }
        }
        assert(upper[0] == path[0] && upper.last() == path[k - 1]);
        assert(dag.is_ancestor(path[k - 1], path[0]));
        let i = choose|i: int| 0 <= i < heads.len() && heads[i] == path[0];
        assert(dag.is_ancestor(path[k - 1], heads[i]));
        assert(dag.is_parent(path[k], path[k - 1]));
        dag.lemma_path_nodes(path, k - 1);
        dag.lemma_generation_positive(path[k - 1]);
    }
}

/// A changeset on the frontier is below another changeset on the frontier
/// only when it is met on a second way down: it is a head itself, or a
/// parent of an ancestor of the heads outside `members` that is no ancestor
/// of the other.
pub proof fn law_frontier_second_way(
    dag: Dag,
    heads: Seq<ChangesetId>,
    members: spec_fn(ChangesetId) -> bool,
    f: ChangesetId,
    g: ChangesetId,
)
    requires
        dag.wf(),
        forall|p: ChangesetId, c: ChangesetId|
            #[trigger] dag.is_parent(p, c) && members(c) ==> members(p),
        on_frontier(dag, heads, members, f),
        on_frontier(dag, heads, members, g),
        dag.is_ancestor(f, g),
    ensures
        heads.contains(f) || exists|c: ChangesetId|
            #[trigger] dag.is_parent(f, c) && dag.is_ancestor_of_any(c, heads) && !members(c)
                && !dag.is_ancestor(c, g),
{
    if !heads.contains(f) {
        let c = choose|c: ChangesetId|
            #[trigger] dag.is_parent(f, c) && dag.is_ancestor_of_any(c, heads) && !members(c)
                && dag.generation(c) >= 0;
        if dag.is_ancestor(c, g) {
            dag.lemma_closed_downward(members, c, g);
        }
    }
}

/// In a history where no changeset has two parents, the frontier of the
/// ancestors of one head holds no two changesets: none on it is a strict
/// ancestor of another.
pub proof fn law_frontier_of_a_line(
    dag: Dag,
    head: ChangesetId,
    members: spec_fn(ChangesetId) -> bool,
    f: ChangesetId,
    g: ChangesetId,
)
    requires
        dag.wf(),
        forall|c: ChangesetId| dag.contains(c) ==> #[trigger] dag.parents(c).len() <= 1,
        forall|p: ChangesetId, c: ChangesetId|
            #[trigger] dag.is_parent(p, c) && members(c) ==> members(p),
        on_frontier(dag, seq![head], members, f),
        on_frontier(dag, seq![head], members, g),
    ensures
        f == g,
{
    let heads = seq![head];
    law_frontier_members(dag, heads, members, f);
    law_frontier_members(dag, heads, members, g);
    assert(dag.is_ancestor(f, head)) by {
        let i = choose|i: int| 0 <= i < heads.len() && dag.is_ancestor(f, #[trigger] heads[i]);
    }
    assert(dag.is_ancestor(g, head)) by {
        let i = choose|i: int| 0 <= i < heads.len() && dag.is_ancestor(g, #[trigger] heads[i]);
    }
    lemma_line_ancestors(dag, head, f, g);
    if dag.is_ancestor(f, g) {
        lemma_line_frontier(dag, head, members, f, g);
    } else {
        lemma_line_frontier(dag, head, members, g, f);
    }
}

/// In a history where no changeset has two parents, of two ancestors of a
/// changeset one is an ancestor of the other.
proof fn lemma_line_ancestors(dag: Dag, d: ChangesetId, a: ChangesetId, b: ChangesetId)
    requires
        dag.wf(),
        forall|c: ChangesetId| dag.contains(c) ==> #[trigger] dag.parents(c).len() <= 1,
        dag.is_ancestor(a, d),
        dag.is_ancestor(b, d),
    ensures
        dag.is_ancestor(a, b) || dag.is_ancestor(b, a),
    decreases dag.generation(d),
{
    dag.lemma_ancestor_generation(a, d);
    if a == d || b == d {
    } else {
        let p = dag.lemma_first_step(a, d);
        let q = dag.lemma_first_step(b, d);
        let i = choose|i: int|
            0 <= i < dag.parents(d).len() && (#[trigger] dag.parents(d)[i]).cs_id == p;
        let j = choose|j: int|
            0 <= j < dag.parents(d).len() && (#[trigger] dag.parents(d)[j]).cs_id == q;
        assert(p == q);
        dag.lemma_parent(p, d);
        lemma_line_ancestors(dag, p, a, b);
    }
}

/// In a history where no changeset has two parents, a changeset on the
/// frontier has no strict descendant on it.
proof fn lemma_line_frontier(
    dag: Dag,
    head: ChangesetId,
    members: spec_fn(ChangesetId) -> bool,
    f: ChangesetId,
    g: ChangesetId,
)
    requires
        dag.wf(),
        forall|c: ChangesetId| dag.contains(c) ==> #[trigger] dag.parents(c).len() <= 1,
        forall|p: ChangesetId, c: ChangesetId|
            #[trigger] dag.is_parent(p, c) && members(c) ==> members(p),
        on_frontier(dag, seq![head], members, f),
        on_frontier(dag, seq![head], members, g),
        dag.is_ancestor(f, g),
        dag.is_ancestor(g, head),
    ensures
        f == g,
{
    let heads = seq![head];
    if f != g {
        dag.lemma_ancestor_generation(f, g);
        dag.lemma_ancestor_generation(g, head);
        if heads.contains(f) {
            let i = choose|i: int| 0 <= i < heads.len() && heads[i] == f;
            assert(f == head);
            assert(false);
        } else {
            let c = choose|c: ChangesetId|
                #[trigger] dag.is_parent(f, c) && dag.is_ancestor_of_any(c, heads) && !members(c)
                    && dag.generation(c) >= 0;
            let i = choose|i: int| 0 <= i < heads.len() && dag.is_ancestor(c, #[trigger] heads[i]);
            assert(dag.is_ancestor(c, head));
            lemma_line_ancestors(dag, head, c, g);
            dag.lemma_parent(f, c);
            if dag.is_ancestor(c, g) {
                dag.lemma_closed_downward(members, c, g);
            } else {
                // g is an ancestor of c, and f is the only parent of c
                dag.lemma_ancestor_generation(g, c);
                if g != c {
                    let p = dag.lemma_first_step(g, c);
                    let m = choose|m: int|
                        0 <= m < dag.parents(c).len() && (#[trigger] dag.parents(c)[m]).cs_id == p;
                    let n = choose|n: int|
                        0 <= n < dag.parents(c).len() && (#[trigger] dag.parents(c)[n]).cs_id == f;
                    assert(p == f);
                    dag.lemma_ancestor_generation(g, f);
                }
            }
            assert(false);
        }
    }
}

} // verus!
