//! The mathematical model of a commit graph: a map from changesets to their
//! edge records, the conditions under which such a map is a graph of commits,
//! and ancestry in it.

use crate::ids::{ChangesetId, ChangesetNode, EdgesView};
use vstd::prelude::*;

verus! {

/// The commit graph as a mathematical object.
pub struct Dag {
    pub edges: Map<ChangesetId, EdgesView>,
}

impl Dag {
    /// The graph has the changeset.
    pub open spec fn contains(self, id: ChangesetId) -> bool {
        self.edges.contains_key(id)
    }

    /// The changeset with its generation.
    pub open spec fn node(self, id: ChangesetId) -> ChangesetNode {
        self.edges[id].node
    }

    /// The generation of the changeset.
    pub open spec fn generation(self, id: ChangesetId) -> int {
        self.edges[id].node.generation.0 as int
    }

    /// The parents of the changeset, in order, each with its generation.
    pub open spec fn parents(self, id: ChangesetId) -> Seq<ChangesetNode> {
        self.edges[id].parents
    }

    /// The identifiers of the parents of `id`, in order.
    pub open spec fn parent_ids(self, id: ChangesetId) -> Seq<ChangesetId> {
        self.parents(id).map_values(|n: ChangesetNode| n.cs_id)
    }

    /// `n` is a changeset of the graph, with the generation the graph has for it.
    pub open spec fn has_node(self, n: ChangesetNode) -> bool {
        self.contains(n.cs_id) && self.node(n.cs_id) == n
    }

    /// `parent` is among the parents of `child`.
    pub open spec fn is_parent(self, parent: ChangesetId, child: ChangesetId) -> bool {
        self.contains(child) && exists|i: int|
            0 <= i < self.parents(child).len() && (#[trigger] self.parents(child)[i]).cs_id
                == parent
    }

    /// `parent` is the first of the parents of `child`.
    pub open spec fn is_first_parent(self, parent: ChangesetId, child: ChangesetId) -> bool {
        self.contains(child) && self.parents(child).len() > 0 && self.parents(child)[0].cs_id
            == parent
    }

    /// `line` walks from a changeset down its first parents.
    pub open spec fn is_first_parent_line(self, line: Seq<ChangesetId>) -> bool {
        &&& line.len() > 0
        &&& self.contains(line[0])
        &&& forall|i: int|
            0 < i < line.len() ==> self.is_first_parent(#[trigger] line[i], line[i - 1])
    }

    /// `ancestor` is reached from `descendant` by following first parents only.
    pub open spec fn on_first_parent_line(
        self,
        ancestor: ChangesetId,
        descendant: ChangesetId,
    ) -> bool {
        exists|line: Seq<ChangesetId>|
            #[trigger] self.is_first_parent_line(line) && line[0] == descendant && line.last()
                == ancestor
    }

    /// The record of `id` is sound: it names `id`, its parents are changesets
    /// of the graph with lower generations, its generation is one more than
    /// the highest among them (1 for a root), and its skip pointer, if any,
    /// names a changeset of lower generation on the first-parent line.
    pub open spec fn record_wf(self, id: ChangesetId) -> bool {
        let e = self.edges[id];
        &&& e.node.cs_id == id
        &&& forall|i: int|
            0 <= i < e.parents.len() ==> self.has_node(#[trigger] e.parents[i])
                && e.parents[i].generation.0 < e.node.generation.0
        &&& (e.parents.len() == 0 ==> e.node.generation.0 == 1)
        &&& (e.parents.len() > 0 ==> exists|i: int|
            0 <= i < e.parents.len() && (#[trigger] e.parents[i]).generation.0 + 1
                == e.node.generation.0)
        &&& match e.skip_tree_skew_ancestor {
            Some(a) => self.has_node(a) && a.generation.0 < e.node.generation.0
                && self.on_first_parent_line(a.cs_id, id),
            None => true,
        }
    }

    /// Every record of the graph is sound.
    pub open spec fn wf(self) -> bool {
        forall|id: ChangesetId| self.contains(id) ==> #[trigger] self.record_wf(id)
    }

    /// `path` walks from a changeset of the graph down to an ancestor, one
    /// parent at a time.
    pub open spec fn is_path(self, path: Seq<ChangesetId>) -> bool {
        &&& path.len() > 0
        &&& self.contains(path[0])
        &&& forall|i: int| 0 < i < path.len() ==> self.is_parent(#[trigger] path[i], path[i - 1])
    }

    /// Ancestry, inclusive: a changeset of the graph is its own ancestor.
    pub open spec fn is_ancestor(self, ancestor: ChangesetId, descendant: ChangesetId) -> bool {
        exists|path: Seq<ChangesetId>|
            #[trigger] self.is_path(path) && path[0] == descendant && path.last() == ancestor
    }

    /// Some changeset of `ids` has `x` as an ancestor.
    pub open spec fn is_ancestor_of_any(self, x: ChangesetId, ids: Seq<ChangesetId>) -> bool {
        exists|i: int| 0 <= i < ids.len() && self.is_ancestor(x, #[trigger] ids[i])
    }

    /// `c` is an ancestor of both `u` and `v`.
    pub open spec fn is_common_ancestor(self, c: ChangesetId, u: ChangesetId, v: ChangesetId) -> bool {
        self.is_ancestor(c, u) && self.is_ancestor(c, v)
    }

    /// `c` is a greatest common ancestor of `u` and `v`: a common ancestor
    /// of the highest generation that any common ancestor has.
    pub open spec fn is_common_base(self, c: ChangesetId, u: ChangesetId, v: ChangesetId) -> bool {
        &&& self.is_common_ancestor(c, u, v)
        &&& forall|d: ChangesetId|
            #[trigger] self.is_common_ancestor(d, u, v) ==> self.generation(d) <= self.generation(c)
    }

    /// The ancestors of `heads` that are not ancestors of `common`.
    pub open spec fn difference(self, heads: Seq<ChangesetId>, common: Seq<ChangesetId>) -> Set<
        ChangesetId,
    > {
        Set::new(
            |x: ChangesetId|
                self.is_ancestor_of_any(x, heads) && !self.is_ancestor_of_any(x, common),
        )
    }

    /// The changesets that are descendants of `start` and ancestors of `end`.
    pub open spec fn range(self, start: ChangesetId, end: ChangesetId) -> Set<ChangesetId> {
        Set::new(|x: ChangesetId| self.is_ancestor(start, x) && self.is_ancestor(x, end))
    }

    /// Some node of `f` is an ancestor of `x`.
    pub open spec fn rises_to(self, f: Set<ChangesetNode>, x: ChangesetId) -> bool {
        exists|n: ChangesetNode| f.contains(n) && self.is_ancestor(#[trigger] n.cs_id, x)
    }

    /// Every node of `f` is a changeset of the graph with its generation.
    pub open spec fn has_nodes(self, f: Set<ChangesetNode>) -> bool {
        forall|n: ChangesetNode| f.contains(n) ==> self.has_node(n)
    }

    /// The nodes that the graph has for the changesets of `ids`.
    pub open spec fn nodes_of(self, ids: Seq<ChangesetId>) -> Set<ChangesetNode> {
        Set::new(|n: ChangesetNode| self.has_node(n) && ids.contains(n.cs_id))
    }

    /// Some node of `f` has `x` as an ancestor.
    pub open spec fn reaches(self, f: Set<ChangesetNode>, x: ChangesetId) -> bool {
        exists|n: ChangesetNode| f.contains(n) && self.is_ancestor(x, #[trigger] n.cs_id)
    }

    /// What a frontier `f` becomes when it is lowered to generation `t`: the
    /// nodes of `f` that are at `t` or below, and every parent at `t` or below
    /// of an ancestor of `f` above `t`.
    pub open spec fn lowered(self, f: Set<ChangesetNode>, t: int) -> Set<ChangesetNode> {
        Set::new(
            |n: ChangesetNode|
                self.has_node(n) && n.generation.0 <= t && (f.contains(n) || exists|
                    y: ChangesetId,
                |
                    #[trigger] self.reaches(f, y) && self.generation(y) > t && self.is_parent(
                        n.cs_id,
                        y,
                    )),
        )
    }

    // ---------------------------------------------------------------
    // Paths and ancestry
    // ---------------------------------------------------------------
    /// A parent is a changeset of the graph, of lower generation, and an ancestor.
    pub proof fn lemma_parent(self, p: ChangesetId, c: ChangesetId)
        requires
            self.wf(),
            self.is_parent(p, c),
        ensures
            self.contains(p),
            self.contains(c),
            self.generation(p) < self.generation(c),
            self.is_ancestor(p, c),
    {
        let k = choose|k: int|
            0 <= k < self.parents(c).len() && (#[trigger] self.parents(c)[k]).cs_id == p;
        assert(self.record_wf(c));
        assert(self.has_node(self.parents(c)[k]));
        let path = seq![c, p];
        assert(self.is_path(path)) by {
            assert forall|i: int| 0 < i < path.len() implies self.is_parent(
                #[trigger] path[i],
                path[i - 1],
            ) by {
                assert(i == 1);
            }
        }
        assert(path[0] == c && path.last() == p);
    }

    /// Along a path every changeset is in the graph, and generations fall by
    /// at least one at each step.
    pub proof fn lemma_path_nodes(self, path: Seq<ChangesetId>, j: int)
        requires
            self.wf(),
            self.is_path(path),
            0 <= j < path.len(),
        ensures
            self.contains(path[j]),
            self.generation(path[j]) + j <= self.generation(path[0]),
        decreases j,
    {
        if j > 0 {
            self.lemma_path_nodes(path, j - 1);
            assert(self.is_parent(path[j], path[j - 1]));
            self.lemma_parent(path[j], path[j - 1]);
        }
    }

    /// An ancestor is in the graph and its generation is not above the
    /// descendant's; the two are equal only for the changeset itself.
    pub proof fn lemma_ancestor_generation(self, a: ChangesetId, d: ChangesetId)
        requires
            self.wf(),
            self.is_ancestor(a, d),
        ensures
            self.contains(a),
            self.contains(d),
            self.generation(a) <= self.generation(d),
            self.generation(a) == self.generation(d) ==> a == d,
    {
        let path = choose|path: Seq<ChangesetId>|
            #[trigger] self.is_path(path) && path[0] == d && path.last() == a;
        self.lemma_path_nodes(path, path.len() - 1);
    }

    /// A changeset of the graph is its own ancestor.
    pub proof fn lemma_reflexive(self, c: ChangesetId)
        requires
            self.contains(c),
        ensures
            self.is_ancestor(c, c),
    {
        let path = seq![c];
        assert(self.is_path(path));
        assert(path[0] == c && path.last() == c);
    }

    /// An ancestor of an ancestor is an ancestor.
    pub proof fn lemma_transitive(self, a: ChangesetId, b: ChangesetId, c: ChangesetId)
        requires
            self.is_ancestor(a, b),
            self.is_ancestor(b, c),
        ensures
            self.is_ancestor(a, c),
    {
        let upper = choose|path: Seq<ChangesetId>|
            #[trigger] self.is_path(path) && path[0] == c && path.last() == b;
        let lower = choose|path: Seq<ChangesetId>|
            #[trigger] self.is_path(path) && path[0] == b && path.last() == a;
        let path = upper + lower.subrange(1, lower.len() as int);
        assert(self.is_path(path)) by {
            assert forall|i: int| 0 < i < path.len() implies self.is_parent(
                #[trigger] path[i],
                path[i - 1],
            ) by {
                if i < upper.len() {
                    assert(self.is_parent(upper[i], upper[i - 1]));
                } else {
                    let k = i - upper.len() + 1;
                    assert(self.is_parent(lower[k], lower[k - 1]));
                }
            }
        }
        assert(path[0] == c && path.last() == a);
    }

    /// The first step of the way down from `d` to a strict ancestor `a`.
    pub proof fn lemma_first_step(self, a: ChangesetId, d: ChangesetId) -> (p: ChangesetId)
        requires
            self.wf(),
            self.is_ancestor(a, d),
            a != d,
        ensures
            self.is_parent(p, d),
            self.is_ancestor(a, p),
    {
        let path = choose|path: Seq<ChangesetId>|
            #[trigger] self.is_path(path) && path[0] == d && path.last() == a;
        assert(path.len() >= 2);
        let p = path[1];
        assert(self.is_parent(path[1], path[0]));
        self.lemma_parent(p, d);
        let rest = path.subrange(1, path.len() as int);
        assert(self.is_path(rest)) by {
            assert forall|i: int| 0 < i < rest.len() implies self.is_parent(
                #[trigger] rest[i],
                rest[i - 1],
            ) by {
                assert(self.is_parent(path[i + 1], path[i]));
            }
        }
        assert(rest[0] == p && rest.last() == a);
        p
    }

    /// The last step of the way down from `d` to a strict ancestor `a`.
    pub proof fn lemma_last_step(self, a: ChangesetId, d: ChangesetId) -> (y: ChangesetId)
        requires
            self.is_ancestor(a, d),
            a != d,
        ensures
            self.is_parent(a, y),
            self.is_ancestor(y, d),
    {
        let path = choose|path: Seq<ChangesetId>|
            #[trigger] self.is_path(path) && path[0] == d && path.last() == a;
        assert(path.len() >= 2);
        let y = path[path.len() - 2];
        assert(self.is_parent(path[path.len() - 1], path[path.len() - 2]));
        let front = path.subrange(0, path.len() - 1);
        assert(self.is_path(front)) by {
            assert forall|i: int| 0 < i < front.len() implies self.is_parent(
                #[trigger] front[i],
                front[i - 1],
            ) by {
                assert(self.is_parent(path[i], path[i - 1]));
            }
        }
        assert(front[0] == d && front.last() == y);
        y
    }

    /// Below a changeset there is an ancestor at every generation down to 1.
    pub proof fn lemma_level(self, c: ChangesetId, t: int) -> (w: ChangesetId)
        requires
            self.wf(),
            self.contains(c),
            1 <= t <= self.generation(c),
        ensures
            self.is_ancestor(w, c),
            self.generation(w) == t,
        decreases self.generation(c) - t,
    {
        if self.generation(c) == t {
            self.lemma_reflexive(c);
            c
        } else {
            assert(self.record_wf(c));
            let e = self.edges[c];
            let i = choose|i: int|
                0 <= i < e.parents.len() && (#[trigger] e.parents[i]).generation.0 + 1
                    == e.node.generation.0;
            let p = e.parents[i].cs_id;
            assert(self.has_node(e.parents[i]));
            assert(self.parents(c)[i].cs_id == p);
            self.lemma_parent(p, c);
            let w = self.lemma_level(p, t);
            self.lemma_transitive(w, p, c);
            w
        }
    }

    /// The generation of a changeset of the graph is 1 at least.
    pub proof fn lemma_generation_positive(self, c: ChangesetId)
        requires
            self.wf(),
            self.contains(c),
        ensures
            self.generation(c) >= 1,
    {
        assert(self.record_wf(c));
    }

    /// A set of changesets that holds the parents of each of its members
    /// holds all their ancestors.
    pub proof fn lemma_closed_downward(
        self,
        members: spec_fn(ChangesetId) -> bool,
        a: ChangesetId,
        d: ChangesetId,
    )
        requires
            self.wf(),
            forall|p: ChangesetId, c: ChangesetId|
                #[trigger] self.is_parent(p, c) && members(c) ==> members(p),
            self.is_ancestor(a, d),
            members(d),
        ensures
            members(a),
        decreases self.generation(d),
    {
        if a != d {
            let p = self.lemma_first_step(a, d);
            self.lemma_parent(p, d);
            self.lemma_closed_downward(members, a, p);
        }
    }

    /// What a frontier reaches at its highest generation is in the frontier.
    pub proof fn lemma_reaches_at_height(self, f: Set<ChangesetNode>, top: int, x: ChangesetId)
        requires
            self.wf(),
            self.has_nodes(f),
            forall|n: ChangesetNode| f.contains(n) ==> n.generation.0 <= top,
            self.reaches(f, x),
            self.generation(x) == top,
        ensures
            f.contains(self.node(x)),
    {
        let n = choose|n: ChangesetNode| f.contains(n) && self.is_ancestor(x, #[trigger] n.cs_id);
        assert(self.has_node(n));
        self.lemma_ancestor_generation(x, n.cs_id);
    }

    /// The nodes of some changesets reach what is an ancestor of one of them.
    pub proof fn lemma_nodes_of_reaches(self, ids: Seq<ChangesetId>, x: ChangesetId)
        requires
            self.wf(),
        ensures
            self.reaches(self.nodes_of(ids), x) <==> self.is_ancestor_of_any(x, ids),
    {
        if self.reaches(self.nodes_of(ids), x) {
            let n = choose|n: ChangesetNode|
                self.nodes_of(ids).contains(n) && self.is_ancestor(x, #[trigger] n.cs_id);
            let i = choose|i: int| 0 <= i < ids.len() && ids[i] == n.cs_id;
            assert(self.is_ancestor(x, ids[i]));
        }
        if self.is_ancestor_of_any(x, ids) {
            let i = choose|i: int| 0 <= i < ids.len() && self.is_ancestor(x, #[trigger] ids[i]);
            self.lemma_ancestor_generation(x, ids[i]);
            let n = self.node(ids[i]);
            assert(self.record_wf(ids[i]));
            assert(ids.contains(n.cs_id));
            assert(self.nodes_of(ids).contains(n));
            assert(self.is_ancestor(x, n.cs_id));
        }
    }

    // ---------------------------------------------------------------
    // Lowering
    // ---------------------------------------------------------------
    /// What a frontier reaches is in the graph, at or below the frontier's
    /// highest generation.
    pub proof fn lemma_reaches_bounded(self, f: Set<ChangesetNode>, t: int, y: ChangesetId)
        requires
            self.wf(),
            self.has_nodes(f),
            forall|n: ChangesetNode| f.contains(n) ==> n.generation.0 <= t,
            self.reaches(f, y),
        ensures
            self.contains(y),
            self.generation(y) <= t,
    {
        let n = choose|n: ChangesetNode| f.contains(n) && self.is_ancestor(y, #[trigger] n.cs_id);
        assert(self.has_node(n));
        self.lemma_ancestor_generation(y, n.cs_id);
    }

    /// A frontier that is already at `t` or below is not changed by lowering.
    pub proof fn lemma_lowered_unchanged(self, f: Set<ChangesetNode>, t: int)
        requires
            self.wf(),
            self.has_nodes(f),
            forall|n: ChangesetNode| f.contains(n) ==> n.generation.0 <= t,
        ensures
            self.lowered(f, t) == f,
    {
        assert forall|n: ChangesetNode| self.lowered(f, t).contains(n) implies f.contains(n) by {
            if !f.contains(n) {
                let y = choose|y: ChangesetId|
                    #[trigger] self.reaches(f, y) && self.generation(y) > t && self.is_parent(
                        n.cs_id,
                        y,
                    );
                self.lemma_reaches_bounded(f, t, y);
            }
        }
        assert forall|n: ChangesetNode| f.contains(n) implies self.lowered(f, t).contains(n) by {
            assert(self.has_node(n));
        }
        assert(self.lowered(f, t) =~= f);
    }

    /// A lowered frontier lies within the graph, at `t` or below.
    pub proof fn lemma_lowered_has_nodes(self, f: Set<ChangesetNode>, t: int)
        ensures
            self.has_nodes(self.lowered(f, t)),
            forall|n: ChangesetNode| self.lowered(f, t).contains(n) ==> n.generation.0 <= t,
    {
    }

    /// Every node of a lowered frontier is reached by the frontier.
    pub proof fn lemma_lowered_reached(self, f: Set<ChangesetNode>, t: int, n: ChangesetNode)
        requires
            self.wf(),
            self.has_nodes(f),
            self.lowered(f, t).contains(n),
        ensures
            self.reaches(f, n.cs_id),
    {
        if f.contains(n) {
            self.lemma_reflexive(n.cs_id);
        } else {
            let y = choose|y: ChangesetId|
                #[trigger] self.reaches(f, y) && self.generation(y) > t && self.is_parent(
                    n.cs_id,
                    y,
                );
            let m = choose|m: ChangesetNode|
                f.contains(m) && self.is_ancestor(y, #[trigger] m.cs_id);
            self.lemma_parent(n.cs_id, y);
            self.lemma_transitive(n.cs_id, y, m.cs_id);
        }
    }

    /// On the way down from `x`, which the frontier reaches, to `y` at `t` or
    /// below, there is a node of the lowered frontier.
    proof fn lemma_lowered_cuts(
        self,
        f: Set<ChangesetNode>,
        t: int,
        x: ChangesetId,
        y: ChangesetId,
    ) -> (m: ChangesetNode)
        requires
            self.wf(),
            self.has_nodes(f),
            self.reaches(f, x),
            self.is_ancestor(y, x),
            self.generation(y) <= t,
            self.generation(x) > t || self.lowered(f, t).contains(self.node(x)),
        ensures
            self.lowered(f, t).contains(m),
            self.is_ancestor(y, m.cs_id),
        decreases self.generation(x),
    {
        self.lemma_ancestor_generation(y, x);
        assert(self.record_wf(x));
        if self.lowered(f, t).contains(self.node(x)) {
            self.node(x)
        } else {
            let p = self.lemma_first_step(y, x);
            self.lemma_parent(p, x);
            let top = choose|n: ChangesetNode|
                f.contains(n) && self.is_ancestor(x, #[trigger] n.cs_id);
            self.lemma_transitive(p, x, top.cs_id);
            assert(self.reaches(f, p));
            assert(self.record_wf(p));
            if self.generation(p) <= t {
                assert(self.has_node(self.node(p)));
                assert(self.lowered(f, t).contains(self.node(p)));
            }
            self.lemma_lowered_cuts(f, t, p, y)
        }
    }

    /// A lowered frontier reaches exactly what the frontier reaches at `t` or below.
    pub proof fn lemma_lowered_reaches(self, f: Set<ChangesetNode>, t: int, y: ChangesetId)
        requires
            self.wf(),
            self.has_nodes(f),
        ensures
            self.reaches(self.lowered(f, t), y) <==> self.reaches(f, y) && self.generation(y) <= t,
    {
        if self.reaches(self.lowered(f, t), y) {
            let m = choose|m: ChangesetNode|
                self.lowered(f, t).contains(m) && self.is_ancestor(y, #[trigger] m.cs_id);
            self.lemma_lowered_reached(f, t, m);
            let top = choose|n: ChangesetNode|
                f.contains(n) && self.is_ancestor(m.cs_id, #[trigger] n.cs_id);
            self.lemma_transitive(y, m.cs_id, top.cs_id);
            self.lemma_ancestor_generation(y, m.cs_id);
        }
        if self.reaches(f, y) && self.generation(y) <= t {
            let top = choose|n: ChangesetNode|
                f.contains(n) && self.is_ancestor(y, #[trigger] n.cs_id);
            assert(self.has_node(top));
            self.lemma_reflexive(top.cs_id);
            let m = self.lemma_lowered_cuts(f, t, top.cs_id, y);
        }
    }

    /// Lowering in two steps is lowering in one.
    pub proof fn lemma_lowered_twice(self, f: Set<ChangesetNode>, mid: int, t: int)
        requires
            self.wf(),
            self.has_nodes(f),
            t <= mid,
        ensures
            self.lowered(self.lowered(f, mid), t) == self.lowered(f, t),
    {
        let g = self.lowered(f, mid);
        assert forall|n: ChangesetNode| self.lowered(g, t).contains(n) implies self.lowered(
            f,
            t,
        ).contains(n) by {
            if g.contains(n) {
                if !f.contains(n) {
                    let y = choose|y: ChangesetId|
                        #[trigger] self.reaches(f, y) && self.generation(y) > mid
                            && self.is_parent(n.cs_id, y);
                    assert(self.reaches(f, y) && self.generation(y) > t && self.is_parent(
                        n.cs_id,
                        y,
                    ));
                }
            } else {
                let y = choose|y: ChangesetId|
                    #[trigger] self.reaches(g, y) && self.generation(y) > t && self.is_parent(
                        n.cs_id,
                        y,
                    );
                self.lemma_lowered_reaches(f, mid, y);
                assert(self.reaches(f, y));
            }
        }
        assert forall|n: ChangesetNode| self.lowered(f, t).contains(n) implies self.lowered(
            g,
            t,
        ).contains(n) by {
            if f.contains(n) {
                assert(g.contains(n));
            } else {
                let y = choose|y: ChangesetId|
                    #[trigger] self.reaches(f, y) && self.generation(y) > t && self.is_parent(
                        n.cs_id,
                        y,
                    );
                if self.generation(y) > mid {
                    assert(g.contains(n));
                } else {
                    self.lemma_lowered_reaches(f, mid, y);
                    assert(self.reaches(g, y));
                }
            }
        }
        assert(self.lowered(g, t) =~= self.lowered(f, t));
    }

    /// One wave of lowering: a frontier whose highest generation is `top`,
    /// with the nodes at `top` replaced by their parents, is the frontier
    /// lowered to `top - 1`.
    pub proof fn lemma_lowered_wave(
        self,
        f: Set<ChangesetNode>,
        top: int,
        after: Set<ChangesetNode>,
    )
        requires
            self.wf(),
            self.has_nodes(f),
            forall|n: ChangesetNode| f.contains(n) ==> n.generation.0 <= top,
            forall|n: ChangesetNode|
                after.contains(n) <==> (f.contains(n) && n.generation.0 < top) || (self.has_node(
                    n,
                ) && exists|b: ChangesetNode|
                    f.contains(b) && b.generation.0 == top && self.is_parent(
                        n.cs_id,
                        #[trigger] b.cs_id,
                    )),
        ensures
            after == self.lowered(f, top - 1),
    {
        let low = self.lowered(f, top - 1);
        assert forall|n: ChangesetNode| after.contains(n) implies low.contains(n) by {
            if f.contains(n) && n.generation.0 < top {
                assert(self.has_node(n));
            } else {
                let b = choose|b: ChangesetNode|
                    f.contains(b) && b.generation.0 == top && self.is_parent(
                        n.cs_id,
                        #[trigger] b.cs_id,
                    );
                assert(self.has_node(b));
                self.lemma_reflexive(b.cs_id);
                assert(self.reaches(f, b.cs_id));
                self.lemma_parent(n.cs_id, b.cs_id);
            }
        }
        assert forall|n: ChangesetNode| low.contains(n) implies after.contains(n) by {
            if !f.contains(n) {
                let y = choose|y: ChangesetId|
                    #[trigger] self.reaches(f, y) && self.generation(y) > top - 1
                        && self.is_parent(n.cs_id, y);
                let b = choose|b: ChangesetNode|
                    f.contains(b) && self.is_ancestor(y, #[trigger] b.cs_id);
                assert(self.has_node(b));
                self.lemma_ancestor_generation(y, b.cs_id);
                assert(y == b.cs_id);
            }
        }
        assert(after =~= low);
    }
}

} // verus!
