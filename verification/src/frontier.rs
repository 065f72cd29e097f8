//! The frontier: the changesets that a traversal has still to expand, kept
//! by generation.

use crate::ids::{ChangesetId, ChangesetNode, Generation};
use vstd::prelude::*;

verus! {

/// The identifiers come in strictly ascending order.
pub open spec fn ascending(ids: Seq<ChangesetId>) -> bool {
    forall|i: int, j: int| 0 <= i < j < ids.len() ==> ids[i].precedes(ids[j])
}

/// The nodes come in strictly ascending order: by generation, then by identifier.
pub open spec fn ascending_nodes(nodes: Seq<ChangesetNode>) -> bool {
    forall|i: int, j: int| 0 <= i < j < nodes.len() ==> nodes[i].precedes(nodes[j])
}

/// `g` is the highest generation among the nodes of `s`.
pub open spec fn is_highest(s: Set<ChangesetNode>, g: u64) -> bool {
    &&& exists|n: ChangesetNode| s.contains(n) && #[trigger] n.generation.0 == g
    &&& forall|n: ChangesetNode| s.contains(n) ==> n.generation.0 <= g
}

/// `g` is the lowest generation among the nodes of `s`.
pub open spec fn is_lowest(s: Set<ChangesetNode>, g: u64) -> bool {
    &&& exists|n: ChangesetNode| s.contains(n) && #[trigger] n.generation.0 == g
    &&& forall|n: ChangesetNode| s.contains(n) ==> n.generation.0 >= g
}

/// The highest generation among the nodes of `s`, and 0 where `s` is empty.
pub open spec fn height(s: Set<ChangesetNode>) -> int {
    if exists|g: u64| is_highest(s, g) {
        (choose|g: u64| is_highest(s, g)) as int
    } else {
        0
    }
}

/// The lowest generation among the nodes of `s`, and 0 where `s` is empty.
pub open spec fn floor(s: Set<ChangesetNode>) -> int {
    if exists|g: u64| is_lowest(s, g) {
        (choose|g: u64| is_lowest(s, g)) as int
    } else {
        0
    }
}

/// The lowest generation of a set is its floor.
pub proof fn lemma_floor(s: Set<ChangesetNode>, g: u64)
    requires
        is_lowest(s, g),
    ensures
        floor(s) == g,
{
    let h = choose|h: u64| is_lowest(s, h);
    let n = choose|n: ChangesetNode| s.contains(n) && #[trigger] n.generation.0 == g;
    let m = choose|m: ChangesetNode| s.contains(m) && #[trigger] m.generation.0 == h;
}

/// Nodes that all lie above `bound` have a floor above `bound`, or there are none.
pub proof fn lemma_floor_bounded(s: Set<ChangesetNode>, bound: int)
    requires
        forall|n: ChangesetNode| s.contains(n) ==> n.generation.0 > bound,
    ensures
        floor(s) > bound || !(exists|g: u64| is_lowest(s, g)),
{
    if exists|g: u64| is_lowest(s, g) {
        let h = choose|h: u64| is_lowest(s, h);
        let m = choose|m: ChangesetNode| s.contains(m) && #[trigger] m.generation.0 == h;
    }
}

/// No changeset is in `s` under two generations.
pub open spec fn one_generation_each(s: Set<ChangesetNode>) -> bool {
    forall|a: ChangesetNode, b: ChangesetNode|
        s.contains(a) && s.contains(b) && a.cs_id == b.cs_id ==> a == b
}

/// `ids` lists, in ascending order, the changesets that `s` holds at generation `g`.
pub open spec fn is_bucket(s: Set<ChangesetNode>, g: Generation, ids: Seq<ChangesetId>) -> bool {
    &&& ascending(ids)
    &&& forall|id: ChangesetId|
        ids.contains(id) <==> s.contains(ChangesetNode { cs_id: id, generation: g })
}

/// The two sets have the same highest generation, and both hold `id` at it.
pub open spec fn at_both_heights(a: Set<ChangesetNode>, b: Set<ChangesetNode>, id: ChangesetId) -> bool {
    exists|g: u64|
        #[trigger] is_highest(a, g) && is_highest(b, g) && a.contains(
            ChangesetNode { cs_id: id, generation: Generation(g) },
        ) && b.contains(ChangesetNode { cs_id: id, generation: Generation(g) })
}

/// Nodes that all lie at `bound` or below have a height of `bound` at most.
pub proof fn lemma_height_bounded(s: Set<ChangesetNode>, bound: int)
    requires
        bound >= 0,
        forall|n: ChangesetNode| s.contains(n) ==> n.generation.0 <= bound,
    ensures
        height(s) <= bound,
{
    if exists|g: u64| is_highest(s, g) {
        let h = choose|h: u64| is_highest(s, h);
        let m = choose|m: ChangesetNode| s.contains(m) && #[trigger] m.generation.0 == h;
    }
}

/// The highest generation of a set is its height.
pub proof fn lemma_height(s: Set<ChangesetNode>, g: u64)
    requires
        is_highest(s, g),
    ensures
        height(s) == g,
{
    let h = choose|h: u64| is_highest(s, h);
    let n = choose|n: ChangesetNode| s.contains(n) && #[trigger] n.generation.0 == g;
    let m = choose|m: ChangesetNode| s.contains(m) && #[trigger] m.generation.0 == h;
}

/// The identifiers of a run of nodes.
pub open spec fn ids_of(nodes: Seq<ChangesetNode>) -> Seq<ChangesetId> {
    nodes.map_values(|n: ChangesetNode| n.cs_id)
}

/// A generation-indexed set of changesets.
///
/// The nodes are kept in one vector, ascending by generation and, within a
/// generation, by identifier; so every node occurs once, and the highest
/// generation is at the end.
pub struct ChangesetFrontier {
    nodes: Vec<ChangesetNode>,
}

impl View for ChangesetFrontier {
    type V = Set<ChangesetNode>;

    closed spec fn view(&self) -> Set<ChangesetNode> {
        self.nodes@.to_set()
    }
}

fn copy_ids(nodes: &Vec<ChangesetNode>, from: usize, to: usize) -> (ids: Vec<ChangesetId>)
    requires
        from <= to <= nodes.len(),
    ensures
        ids@ == ids_of(nodes@.subrange(from as int, to as int)),
{
    let mut ids: Vec<ChangesetId> = Vec::new();
    let mut i: usize = from;
    while i < to
        invariant
            from <= i <= to <= nodes.len(),
            ids@ == ids_of(nodes@.subrange(from as int, i as int)),
        decreases to - i,
    {
        ids.push(nodes[i].cs_id);
        i += 1;
        assert(ids@ =~= ids_of(nodes@.subrange(from as int, i as int)));
    }
    ids
}

/// The index at which the run of the last generation starts.
fn last_run_start(nodes: &Vec<ChangesetNode>) -> (start: usize)
    requires
        nodes.len() > 0,
        ascending_nodes(nodes@),
    ensures
        start < nodes.len(),
        forall|k: int|
            0 <= k < nodes.len() ==> (start <= k <==> (#[trigger] nodes[k]).generation
                == nodes[nodes.len() - 1].generation),
{
    let n = nodes.len();
    let g = nodes[n - 1].generation;
    let mut start: usize = n - 1;
    while start > 0 && nodes[start - 1].generation.0 == g.0
        invariant
            start < n,
            n == nodes.len(),
            g == nodes[n - 1].generation,
            forall|k: int| start <= k < n ==> (#[trigger] nodes[k]).generation == g,
        decreases start,
    {
        start -= 1;
    }
    assert forall|k: int| 0 <= k < start implies (#[trigger] nodes[k]).generation != g by {
        assert(nodes[k].precedes(nodes[n - 1]));
        if k < start - 1 {
            assert(nodes[k].precedes(nodes[start - 1]));
        }
        assert(nodes[start - 1].precedes(nodes[n - 1]));
    }
    start
}

/// The index at which the run of the first generation ends.
fn first_run_end(nodes: &Vec<ChangesetNode>) -> (end: usize)
    requires
        nodes.len() > 0,
        ascending_nodes(nodes@),
    ensures
        0 < end <= nodes.len(),
        forall|k: int|
            0 <= k < nodes.len() ==> (k < end <==> (#[trigger] nodes[k]).generation
                == nodes[0].generation),
{
    let n = nodes.len();
    let g = nodes[0].generation;
    let mut end: usize = 1;
    while end < n && nodes[end].generation.0 == g.0
        invariant
            0 < end <= n,
            n == nodes.len(),
            g == nodes[0].generation,
            forall|k: int| 0 <= k < end ==> (#[trigger] nodes[k]).generation == g,
        decreases n - end,
    {
        end += 1;
    }
    assert forall|k: int| end <= k < n implies (#[trigger] nodes[k]).generation != g by {
        assert(nodes[0].precedes(nodes[k]));
        if end < k {
            assert(nodes[end as int].precedes(nodes[k]));
        }
        assert(nodes[0].precedes(nodes[end as int]));
    }
    end
}

/// The identifiers of a run of one generation, taken out of an ascending
/// sequence, list what the sequence holds at that generation.
proof fn lemma_run_is_bucket(nodes: Seq<ChangesetNode>, from: int, to: int, g: Generation)
    requires
        ascending_nodes(nodes),
        0 <= from <= to <= nodes.len(),
        forall|k: int|
            0 <= k < nodes.len() ==> (from <= k < to <==> (#[trigger] nodes[k]).generation == g),
    ensures
        is_bucket(nodes.to_set(), g, ids_of(nodes.subrange(from, to))),
{
    let run = nodes.subrange(from, to);
    let ids = ids_of(run);
    assert forall|i: int, j: int| 0 <= i < j < ids.len() implies ids[i].precedes(ids[j]) by {
        assert(nodes[from + i].precedes(nodes[from + j]));
    }
    assert forall|id: ChangesetId| ids.contains(id) implies nodes.to_set().contains(
        ChangesetNode { cs_id: id, generation: g },
    ) by {
        let i = choose|i: int| 0 <= i < ids.len() && ids[i] == id;
        assert(nodes[from + i] == ChangesetNode { cs_id: id, generation: g });
        assert(nodes.contains(nodes[from + i]));
    }
    assert forall|id: ChangesetId|
        nodes.to_set().contains(ChangesetNode { cs_id: id, generation: g }) implies ids.contains(
        id,
    ) by {
        let n = ChangesetNode { cs_id: id, generation: g };
        let k = choose|k: int| 0 <= k < nodes.len() && nodes[k] == n;
        assert(ids[k - from] == id);
    }
}

impl ChangesetFrontier {
    #[verifier::type_invariant]
    spec fn inv(self) -> bool {
        ascending_nodes(self.nodes@)
    }

    /// The nodes of the frontier in the order in which it keeps them.
    pub closed spec fn order(&self) -> Seq<ChangesetNode> {
        self.nodes@
    }

    /// The empty frontier.
    pub fn new() -> (frontier: ChangesetFrontier)
        ensures
            frontier@ == Set::<ChangesetNode>::empty(),
    {
        let frontier = ChangesetFrontier { nodes: Vec::new() };
        assert(frontier.nodes@.to_set() =~= Set::<ChangesetNode>::empty());
        frontier
    }

    /// The frontier of one changeset.
    pub fn new_single(cs_id: ChangesetId, generation: Generation) -> (frontier: ChangesetFrontier)
        ensures
            frontier@ == Set::<ChangesetNode>::empty().insert(ChangesetNode { cs_id, generation }),
    {
        let mut nodes: Vec<ChangesetNode> = Vec::new();
        nodes.push(ChangesetNode { cs_id, generation });
        let frontier = ChangesetFrontier { nodes };
        assert(frontier.nodes@.to_set() =~= Set::<ChangesetNode>::empty().insert(
            ChangesetNode { cs_id, generation },
        )) by {
            assert(frontier.nodes@[0] == ChangesetNode { cs_id, generation });
        }
        frontier
    }

    /// Whether the frontier holds nothing.
    pub fn is_empty(&self) -> (r: bool)
        ensures
            r <==> self@ == Set::<ChangesetNode>::empty(),
    {
        proof {
            if self.nodes@.len() > 0 {
                assert(self.nodes@.contains(self.nodes@[0]));
                assert(self@.contains(self.nodes@[0]));
            } else {
                assert(self.nodes@.to_set() =~= Set::<ChangesetNode>::empty());
            }
        }
        self.nodes.len() == 0
    }

    /// Puts a changeset into the frontier under the given generation.
    pub fn insert(&mut self, cs_id: ChangesetId, generation: Generation)
        ensures
            final(self)@ == old(self)@.insert(ChangesetNode { cs_id, generation }),
    {
        proof {
            use_type_invariant(&*self);
        }
        let node = ChangesetNode { cs_id, generation };
        let mut nodes: Vec<ChangesetNode> = Vec::new();
        std::mem::swap(&mut nodes, &mut self.nodes);
        let ghost before = nodes@;
        let mut at: usize = nodes.len();
        while at > 0 && node.lt(&nodes[at - 1])
            invariant
                at <= nodes.len(),
                nodes@ == before,
                forall|k: int| at <= k < nodes.len() ==> node.precedes(#[trigger] nodes[k]),
            decreases at,
        {
            at -= 1;
        }
        if at > 0 && nodes[at - 1] == node {
            proof {
                assert(before.contains(before[at - 1]));
                assert(before.to_set() =~= before.to_set().insert(node));
            }
        } else {
            nodes.insert(at, node);
            proof {
                let after = nodes@;
                assert forall|i: int, j: int| 0 <= i < j < after.len() implies after[i].precedes(
                    after[j],
                ) by {
                    if i < at && j > at {
                        assert(before[i].precedes(before[j - 1]));
                    } else if j == at {
                        if i < at - 1 {
                            assert(before[i].precedes(before[at - 1]));
                        }
                    }
                }
                assert forall|n: ChangesetNode| after.contains(n) implies before.to_set().insert(
                    node,
                ).contains(n) by {
                    let k = choose|k: int| 0 <= k < after.len() && after[k] == n;
                    if k < at {
                        assert(before.contains(before[k]));
                    } else if k > at {
                        assert(before.contains(before[k - 1]));
                    }
                }
                assert forall|n: ChangesetNode|
                    before.to_set().insert(node).contains(n) implies after.contains(n) by {
                    if n == node {
                        assert(after[at as int] == node);
                    } else {
                        let k = choose|k: int| 0 <= k < before.len() && before[k] == n;
                        if k < at {
                            assert(after[k] == n);
                        } else {
                            assert(after[k + 1] == n);
                        }
                    }
                }
                assert(after.to_set() =~= before.to_set().insert(node));
            }
        }
        self.nodes = nodes;
    }

    /// The highest generation of the frontier and the changesets at it.
    pub fn last_key_value(&self) -> (r: Option<(Generation, Vec<ChangesetId>)>)
        ensures
            match r {
                None => self@ == Set::<ChangesetNode>::empty(),
                Some((g, ids)) => is_highest(self@, g.0) && is_bucket(self@, g, ids@),
            },
    {
        proof {
            use_type_invariant(self);
        }
        let n = self.nodes.len();
        if n == 0 {
            assert(self.nodes@.to_set() =~= Set::<ChangesetNode>::empty());
            return None;
        }
        let g = self.nodes[n - 1].generation;
        let start = last_run_start(&self.nodes);
        let ids = copy_ids(&self.nodes, start, n);
        proof {
            lemma_run_is_bucket(self.nodes@, start as int, n as int, g);
            assert(self.nodes@.contains(self.nodes@[n - 1]));
            assert forall|m: ChangesetNode| self@.contains(m) implies m.generation.0 <= g.0 by {
                let k = choose|k: int| 0 <= k < self.nodes@.len() && self.nodes@[k] == m;
                if k < n - 1 {
                    assert(self.nodes@[k].precedes(self.nodes@[n - 1]));
                }
            }
        }
        Some((g, ids))
    }

    /// The highest generation of the frontier.
    pub fn highest_generation(&self) -> (r: Option<Generation>)
        ensures
            match r {
                None => self@ == Set::<ChangesetNode>::empty(),
                Some(g) => is_highest(self@, g.0),
            },
    {
        proof {
            use_type_invariant(self);
        }
        let n = self.nodes.len();
        if n == 0 {
            assert(self.nodes@.to_set() =~= Set::<ChangesetNode>::empty());
            return None;
        }
        let g = self.nodes[n - 1].generation;
        proof {
            assert(self.nodes@.contains(self.nodes@[n - 1]));
            assert forall|m: ChangesetNode| self@.contains(m) implies m.generation.0 <= g.0 by {
                let k = choose|k: int| 0 <= k < self.nodes@.len() && self.nodes@[k] == m;
                if k < n - 1 {
                    assert(self.nodes@[k].precedes(self.nodes@[n - 1]));
                }
            }
        }
        Some(g)
    }

    /// Takes the highest generation out of the frontier, with the changesets at it.
    pub fn pop_last(&mut self) -> (r: Option<(Generation, Vec<ChangesetId>)>)
        ensures
            match r {
                None => old(self)@ == Set::<ChangesetNode>::empty() && final(self)@ == old(self)@,
                Some((g, ids)) => {
                    &&& is_highest(old(self)@, g.0)
                    &&& is_bucket(old(self)@, g, ids@)
                    &&& final(self)@ == old(self)@.filter(|n: ChangesetNode| n.generation != g)
                },
            },
    {
        proof {
            use_type_invariant(&*self);
        }
        let mut nodes: Vec<ChangesetNode> = Vec::new();
        std::mem::swap(&mut nodes, &mut self.nodes);
        let ghost before = nodes@;
        let n = nodes.len();
        if n == 0 {
            assert(before.to_set() =~= Set::<ChangesetNode>::empty());
            self.nodes = nodes;
            return None;
        }
        let g = nodes[n - 1].generation;
        let start = last_run_start(&nodes);
        let ids = copy_ids(&nodes, start, n);
        nodes.truncate(start);
        proof {
            lemma_run_is_bucket(before, start as int, n as int, g);
            assert(before.contains(before[n - 1]));
            assert forall|m: ChangesetNode| before.to_set().contains(m) implies m.generation.0
                <= g.0 by {
                let k = choose|k: int| 0 <= k < before.len() && before[k] == m;
                if k < n - 1 {
                    assert(before[k].precedes(before[n - 1]));
                }
            }
            let rest = before.to_set().filter(|n: ChangesetNode| n.generation != g);
            assert forall|m: ChangesetNode| nodes@.contains(m) implies rest.contains(m) by {
                let k = choose|k: int| 0 <= k < nodes@.len() && nodes@[k] == m;
                assert(before.contains(before[k]));
            }
            assert forall|m: ChangesetNode| rest.contains(m) implies nodes@.contains(m) by {
                let k = choose|k: int| 0 <= k < before.len() && before[k] == m;
                assert(nodes@[k] == m);
            }
            assert(nodes@.to_set() =~= rest);
        }
        self.nodes = nodes;
        Some((g, ids))
    }

    /// Takes the lowest generation out of the frontier, with the changesets at it.
    pub fn pop_first(&mut self) -> (r: Option<(Generation, Vec<ChangesetId>)>)
        ensures
            match r {
                None => old(self)@ == Set::<ChangesetNode>::empty() && final(self)@ == old(self)@,
                Some((g, ids)) => {
                    &&& is_lowest(old(self)@, g.0)
                    &&& is_bucket(old(self)@, g, ids@)
                    &&& final(self)@ == old(self)@.filter(|n: ChangesetNode| n.generation != g)
                },
            },
    {
        proof {
            use_type_invariant(&*self);
        }
        let mut nodes: Vec<ChangesetNode> = Vec::new();
        std::mem::swap(&mut nodes, &mut self.nodes);
        let ghost before = nodes@;
        let n = nodes.len();
        if n == 0 {
            assert(before.to_set() =~= Set::<ChangesetNode>::empty());
            self.nodes = nodes;
            return None;
        }
        let g = nodes[0].generation;
        let end = first_run_end(&nodes);
        let ids = copy_ids(&nodes, 0, end);
        let tail = nodes.split_off(end);
        proof {
            lemma_run_is_bucket(before, 0, end as int, g);
            assert(before.contains(before[0]));
            assert forall|m: ChangesetNode| before.to_set().contains(m) implies m.generation.0
                >= g.0 by {
                let k = choose|k: int| 0 <= k < before.len() && before[k] == m;
                if 0 < k {
                    assert(before[0].precedes(before[k]));
                }
            }
            let rest = before.to_set().filter(|n: ChangesetNode| n.generation != g);
            assert forall|i: int, j: int| 0 <= i < j < tail@.len() implies tail@[i].precedes(
                tail@[j],
            ) by {
                assert(before[end + i].precedes(before[end + j]));
            }
            assert forall|m: ChangesetNode| tail@.contains(m) implies rest.contains(m) by {
                let k = choose|k: int| 0 <= k < tail@.len() && tail@[k] == m;
                assert(before.contains(before[end + k]));
            }
            assert forall|m: ChangesetNode| rest.contains(m) implies tail@.contains(m) by {
                let k = choose|k: int| 0 <= k < before.len() && before[k] == m;
                assert(tail@[k - end] == m);
            }
            assert(tail@.to_set() =~= rest);
        }
        self.nodes = tail;
        Some((g, ids))
    }

    /// The changesets of the frontier, flattened: ascending by generation and,
    /// within a generation, by identifier.
    pub fn changesets(&self) -> (ids: Vec<ChangesetId>)
        ensures
            ids@ == ids_of(self.order()),
            ascending_nodes(self.order()),
            self.order().to_set() == self@,
    {
        proof {
            use_type_invariant(self);
        }
        let ids = copy_ids(&self.nodes, 0, self.nodes.len());
        assert(self.nodes@.subrange(0, self.nodes@.len() as int) =~= self.nodes@);
        ids
    }

    /// The nodes of the frontier as pairs, in the order of `changesets`.
    pub fn into_flat_iter(self) -> (pairs: Vec<(ChangesetId, Generation)>)
        ensures
            pairs@ == self.order().map_values(|n: ChangesetNode| (n.cs_id, n.generation)),
            ascending_nodes(self.order()),
            self.order().to_set() == self@,
    {
        proof {
            use_type_invariant(&self);
        }
        let mut pairs: Vec<(ChangesetId, Generation)> = Vec::new();
        let mut i: usize = 0;
        while i < self.nodes.len()
            invariant
                i <= self.nodes.len(),
                pairs@ == self.nodes@.subrange(0, i as int).map_values(
                    |n: ChangesetNode| (n.cs_id, n.generation),
                ),
            decreases self.nodes.len() - i,
        {
            pairs.push((self.nodes[i].cs_id, self.nodes[i].generation));
            i += 1;
            assert(pairs@ =~= self.nodes@.subrange(0, i as int).map_values(
                |n: ChangesetNode| (n.cs_id, n.generation),
            ));
        }
        assert(self.nodes@.subrange(0, self.nodes@.len() as int) =~= self.nodes@);
        pairs
    }

    /// Takes out of the frontier the changesets whose generations are in
    /// the range, and gives them in the order in which the frontier kept
    /// them: ascending by generation and, within a generation, by identifier.
    pub fn changesets_in_range(&mut self, range: std::ops::Range<Generation>) -> (ids: Vec<
        ChangesetId,
    >)
        ensures
            final(self)@ == old(self)@.filter(
                |n: ChangesetNode| !(range.start.0 <= n.generation.0 < range.end.0),
            ),
            ascending_nodes(old(self).order()),
            old(self).order().to_set() == old(self)@,
            exists|from: int, to: int|
                {
                    &&& 0 <= from <= to <= old(self).order().len()
                    &&& #[trigger] ids_of(old(self).order().subrange(from, to)) == ids@
                    &&& forall|k: int|
                        0 <= k < old(self).order().len() ==> (from <= k < to <==> range.start.0 <= (
                        #[trigger] old(self).order()[k]).generation.0 < range.end.0)
                },
    {
        proof {
            use_type_invariant(&*self);
        }
        let mut nodes: Vec<ChangesetNode> = Vec::new();
        std::mem::swap(&mut nodes, &mut self.nodes);
        let ghost before = nodes@;
        let n = nodes.len();
        let mut from: usize = 0;
        while from < n && nodes[from].generation.0 < range.start.0
            invariant
                from <= n,
                n == nodes.len(),
                nodes@ == before,
                forall|k: int| 0 <= k < from ==> (#[trigger] nodes[k]).generation.0 < range.start.0,
            decreases n - from,
        {
            from += 1;
        }
        let mut to: usize = from;
        while to < n && nodes[to].generation.0 < range.end.0
            invariant
                from <= to <= n,
                n == nodes.len(),
                nodes@ == before,
                forall|k: int| from <= k < to ==> (#[trigger] nodes[k]).generation.0 < range.end.0,
            decreases n - to,
        {
            to += 1;
        }
        proof {
            assert forall|k: int| 0 <= k < n implies (from <= k < to <==> range.start.0 <= (
            #[trigger] before[k]).generation.0 < range.end.0) by {
                if k >= from && from < n {
                    if k > from {
                        assert(before[from as int].precedes(before[k]));
                    }
                }
                if k >= to && to < n {
                    if k > to {
                        assert(before[to as int].precedes(before[k]));
                    }
                }
            }
        }
        let ids = copy_ids(&nodes, from, to);
        let mut tail = nodes.split_off(to);
        nodes.truncate(from);
        nodes.append(&mut tail);
        proof {
            let after = nodes@;
            assert(after =~= before.subrange(0, from as int) + before.subrange(to as int, n as int));
            assert forall|i: int, j: int| 0 <= i < j < after.len() implies after[i].precedes(
                after[j],
            ) by {
                let a = if i < from {
                    i
                } else {
                    i - from + to
                };
                let b = if j < from {
                    j
                } else {
                    j - from + to
                };
                assert(before[a].precedes(before[b]));
            }
            let rest = before.to_set().filter(
                |m: ChangesetNode| !(range.start.0 <= m.generation.0 < range.end.0),
            );
            assert forall|m: ChangesetNode| after.contains(m) implies rest.contains(m) by {
                let k = choose|k: int| 0 <= k < after.len() && after[k] == m;
                let a = if k < from {
                    k
                } else {
                    k - from + to
                };
                assert(before.contains(before[a]));
            }
            assert forall|m: ChangesetNode| rest.contains(m) implies after.contains(m) by {
                let k = choose|k: int| 0 <= k < before.len() && before[k] == m;
                if k < from {
                    assert(after[k] == m);
                } else {
                    assert(after[k - to + from] == m);
                }
            }
            assert(after.to_set() =~= rest);
            let order = old(self).order();
            assert(order == before);
            let f = from as int;
            let t = to as int;
            assert(ids_of(order.subrange(f, t)) == ids@);
            assert forall|k: int| 0 <= k < order.len() implies (f <= k < t <==> range.start.0 <= (
            #[trigger] order[k]).generation.0 < range.end.0) by {
                assert(order[k] == before[k]);
            }
        }
        self.nodes = nodes;
        ids
    }

    /// Whether the frontier holds `cs_id` under `generation`.
    pub fn highest_generation_contains(&self, cs_id: ChangesetId, generation: Generation) -> (r:
        bool)
        ensures
            r == self@.contains(ChangesetNode { cs_id, generation }),
    {
        proof {
            use_type_invariant(self);
        }
        let node = ChangesetNode { cs_id, generation };
        let mut at: usize = self.nodes.len();
        while at > 0 && node.lt(&self.nodes[at - 1])
            invariant
                at <= self.nodes.len(),
                forall|k: int|
                    at <= k < self.nodes.len() ==> node.precedes(#[trigger] self.nodes[k]),
            decreases at,
        {
            at -= 1;
        }
        let found = at > 0 && self.nodes[at - 1] == node;
        proof {
            if found {
                assert(self.nodes@.contains(self.nodes@[at - 1]));
            } else if self.nodes@.contains(node) {
                let k = choose|k: int| 0 <= k < self.nodes@.len() && self.nodes@[k] == node;
                if k < at - 1 {
                    assert(self.nodes@[k].precedes(self.nodes@[at - 1]));
                }
            }
        }
        found
    }

    /// Whether no changeset is in both frontiers under the same generation.
    pub fn is_disjoint(&self, other: &ChangesetFrontier) -> (r: bool)
        ensures
            r == self@.disjoint(other@),
    {
        proof {
            use_type_invariant(self);
            use_type_invariant(other);
        }
        let mut i: usize = 0;
        let mut j: usize = 0;
        while i < self.nodes.len() && j < other.nodes.len()
            invariant
                i <= self.nodes.len(),
                j <= other.nodes.len(),
                ascending_nodes(self.nodes@),
                ascending_nodes(other.nodes@),
                forall|x: int, y: int|
                    0 <= x < i && 0 <= y < other.nodes.len() ==> self.nodes[x] != other.nodes[y],
                forall|x: int, y: int|
                    0 <= x < self.nodes.len() && 0 <= y < j ==> self.nodes[x] != other.nodes[y],
            decreases self.nodes.len() - i + other.nodes.len() - j,
        {
            if self.nodes[i] == other.nodes[j] {
                proof {
                    let n = self.nodes@[i as int];
                    assert(self.nodes@.contains(n));
                    assert(other.nodes@[j as int] == n);
                    assert(other.nodes@.contains(n));
                    assert(self@.contains(n) && other@.contains(n));
                }
                return false;
            } else if self.nodes[i].lt(&other.nodes[j]) {
                proof {
                    assert forall|y: int| 0 <= y < other.nodes.len() implies self.nodes[i as int]
                        != other.nodes[y] by {
                        if j < y {
                            assert(other.nodes[j as int].precedes(other.nodes[y]));
                        }
                    }
                }
                i += 1;
            } else {
                proof {
                    assert forall|x: int| 0 <= x < self.nodes.len() implies self.nodes[x]
                        != other.nodes[j as int] by {
                        if i < x {
                            assert(self.nodes[i as int].precedes(self.nodes[x]));
                        }
                    }
                }
                j += 1;
            }
        }
        proof {
            assert forall|n: ChangesetNode| self@.contains(n) && other@.contains(n) implies false by {
                let x = choose|x: int| 0 <= x < self.nodes@.len() && self.nodes@[x] == n;
                let y = choose|y: int| 0 <= y < other.nodes@.len() && other.nodes@[y] == n;
            }
        }
        true
    }

    /// The changesets that are at the highest generation of both frontiers,
    /// where the two highest generations are the same; none where they differ.
    pub fn highest_generation_intersection(&self, other: &ChangesetFrontier) -> (ids: Vec<
        ChangesetId,
    >)
        ensures
            ascending(ids@),
            forall|id: ChangesetId| ids@.contains(id) <==> at_both_heights(self@, other@, id),
    {
        let mut ids: Vec<ChangesetId> = Vec::new();
        let mine = self.last_key_value();
        let theirs = other.last_key_value();
        match (mine, theirs) {
            (Some((g, candidates)), Some((h, _))) => {
                proof {
                    lemma_height(self@, g.0);
                    lemma_height(other@, h.0);
                }
                if g.0 == h.0 {
                    let mut i: usize = 0;
                    while i < candidates.len()
                        invariant
                            i <= candidates.len(),
                            g == h,
                            is_bucket(self@, g, candidates@),
                            forall|k: int|
                                0 <= k < ids.len() ==> candidates@.subrange(0, i as int).contains(
                                    #[trigger] ids[k],
                                ),
                            forall|k: int, l: int|
                                0 <= k < l < ids.len() ==> ids[k].precedes(ids[l]),
                            forall|k: int|
                                0 <= k < ids.len() ==> other@.contains(
                                    ChangesetNode { cs_id: #[trigger] ids[k], generation: g },
                                ),
                            forall|c: int|
                                0 <= c < i && other@.contains(
                                    ChangesetNode { cs_id: candidates[c], generation: g },
                                ) ==> ids@.contains(#[trigger] candidates[c]),
                        decreases candidates.len() - i,
                    {
                        let id = candidates[i];
                        if other.highest_generation_contains(id, g) {
                            proof {
                                assert forall|k: int| 0 <= k < ids.len() implies ids[k].precedes(
                                    id,
                                ) by {
                                    let seen = candidates@.subrange(0, i as int);
                                    let c = choose|c: int| 0 <= c < seen.len() && seen[c] == ids[k];
                                    assert(candidates[c].precedes(candidates[i as int]));
                                }
                            }
                            let ghost before = ids@;
                            ids.push(id);
                            proof {
                                let seen = candidates@.subrange(0, i + 1);
                                assert forall|k: int| 0 <= k < ids.len() implies seen.contains(
                                    #[trigger] ids[k],
                                ) by {
                                    if k < before.len() {
                                        let old_seen = candidates@.subrange(0, i as int);
                                        let c = choose|c: int|
                                            0 <= c < old_seen.len() && old_seen[c] == before[k];
                                        assert(seen[c] == ids[k]);
                                    } else {
                                        assert(seen[i as int] == ids[k]);
                                    }
                                }
                                assert forall|c: int|
                                    0 <= c < i + 1 && other@.contains(
                                        ChangesetNode { cs_id: candidates[c], generation: g },
                                    ) implies ids@.contains(#[trigger] candidates[c]) by {
                                    if c < i {
                                        let k = choose|k: int|
                                            0 <= k < before.len() && before[k] == candidates[c];
                                        assert(ids@[k] == candidates[c]);
                                    } else {
                                        assert(ids@[ids.len() - 1] == candidates[c]);
                                    }
                                }
                            }
                        } else {
                            proof {
                                let seen = candidates@.subrange(0, i + 1);
                                assert forall|k: int| 0 <= k < ids.len() implies seen.contains(
                                    #[trigger] ids[k],
                                ) by {
                                    let old_seen = candidates@.subrange(0, i as int);
                                    let c = choose|c: int|
                                        0 <= c < old_seen.len() && old_seen[c] == ids[k];
                                    assert(seen[c] == ids[k]);
                                }
                            }
                        }
                        i += 1;
                    }
                    proof {
                        assert forall|id: ChangesetId| ids@.contains(id) implies at_both_heights(
                            self@,
                            other@,
                            id,
                        ) by {
                            let k = choose|k: int| 0 <= k < ids.len() && ids[k] == id;
                            let seen = candidates@.subrange(0, i as int);
                            let c = choose|c: int| 0 <= c < seen.len() && seen[c] == ids[k];
                            assert(candidates@.contains(candidates[c]));
                            assert(self@.contains(ChangesetNode { cs_id: id, generation: g }));
                            assert(is_highest(self@, g.0) && is_highest(other@, g.0));
                        }
                        assert forall|id: ChangesetId|
                            at_both_heights(self@, other@, id) implies ids@.contains(id) by {
                            let g2 = choose|g2: u64|
                                #[trigger] is_highest(self@, g2) && is_highest(other@, g2)
                                    && self@.contains(
                                    ChangesetNode { cs_id: id, generation: Generation(g2) },
                                ) && other@.contains(
                                    ChangesetNode { cs_id: id, generation: Generation(g2) },
                                );
                            lemma_height(self@, g2);
                            assert(Generation(g2) == g);
                            assert(candidates@.contains(id));
                            let c = choose|c: int| 0 <= c < candidates.len() && candidates[c] == id;
                        }
                    }
                } else {
                    proof {
                        assert forall|id: ChangesetId| !at_both_heights(self@, other@, id) by {
                            if at_both_heights(self@, other@, id) {
                                let g2 = choose|g2: u64|
                                    #[trigger] is_highest(self@, g2) && is_highest(other@, g2);
                                lemma_height(self@, g2);
                                lemma_height(other@, g2);
                            }
                        }
                    }
                }
            },
            _ => {
                proof {
                    assert forall|id: ChangesetId| !at_both_heights(self@, other@, id) by {
                        if at_both_heights(self@, other@, id) {
                            let g2 = choose|g2: u64|
                                #[trigger] is_highest(self@, g2) && is_highest(other@, g2);
                        }
                    }
                }
            },
        }
        ids
    }
}

impl Clone for ChangesetFrontier {
    fn clone(&self) -> (copy: ChangesetFrontier)
        ensures
            copy@ == self@,
    {
        proof {
            use_type_invariant(self);
        }
        let mut nodes: Vec<ChangesetNode> = Vec::new();
        let mut i: usize = 0;
        while i < self.nodes.len()
            invariant
                i <= self.nodes.len(),
                nodes@ == self.nodes@.subrange(0, i as int),
            decreases self.nodes.len() - i,
        {
            nodes.push(self.nodes[i]);
            i += 1;
        }
        assert(nodes@ =~= self.nodes@);
        ChangesetFrontier { nodes }
    }
}

} // verus!
