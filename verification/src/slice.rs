//! Slicing the ancestors of some heads by generation, so that history can
//! be processed from the bottom up in bounded parts.

use crate::dag::Dag;
use crate::frontier::{
    ascending_nodes, height, ids_of, is_bucket, is_highest, lemma_height, ChangesetFrontier,
};
use crate::graph::CommitGraph;
use crate::ids::{ChangesetId, ChangesetNode, Generation};
use crate::range::{ascending_generations, contains_id};
use crate::storage::{reports_missing, CommitGraphError, CommitGraphStorage};
use vstd::prelude::*;

verus! {

impl Dag {
    /// The start of the highest slice of the ancestors of `heads`: the
    /// largest of 1, `size` + 1, 2 * `size` + 1 and so on that is not above
    /// the highest generation of the heads.
    pub open spec fn highest_start(self, heads: Seq<ChangesetId>, size: int) -> int {
        ((height(self.nodes_of(heads)) - 1) / size) * size + 1
    }

    /// What the frontier `f` reaches at generation `from` or above.
    pub open spec fn reached_from(self, f: Set<ChangesetNode>, from: int) -> Set<ChangesetId> {
        Set::new(|x: ChangesetId| self.reaches(f, x) && self.generation(x) >= from)
    }

    /// The ancestors of `heads` whose generation is `start` at least and
    /// less than `start + size`.
    pub open spec fn ancestors_in_window(
        self,
        heads: Seq<ChangesetId>,
        start: int,
        size: int,
    ) -> Set<ChangesetId> {
        Set::new(
            |x: ChangesetId|
                self.is_ancestor_of_any(x, heads) && start <= self.generation(x) < start + size,
        )
    }
}

/// The function that says what needs processing may be asked of any list.
pub open spec fn can_ask_needs<N: Fn(Vec<ChangesetId>) -> Result<Vec<ChangesetId>, CommitGraphError>>(
    needs_processing: N,
) -> bool {
    forall|ids: Vec<ChangesetId>| #[trigger] call_requires(needs_processing, (ids,))
}

/// Everything needs processing: whatever the function is asked about, it gives back.
pub open spec fn keeps_all<N: Fn(Vec<ChangesetId>) -> Result<Vec<ChangesetId>, CommitGraphError>>(
    needs_processing: N,
) -> bool {
    forall|ids: Vec<ChangesetId>, needed: Vec<ChangesetId>, id: ChangesetId|
        #[trigger] call_ensures(needs_processing, (ids,), Ok(needed)) && ids@.contains(id)
            ==> #[trigger] needed@.contains(id)
}

/// The function that says what needs processing may fail with `e`.
pub open spec fn needs_fails_with<N: Fn(Vec<ChangesetId>) -> Result<Vec<ChangesetId>, CommitGraphError>>(
    needs_processing: N,
    e: CommitGraphError,
) -> bool {
    exists|ids: Vec<ChangesetId>|
        #[trigger] call_ensures(needs_processing, (ids,), Err::<Vec<ChangesetId>, CommitGraphError>(e))
}

/// `ids` are the changesets of `f` as a frontier gives them: ascending by
/// generation and, within a generation, by identifier.
pub open spec fn flattens(f: Set<ChangesetNode>, ids: Seq<ChangesetId>) -> bool {
    exists|order: Seq<ChangesetNode>|
        ascending_nodes(order) && order.to_set() == f && #[trigger] ids_of(order) == ids
}

/// `ids` are what the frontier `kept` reaches at generation `start` or
/// above, each changeset once, from the lowest generation up.
pub open spec fn is_taken(dag: Dag, kept: Set<ChangesetNode>, start: int, ids: Seq<ChangesetId>) -> bool {
    &&& ids.no_duplicates()
    &&& ids.to_set() == dag.reached_from(kept, start)
    &&& ascending_generations(dag, ids)
}

/// `slices`, from the highest start down, are what slicing gives from the
/// frontier `f` and the start `start` on.
///
/// The function that says what needs processing was asked about the
/// changesets of `f` and gave `needed`. Where nothing of `f` is needed, there
/// is no slice. Else the first slice starts at `start` and holds what the
/// needed part of `f` reaches at `start` or above; and the rest, where
/// `start` is not yet 1, are what slicing gives from that part, lowered to
/// just under `start`, and the start that is lower by `size`.
pub open spec fn is_slicing<N: Fn(Vec<ChangesetId>) -> Result<Vec<ChangesetId>, CommitGraphError>>(
    dag: Dag,
    needs_processing: N,
    f: Set<ChangesetNode>,
    start: int,
    size: int,
    slices: Seq<(u64, Vec<ChangesetId>)>,
) -> bool
    decreases slices.len(),
{
    exists|candidates: Vec<ChangesetId>, needed: Vec<ChangesetId>|
        {
            &&& #[trigger] call_ensures(
                needs_processing,
                (candidates,),
                Ok::<Vec<ChangesetId>, CommitGraphError>(needed),
            )
            &&& flattens(f, candidates@)
            &&& {
                let kept = f.filter(|n: ChangesetNode| needed@.contains(n.cs_id));
                if kept == Set::<ChangesetNode>::empty() {
                    slices.len() == 0
                } else if slices.len() == 0 {
                    false
                } else {
                    &&& slices[0].0 == start
                    &&& is_taken(dag, kept, start, slices[0].1@)
                    &&& if start > 1 {
                        is_slicing(
                            dag,
                            needs_processing,
                            dag.lowered(kept, start - 1),
                            start - size,
                            size,
                            slices.drop_first(),
                        )
                    } else {
                        slices.len() == 1
                    }
                }
            }
        }
}

/// Slicing that has given `done` and has come to the frontier `f` and the
/// start `start` gives, with whatever it gives from there on, what slicing
/// gives from the frontier `f0` and the start `top`.
pub open spec fn slicing_continues<
    N: Fn(Vec<ChangesetId>) -> Result<Vec<ChangesetId>, CommitGraphError>,
>(
    dag: Dag,
    needs_processing: N,
    f0: Set<ChangesetNode>,
    top: int,
    size: int,
    done: Seq<(u64, Vec<ChangesetId>)>,
    f: Set<ChangesetNode>,
    start: int,
) -> bool {
    forall|rest: Seq<(u64, Vec<ChangesetId>)>|
        #[trigger] is_slicing(dag, needs_processing, f, start, size, rest) ==> is_slicing(
            dag,
            needs_processing,
            f0,
            top,
            size,
            done + rest,
        )
}

/// Slicing begins where it begins.
proof fn lemma_slicing_begins<N: Fn(Vec<ChangesetId>) -> Result<Vec<ChangesetId>, CommitGraphError>>(
    dag: Dag,
    needs_processing: N,
    f0: Set<ChangesetNode>,
    top: int,
    size: int,
)
    ensures
        slicing_continues(
            dag,
            needs_processing,
            f0,
            top,
            size,
            Seq::<(u64, Vec<ChangesetId>)>::empty(),
            f0,
            top,
        ),
{
    assert forall|rest: Seq<(u64, Vec<ChangesetId>)>| #[trigger]
        is_slicing(dag, needs_processing, f0, top, size, rest) implies is_slicing(
        dag,
        needs_processing,
        f0,
        top,
        size,
        Seq::<(u64, Vec<ChangesetId>)>::empty() + rest,
    ) by {
        assert(Seq::<(u64, Vec<ChangesetId>)>::empty() + rest =~= rest);
    }
}

/// Slicing stops where nothing of the frontier is needed.
proof fn lemma_slicing_stops<N: Fn(Vec<ChangesetId>) -> Result<Vec<ChangesetId>, CommitGraphError>>(
    dag: Dag,
    needs_processing: N,
    f0: Set<ChangesetNode>,
    top: int,
    size: int,
    done: Seq<(u64, Vec<ChangesetId>)>,
    f: Set<ChangesetNode>,
    start: int,
    candidates: Vec<ChangesetId>,
    needed: Vec<ChangesetId>,
)
    requires
        slicing_continues(dag, needs_processing, f0, top, size, done, f, start),
        call_ensures(
            needs_processing,
            (candidates,),
            Ok::<Vec<ChangesetId>, CommitGraphError>(needed),
        ),
        flattens(f, candidates@),
        f.filter(|n: ChangesetNode| needed@.contains(n.cs_id)) == Set::<ChangesetNode>::empty(),
    ensures
        is_slicing(dag, needs_processing, f0, top, size, done),
{
    let rest = Seq::<(u64, Vec<ChangesetId>)>::empty();
    assert(is_slicing(dag, needs_processing, f, start, size, rest));
    assert(done + rest =~= done);
}

/// Slicing goes on with one slice more, or ends with it where the start is 1.
proof fn lemma_slicing_goes_on<N: Fn(Vec<ChangesetId>) -> Result<Vec<ChangesetId>, CommitGraphError>>(
    dag: Dag,
    needs_processing: N,
    f0: Set<ChangesetNode>,
    top: int,
    size: int,
    done: Seq<(u64, Vec<ChangesetId>)>,
    f: Set<ChangesetNode>,
    start: int,
    candidates: Vec<ChangesetId>,
    needed: Vec<ChangesetId>,
    slice: (u64, Vec<ChangesetId>),
)
    requires
        slicing_continues(dag, needs_processing, f0, top, size, done, f, start),
        call_ensures(
            needs_processing,
            (candidates,),
            Ok::<Vec<ChangesetId>, CommitGraphError>(needed),
        ),
        flattens(f, candidates@),
        f.filter(|n: ChangesetNode| needed@.contains(n.cs_id)) != Set::<ChangesetNode>::empty(),
        slice.0 == start,
        is_taken(dag, f.filter(|n: ChangesetNode| needed@.contains(n.cs_id)), start, slice.1@),
    ensures
        start > 1 ==> slicing_continues(
            dag,
            needs_processing,
            f0,
            top,
            size,
            done.push(slice),
            dag.lowered(f.filter(|n: ChangesetNode| needed@.contains(n.cs_id)), start - 1),
            start - size,
        ),
        start <= 1 ==> is_slicing(dag, needs_processing, f0, top, size, done.push(slice)),
{
    let kept = f.filter(|n: ChangesetNode| needed@.contains(n.cs_id));
    if start > 1 {
        let lower = dag.lowered(kept, start - 1);
        assert forall|rest: Seq<(u64, Vec<ChangesetId>)>| #[trigger]
            is_slicing(dag, needs_processing, lower, start - size, size, rest) implies is_slicing(
            dag,
            needs_processing,
            f0,
            top,
            size,
            done.push(slice) + rest,
        ) by {
            let all = seq![slice] + rest;
            assert(all[0] == slice);
            assert(all.drop_first() =~= rest);
            assert(is_slicing(dag, needs_processing, f, start, size, all));
            assert(done + all =~= done.push(slice) + rest);
        }
    } else {
        let all = seq![slice];
        assert(all[0] == slice);
        assert(is_slicing(dag, needs_processing, f, start, size, all));
        assert(done + all =~= done.push(slice));
    }
}

/// The window of a slice that starts at the highest generation of the
/// heads or below holds an ancestor of the heads.
proof fn lemma_window_not_empty(
    dag: Dag,
    heads: Seq<ChangesetId>,
    m: u64,
    start: int,
    size: int,
    ids: Seq<ChangesetId>,
)
    requires
        dag.wf(),
        is_highest(dag.nodes_of(heads), m),
        1 <= start <= m,
        size > 0,
        ids.to_set() == dag.ancestors_in_window(heads, start, size),
    ensures
        ids.len() > 0,
{
    let f0 = dag.nodes_of(heads);
    let h = choose|n: ChangesetNode| f0.contains(n) && #[trigger] n.generation.0 == m;
    assert(dag.has_node(h));
    let w = dag.lemma_level(h.cs_id, start);
    assert(dag.reaches(f0, w));
    dag.lemma_nodes_of_reaches(heads, w);
    assert(dag.ancestors_in_window(heads, start, size).contains(w));
    assert(ids.to_set().contains(w));
    assert(ids.contains(w));
}

/// A slice that starts at `start` holds ancestors of `heads` in its window
/// of `size` generations, each once, from the lowest generation up.
pub open spec fn is_slice(
    dag: Dag,
    heads: Seq<ChangesetId>,
    size: int,
    start: int,
    ids: Seq<ChangesetId>,
) -> bool {
    &&& start >= 1
    &&& (start - 1) % size == 0
    &&& ids.no_duplicates()
    &&& ascending_generations(dag, ids)
    &&& forall|x: ChangesetId|
        ids.contains(x) ==> dag.ancestors_in_window(heads, start, size).contains(x)
}

/// The part of a frontier that is for changesets of `needed`.
pub fn retain(frontier: ChangesetFrontier, needed: &Vec<ChangesetId>) -> (kept: ChangesetFrontier)
    ensures
        kept@ == frontier@.filter(|n: ChangesetNode| needed@.contains(n.cs_id)),
{
    let pairs = frontier.into_flat_iter();
    let ghost order = frontier.order();
    let mut kept = ChangesetFrontier::new();
    let mut i: usize = 0;
    assert(kept@ =~= order.subrange(0, 0).to_set().filter(
        |n: ChangesetNode| needed@.contains(n.cs_id),
    ));
    while i < pairs.len()
        invariant
            i <= pairs.len(),
            pairs@ == order.map_values(|n: ChangesetNode| (n.cs_id, n.generation)),
            kept@ == order.subrange(0, i as int).to_set().filter(
                |n: ChangesetNode| needed@.contains(n.cs_id),
            ),
        decreases pairs.len() - i,
    {
        let (cs_id, generation) = pairs[i];
        proof {
            assert(order[i as int] == ChangesetNode { cs_id, generation });
            crate::lowering::lemma_prefix_to_set(order, i as int);
        }
        if contains_id(needed, cs_id) {
            kept.insert(cs_id, generation);
        }
        i += 1;
        proof {
            assert(kept@ =~= order.subrange(0, i as int).to_set().filter(
                |n: ChangesetNode| needed@.contains(n.cs_id),
            ));
        }
    }
    proof {
        assert(order.subrange(0, i as int) =~= order);
    }
    kept
}

/// The changesets of a frontier that lies in the graph come out of it each
/// once, from the lowest generation up.
proof fn lemma_flattened(dag: Dag, w: Set<ChangesetNode>, order: Seq<ChangesetNode>)
    requires
        dag.wf(),
        dag.has_nodes(w),
        ascending_nodes(order),
        order.to_set() == w,
    ensures
        ids_of(order).no_duplicates(),
        ascending_generations(dag, ids_of(order)),
        forall|x: ChangesetId| ids_of(order).contains(x) <==> dag.contains(x) && w.contains(dag.node(x)),
{
    let ids = ids_of(order);
    assert forall|i: int| 0 <= i < order.len() implies dag.has_node(#[trigger] order[i]) by {
        assert(order.contains(order[i]));
        assert(w.contains(order[i]));
    }
    assert forall|i: int, j: int| 0 <= i < j < ids.len() implies ids[i] != ids[j]
        && dag.generation(ids[i]) <= dag.generation(ids[j]) by {
        assert(order[i].precedes(order[j]));
        assert(dag.has_node(order[i]) && dag.has_node(order[j]));
    }
    assert forall|x: ChangesetId| ids.contains(x) <==> dag.contains(x) && w.contains(dag.node(x)) by {
        if ids.contains(x) {
            let i = choose|i: int| 0 <= i < ids.len() && ids[i] == x;
            assert(dag.has_node(order[i]));
            assert(order.contains(order[i]));
        }
        if dag.contains(x) && w.contains(dag.node(x)) {
            assert(dag.record_wf(x));
            let i = choose|i: int| 0 <= i < order.len() && order[i] == dag.node(x);
            assert(ids[i] == x);
        }
    }
}

/// What has been taken out of a frontier when everything at `above` or
/// higher has left it.
proof fn lemma_window_step(
    dag: Dag,
    f0: Set<ChangesetNode>,
    above: int,
    f: Set<ChangesetNode>,
    g: Generation,
    ids: Seq<ChangesetId>,
    w: Set<ChangesetNode>,
    w_after: Set<ChangesetNode>,
)
    requires
        dag.wf(),
        dag.has_nodes(f0),
        f == dag.lowered(f0, above - 1),
        is_highest(f, g.0),
        is_bucket(f, g, ids),
        forall|n: ChangesetNode|
            w.contains(n) <==> dag.has_node(n) && dag.reaches(f0, n.cs_id) && n.generation.0
                >= above,
        forall|n: ChangesetNode|
            w_after.contains(n) <==> w.contains(n) || (n.generation == g && ids.contains(n.cs_id)),
    ensures
        forall|n: ChangesetNode|
            w_after.contains(n) <==> dag.has_node(n) && dag.reaches(f0, n.cs_id) && n.generation.0
                >= g.0,
        dag.lowered(f, g.0 - 1) == dag.lowered(f0, g.0 - 1),
        g.0 < above,
{
    let top = g.0 as int;
    dag.lemma_lowered_has_nodes(f0, above - 1);
    let some = choose|n: ChangesetNode| f.contains(n) && #[trigger] n.generation.0 == g.0;
    assert(f.contains(some));
    dag.lemma_lowered_twice(f0, above - 1, top - 1);
    assert forall|n: ChangesetNode|
        w_after.contains(n) <==> dag.has_node(n) && dag.reaches(f0, n.cs_id) && n.generation.0
            >= g.0 by {
        if n.generation == g && ids.contains(n.cs_id) {
            assert(n == ChangesetNode { cs_id: n.cs_id, generation: g });
            assert(f.contains(n));
            dag.lemma_lowered_reached(f0, above - 1, n);
        }
        if dag.has_node(n) && dag.reaches(f0, n.cs_id) && n.generation.0 >= g.0 && n.generation.0
            < above {
            dag.lemma_lowered_reaches(f0, above - 1, n.cs_id);
            dag.lemma_reaches_bounded(f, top, n.cs_id);
            dag.lemma_reaches_at_height(f, top, n.cs_id);
            assert(n == ChangesetNode { cs_id: n.cs_id, generation: g });
        }
    }
}

/// When nothing at `from` or higher is left in the frontier, everything
/// that it reached there has been taken out.
proof fn lemma_window_done(
    dag: Dag,
    f0: Set<ChangesetNode>,
    above: int,
    f: Set<ChangesetNode>,
    from: int,
    w: Set<ChangesetNode>,
)
    requires
        dag.wf(),
        dag.has_nodes(f0),
        f == dag.lowered(f0, above - 1),
        from <= above,
        forall|n: ChangesetNode| f.contains(n) ==> n.generation.0 < from,
        forall|n: ChangesetNode|
            w.contains(n) <==> dag.has_node(n) && dag.reaches(f0, n.cs_id) && n.generation.0
                >= above,
    ensures
        f == dag.lowered(f0, from - 1),
        forall|x: ChangesetId|
            dag.reached_from(f0, from).contains(x) <==> dag.contains(x) && w.contains(dag.node(x)),
{
    dag.lemma_lowered_has_nodes(f0, above - 1);
    dag.lemma_lowered_unchanged(f, from - 1);
    dag.lemma_lowered_twice(f0, above - 1, from - 1);
    assert forall|x: ChangesetId|
        dag.reached_from(f0, from).contains(x) <==> dag.contains(x) && w.contains(dag.node(x)) by {
        if dag.contains(x) {
            assert(dag.record_wf(x));
        }
        if dag.reaches(f0, x) {
            let n = choose|n: ChangesetNode| f0.contains(n) && dag.is_ancestor(x, #[trigger] n.cs_id);
            dag.lemma_ancestor_generation(x, n.cs_id);
            assert(dag.record_wf(x));
            if dag.generation(x) >= from && dag.generation(x) < above {
                dag.lemma_lowered_reaches(f0, above - 1, x);
                dag.lemma_reaches_bounded(f, from - 1, x);
            }
        }
    }
}

impl<S: CommitGraphStorage> CommitGraph<S> {
    /// Takes out of the frontier everything that it reaches at generation
    /// `from` or above, and lowers it to just under `from`. What was taken
    /// comes back each changeset once, from the lowest generation up.
    #[verifier::rlimit(40)]
    pub fn take_window(
        &self,
        ctx: &S::Context,
        frontier: &mut ChangesetFrontier,
        from: u64,
    ) -> (r: Result<
        Vec<ChangesetId>,
        CommitGraphError,
    >)
        requires
            self.wf(),
            self.dag().has_nodes(old(frontier)@),
            from >= 1,
        ensures
            self.dag().has_nodes(final(frontier)@),
            match r {
                Ok(ids) => {
                    &&& final(frontier)@ == self.dag().lowered(old(frontier)@, from - 1)
                    &&& ids@.no_duplicates()
                    &&& ids@.to_set() == self.dag().reached_from(old(frontier)@, from as int)
                    &&& ascending_generations(self.dag(), ids@)
                },
                Err(_) => !self.infallible(),
            },
    {
        let ghost dag = self.dag();
        let ghost f0 = frontier@;
        let ghost mut above: int = u64::MAX + 1;
        let mut window = ChangesetFrontier::new();
        proof {
            dag.lemma_lowered_unchanged(f0, above - 1);
            assert forall|n: ChangesetNode| !(dag.has_node(n) && n.generation.0 >= above) by {}
        }
        loop
            invariant
                self.wf(),
                dag == self.dag(),
                dag.has_nodes(f0),
                f0 == old(frontier)@,
                from >= 1,
                from <= above <= u64::MAX + 1,
                frontier@ == dag.lowered(f0, above - 1),
                dag.has_nodes(frontier@),
                forall|n: ChangesetNode|
                    window@.contains(n) <==> dag.has_node(n) && dag.reaches(f0, n.cs_id)
                        && n.generation.0 >= above,
            ensures
                frontier@ == Set::<ChangesetNode>::empty() || exists|g: u64|
                    is_highest(frontier@, g) && g < from,
            decreases height(frontier@),
        {
            let ghost f = frontier@;
            let ghost w = window@;
            let (g, cs_ids) = match frontier.last_key_value() {
                None => {
                    break ;
                },
                Some((g, cs_ids)) => (g, cs_ids),
            };
            if g.0 < from {
                break ;
            }
            let mut i: usize = 0;
            while i < cs_ids.len()
                invariant
                    i <= cs_ids.len(),
                    forall|n: ChangesetNode|
                        #[trigger] window@.contains(n) <==> w.contains(n) || (n.generation == g
                            && cs_ids@.subrange(0, i as int).contains(n.cs_id)),
                decreases cs_ids.len() - i,
            {
                let ghost prev = window@;
                window.insert(cs_ids[i], g);
                proof {
                    let shorter = cs_ids@.subrange(0, i as int);
                    let longer = cs_ids@.subrange(0, i + 1);
                    assert(longer =~= shorter.push(cs_ids@[i as int]));
                    assert forall|n: ChangesetNode|
                        #[trigger] window@.contains(n) <==> w.contains(n) || (n.generation == g
                            && longer.contains(n.cs_id)) by {
                        assert(prev.contains(n) <==> w.contains(n) || (n.generation == g
                            && shorter.contains(n.cs_id)));
                        assert(window@.contains(n) <==> prev.contains(n) || n == ChangesetNode {
                            cs_id: cs_ids@[i as int],
                            generation: g,
                        });
                        if longer.contains(n.cs_id) {
                            let c = choose|c: int| 0 <= c < longer.len() && longer[c] == n.cs_id;
                            if c < i {
                                assert(shorter[c] == n.cs_id);
                            }
                        }
                        if shorter.contains(n.cs_id) {
                            let c = choose|c: int| 0 <= c < shorter.len() && shorter[c] == n.cs_id;
                            assert(longer[c] == n.cs_id);
                        }
                        assert(longer[i as int] == cs_ids@[i as int]);
                    }
                }
                i += 1;
            }
            proof {
                assert(cs_ids@.subrange(0, i as int) =~= cs_ids@);
                lemma_window_step(dag, f0, above, f, g, cs_ids@, w, window@);
                lemma_height(f, g.0);
                let some = choose|n: ChangesetNode| f.contains(n) && #[trigger] n.generation.0 == g.0;
                assert(f.contains(some));
                above = g.0 as int;
            }
            match self.lower_frontier_highest_generation(ctx, frontier) {
                Ok(_) => {},
                Err(e) => {
                    return Err(e);
                },
            }
        }
        let ids = window.changesets();
        proof {
            lemma_height_or_empty(frontier@, from as int);
            lemma_window_done(dag, f0, above, frontier@, from as int, window@);
            lemma_flattened(dag, window@, window.order());
            assert forall|x: ChangesetId|
                ids@.to_set().contains(x) <==> dag.reached_from(f0, from as int).contains(x) by {
                assert(ids@.contains(x) <==> dag.contains(x) && window@.contains(dag.node(x)));
                assert(dag.reached_from(f0, from as int).contains(x) <==> dag.contains(x)
                    && window@.contains(dag.node(x)));
            }
            assert(ids@.to_set() =~= dag.reached_from(f0, from as int));
        }
        Ok(ids)
    }

    /// One slice: keeps in the frontier what is for changesets of `needed`;
    /// where nothing is left, gives `None`; else takes out what the frontier
    /// reaches at generation `slice_start` or above and gives it, each
    /// changeset once, from the lowest generation up.
    pub fn next_slice(
        &self,
        ctx: &S::Context,
        frontier: &mut ChangesetFrontier,
        needed: &Vec<ChangesetId>,
        slice_start: u64,
    ) -> (r: Result<Option<Vec<ChangesetId>>, CommitGraphError>)
        requires
            self.wf(),
            self.dag().has_nodes(old(frontier)@),
            slice_start >= 1,
        ensures
            self.dag().has_nodes(final(frontier)@),
            match r {
                Ok(None) => {
                    &&& old(frontier)@.filter(|n: ChangesetNode| needed@.contains(n.cs_id))
                        == Set::<ChangesetNode>::empty()
                    &&& final(frontier)@ == Set::<ChangesetNode>::empty()
                },
                Ok(Some(ids)) => {
                    let kept = old(frontier)@.filter(|n: ChangesetNode| needed@.contains(n.cs_id));
                    &&& kept != Set::<ChangesetNode>::empty()
                    &&& final(frontier)@ == self.dag().lowered(kept, slice_start - 1)
                    &&& ids@.no_duplicates()
                    &&& ids@.to_set() == self.dag().reached_from(kept, slice_start as int)
                    &&& ascending_generations(self.dag(), ids@)
                },
                Err(_) => !self.infallible(),
            },
    {
        let mut taken = ChangesetFrontier::new();
        std::mem::swap(&mut taken, frontier);
        let mut kept = retain(taken, needed);
        if kept.is_empty() {
            *frontier = kept;
            return Ok(None);
        }
        let slice = self.take_window(ctx, &mut kept, slice_start);
        *frontier = kept;
        match slice {
            Ok(ids) => Ok(Some(ids)),
            Err(e) => Err(e),
        }
    }
}

/// A frontier is empty or has a highest generation; where its highest
/// generation is below `from`, all of it is.
proof fn lemma_height_or_empty(f: Set<ChangesetNode>, from: int)
    requires
        f == Set::<ChangesetNode>::empty() || exists|g: u64| is_highest(f, g) && g < from,
    ensures
        forall|n: ChangesetNode| f.contains(n) ==> n.generation.0 < from,
{
}

/// What a slice taken from a part of the frontier holds, and what is left.
proof fn lemma_slice_taken(
    dag: Dag,
    heads: Seq<ChangesetId>,
    f: Set<ChangesetNode>,
    kept: Set<ChangesetNode>,
    size: int,
    start: int,
    ids: Seq<ChangesetId>,
)
    requires
        dag.wf(),
        size > 0,
        start >= 1,
        (start - 1) % size == 0,
        dag.has_nodes(f),
        forall|n: ChangesetNode|
            f.contains(n) ==> n.generation.0 < start + size && dag.is_ancestor_of_any(
                n.cs_id,
                heads,
            ),
        forall|n: ChangesetNode| kept.contains(n) ==> f.contains(n),
        ids.no_duplicates(),
        ids.to_set() == dag.reached_from(kept, start),
        ascending_generations(dag, ids),
    ensures
        is_slice(dag, heads, size, start, ids),
        forall|n: ChangesetNode|
            dag.lowered(kept, start - 1).contains(n) ==> n.generation.0 < start
                && dag.is_ancestor_of_any(n.cs_id, heads),
{
    assert forall|x: ChangesetId| dag.reaches(kept, x) implies dag.is_ancestor_of_any(x, heads)
        && dag.generation(x) < start + size by {
        let n = choose|n: ChangesetNode| kept.contains(n) && dag.is_ancestor(x, #[trigger] n.cs_id);
        assert(f.contains(n));
        assert(dag.has_node(n));
        dag.lemma_ancestor_generation(x, n.cs_id);
        let i = choose|i: int| 0 <= i < heads.len() && dag.is_ancestor(n.cs_id, #[trigger] heads[i]);
        dag.lemma_transitive(x, n.cs_id, heads[i]);
    }
    assert forall|x: ChangesetId| ids.contains(x) implies dag.ancestors_in_window(
        heads,
        start,
        size,
    ).contains(x) by {
        assert(ids.to_set().contains(x));
        assert(dag.reaches(kept, x));
    }
    assert forall|n: ChangesetNode|
        dag.lowered(kept, start - 1).contains(n) implies n.generation.0 < start
        && dag.is_ancestor_of_any(n.cs_id, heads) by {
        dag.lemma_lowered_reached(kept, start - 1, n);
    }
}

/// Where everything is kept, a slice holds the whole window, and what is
/// left is the heads lowered to just under it.
proof fn lemma_full_slice(
    dag: Dag,
    heads: Seq<ChangesetId>,
    f: Set<ChangesetNode>,
    size: int,
    start: int,
    ids: Seq<ChangesetId>,
)
    requires
        dag.wf(),
        size > 0,
        start >= 1,
        f == dag.lowered(dag.nodes_of(heads), start + size - 1),
        ids.to_set() == dag.reached_from(f, start),
    ensures
        ids.to_set() == dag.ancestors_in_window(heads, start, size),
        dag.lowered(f, start - 1) == dag.lowered(dag.nodes_of(heads), start - 1),
{
    let f0 = dag.nodes_of(heads);
    assert(dag.has_nodes(f0));
    dag.lemma_lowered_twice(f0, start + size - 1, start - 1);
    assert forall|x: ChangesetId|
        dag.reached_from(f, start).contains(x) <==> dag.ancestors_in_window(
            heads,
            start,
            size,
        ).contains(x) by {
        dag.lemma_lowered_reaches(f0, start + size - 1, x);
        dag.lemma_nodes_of_reaches(heads, x);
    }
    assert(ids.to_set() =~= dag.ancestors_in_window(heads, start, size));
}

/// Heads lowered to a generation of 1 or more are not all gone.
proof fn lemma_lowered_not_empty(dag: Dag, f0: Set<ChangesetNode>, t: int)
    requires
        dag.wf(),
        dag.has_nodes(f0),
        f0 != Set::<ChangesetNode>::empty(),
        t >= 1,
    ensures
        dag.lowered(f0, t) != Set::<ChangesetNode>::empty(),
{
    if forall|n: ChangesetNode| !f0.contains(n) {
        assert(f0 =~= Set::<ChangesetNode>::empty());
    }
    let n = choose|n: ChangesetNode| f0.contains(n);
    assert(dag.has_node(n));
    if n.generation.0 <= t {
        assert(dag.lowered(f0, t).contains(n));
    } else {
        let w = dag.lemma_level(n.cs_id, t);
        assert(dag.reaches(f0, w));
        dag.lemma_lowered_reaches(f0, t, w);
        let m = choose|m: ChangesetNode|
            dag.lowered(f0, t).contains(m) && dag.is_ancestor(w, #[trigger] m.cs_id);
        assert(dag.lowered(f0, t).contains(m));
    }
}

/// The slices in the order opposite to the one in which they were made.
fn reversed(stack: Vec<(u64, Vec<ChangesetId>)>) -> (slices: Vec<(u64, Vec<ChangesetId>)>)
    ensures
        slices.len() == stack.len(),
        forall|i: int| 0 <= i < slices.len() ==> #[trigger] slices[i] == stack[stack.len() - 1 - i],
        slices@.reverse() == stack@,
{
    let mut stack = stack;
    let ghost all = stack@;
    let mut slices: Vec<(u64, Vec<ChangesetId>)> = Vec::new();
    while stack.len() > 0
        invariant
            stack.len() + slices.len() == all.len(),
            stack@ == all.subrange(0, stack.len() as int),
            forall|i: int| 0 <= i < slices.len() ==> #[trigger] slices[i] == all[all.len() - 1 - i],
        decreases stack.len(),
    {
        let ghost before = slices@;
        match stack.pop() {
            Some(slice) => {
                slices.push(slice);
                proof {
                    assert forall|i: int| 0 <= i < slices.len() implies #[trigger] slices[i]
                        == all[all.len() - 1 - i] by {
                        if i < before.len() {
                            assert(slices[i] == before[i]);
                        }
                    }
                }
            },
            None => {},
        }
    }
    proof {
        assert(slices@.reverse() =~= all);
    }
    slices
}

impl<S: CommitGraphStorage> CommitGraph<S> {
    /// Slices the ancestors of `heads` by generation, for processing from
    /// the bottom up.
    ///
    /// The slices start at the generations 1, `slice_size` + 1,
    /// 2 * `slice_size` + 1 and so on, and come in ascending order. A slice
    /// holds ancestors of the heads whose generations are in the
    /// `slice_size` generations from its start, each once, from the lowest
    /// generation up.
    ///
    /// Slicing goes down from the highest slice. Before each slice
    /// `needs_processing` is asked about the changesets in hand, and only
    /// those that it gives back are gone into; slicing stops where it gives
    /// none back. Where it gives back everything, the slices hold all the
    /// ancestors of the heads, and none of them is empty. With no heads
    /// there is no slice, and nothing is asked.
    #[verifier::rlimit(40)]
    pub fn slice_ancestors<N: Fn(Vec<ChangesetId>) -> Result<Vec<ChangesetId>, CommitGraphError>>(
        &self,
        ctx: &S::Context,
        heads: Vec<ChangesetId>,
        needs_processing: N,
        slice_size: u64,
    ) -> (r: Result<Vec<(u64, Vec<ChangesetId>)>, CommitGraphError>)
        requires
            self.wf(),
            slice_size > 0,
            can_ask_needs(needs_processing),
        ensures
            match r {
                Ok(slices) => {
                    &&& heads@.len() == 0 ==> slices.len() == 0
                    &&& heads@.len() > 0 ==> is_slicing(
                        self.dag(),
                        needs_processing,
                        self.dag().nodes_of(heads@),
                        self.dag().highest_start(heads@, slice_size as int),
                        slice_size as int,
                        slices@.reverse(),
                    )
                    &&& slices.len() > 0 ==> slices[slices.len() - 1].0 == self.dag().highest_start(
                        heads@,
                        slice_size as int,
                    )
                    &&& forall|i: int|
                        0 <= i < slices.len() ==> is_slice(
                            self.dag(),
                            heads@,
                            slice_size as int,
                            (#[trigger] slices[i]).0 as int,
                            slices[i].1@,
                        )
                    &&& forall|i: int|
                        0 <= i < slices.len() ==> (#[trigger] slices[i]).0 == slices[0].0 + i
                            * slice_size
                    &&& keeps_all(needs_processing) ==> {
                        &&& forall|i: int|
                            0 <= i < slices.len() ==> (#[trigger] slices[i]).1@.to_set()
                                == self.dag().ancestors_in_window(
                                heads@,
                                slices[i].0 as int,
                                slice_size as int,
                            )
                        &&& slices.len() > 0 ==> slices[0].0 == 1
                        &&& forall|x: ChangesetId|
                            self.dag().is_ancestor_of_any(x, heads@) ==> self.dag().generation(x)
                                < 1 + slices.len() * slice_size
                        &&& heads@.len() > 0 ==> slices.len() == (height(
                            self.dag().nodes_of(heads@),
                        ) - 1) / (slice_size as int) + 1
                        &&& forall|i: int|
                            0 <= i < slices.len() ==> (#[trigger] slices[i]).1@.len() > 0
                    }
                },
                Err(e) => {
                    ||| !self.infallible()
                    ||| reports_missing(self.dag(), heads@, e)
                    ||| (heads@.len() > 0 && needs_fails_with(needs_processing, e))
                },
            },
    {
        let ghost dag = self.dag();
        let ghost size = slice_size as int;
        let ghost f0 = dag.nodes_of(heads@);
        let mut frontier = self.frontier(ctx, &heads)?;
        let max_gen = match frontier.highest_generation() {
            Some(g) => g,
            None => {
                let none: Vec<(u64, Vec<ChangesetId>)> = Vec::new();
                proof {
                    assert forall|x: ChangesetId| !dag.is_ancestor_of_any(x, heads@) by {
                        dag.lemma_nodes_of_reaches(heads@, x);
                        if dag.reaches(f0, x) {
                            let n = choose|n: ChangesetNode|
                                f0.contains(n) && dag.is_ancestor(x, #[trigger] n.cs_id);
                        }
                    }
                    if heads@.len() > 0 {
                        assert(dag.contains(heads@[0]));
                        assert(dag.record_wf(heads@[0]));
                        assert(heads@.contains(dag.node(heads@[0]).cs_id));
                        assert(f0.contains(dag.node(heads@[0])));
                    }
                }
                return Ok(none);
            },
        };
        // The highest slice starts at the largest of 1, slice_size + 1,
        // 2 * slice_size + 1, ... that is not above the highest generation.
        let ghost mut w: int = (max_gen.0 - 1) / size;
        proof {
            let some = choose|n: ChangesetNode|
                frontier@.contains(n) && #[trigger] n.generation.0 == max_gen.0;
            assert(dag.has_node(some));
            dag.lemma_generation_positive(some.cs_id);
            let a = max_gen.0 - 1;
            vstd::arithmetic::div_mod::lemma_fundamental_div_mod(a, size);
            vstd::arithmetic::div_mod::lemma_mod_bound(a, size);
            assert(w * size == size * w) by (nonlinear_arith);
            assert(0 <= w) by (nonlinear_arith)
                requires
                    w == a / size,
                    a >= 0,
                    size > 0,
            ;
            assert(w * size <= a);
            assert(a < w * size + size);
        }
        let mut slice_start: u64 = ((max_gen.0 - 1) / slice_size) * slice_size + 1;
        let mut stack: Vec<(u64, Vec<ChangesetId>)> = Vec::new();
        let ghost top: int = slice_start as int;
        let ghost w0: int = w;
        proof {
            lemma_height(f0, max_gen.0);
            lemma_slicing_begins(dag, needs_processing, f0, top, size);
            let head = choose|n: ChangesetNode|
                f0.contains(n) && #[trigger] n.generation.0 == max_gen.0;
            assert(heads@.contains(head.cs_id));
            assert(top == dag.highest_start(heads@, size));
            assert forall|n: ChangesetNode| frontier@.contains(n) implies dag.is_ancestor_of_any(
                n.cs_id,
                heads@,
            ) by {
                dag.lemma_reflexive(n.cs_id);
                assert(dag.reaches(f0, n.cs_id));
                dag.lemma_nodes_of_reaches(heads@, n.cs_id);
            }
            dag.lemma_lowered_unchanged(f0, slice_start + size - 1);
            assert forall|x: ChangesetId| dag.is_ancestor_of_any(x, heads@) implies dag.generation(
                x,
            ) < slice_start + size by {
                dag.lemma_nodes_of_reaches(heads@, x);
                dag.lemma_reaches_bounded(f0, max_gen.0 as int, x);
            }
            let some = choose|n: ChangesetNode|
                frontier@.contains(n) && #[trigger] n.generation.0 == max_gen.0;
            assert(f0.contains(some));
            assert(f0 != Set::<ChangesetNode>::empty());
            assert((stack.len() + 1) * size == size) by (nonlinear_arith)
                requires
                    stack.len() == 0,
            ;
        }
        loop
            invariant
                self.wf(),
                dag == self.dag(),
                size == slice_size,
                size > 0,
                f0 == dag.nodes_of(heads@),
                can_ask_needs(needs_processing),
                w >= 0,
                slice_start == 1 + w * size,
                heads@.len() > 0,
                is_highest(f0, max_gen.0),
                height(f0) == max_gen.0,
                top == 1 + w0 * size,
                top == dag.highest_start(heads@, size),
                top <= max_gen.0,
                w0 == (max_gen.0 - 1) / size,
                w + stack.len() == w0,
                slicing_continues(
                    dag,
                    needs_processing,
                    f0,
                    top,
                    size,
                    stack@,
                    frontier@,
                    slice_start as int,
                ),
                keeps_all(needs_processing) ==> forall|j: int|
                    0 <= j < stack.len() ==> (#[trigger] stack[j]).1@.len() > 0,
                dag.has_nodes(frontier@),
                forall|n: ChangesetNode|
                    frontier@.contains(n) ==> n.generation.0 < slice_start + size
                        && dag.is_ancestor_of_any(n.cs_id, heads@),
                forall|j: int|
                    0 <= j < stack.len() ==> is_slice(
                        dag,
                        heads@,
                        size,
                        (#[trigger] stack[j]).0 as int,
                        stack[j].1@,
                    ) && stack[j].0 == slice_start + (stack.len() - j) * size,
                keeps_all(needs_processing) ==> {
                    &&& frontier@ == dag.lowered(f0, slice_start + size - 1)
                    &&& f0 != Set::<ChangesetNode>::empty()
                    &&& forall|j: int|
                        0 <= j < stack.len() ==> (#[trigger] stack[j]).1@.to_set()
                            == dag.ancestors_in_window(heads@, stack[j].0 as int, size)
                    &&& forall|x: ChangesetId|
                        dag.is_ancestor_of_any(x, heads@) ==> dag.generation(x) < slice_start + (
                        stack.len() + 1) * size
                },
            decreases slice_start,
        {
            let ghost f = frontier@;
            let candidates = frontier.changesets();
            let ghost order = frontier.order();
            let ghost asked = candidates;
            let needed = match needs_processing(candidates) {
                Ok(needed) => needed,
                Err(e) => {
                    return Err(e);
                },
            };
            let ghost kept = f.filter(|n: ChangesetNode| needed@.contains(n.cs_id));
            proof {
                assert(ids_of(order) == asked@);
                assert(flattens(f, asked@));
                assert(call_ensures(
                    needs_processing,
                    (asked,),
                    Ok::<Vec<ChangesetId>, CommitGraphError>(needed),
                ));
                vstd::arithmetic::div_mod::lemma_mod_multiples_basic(w, size);
                if keeps_all(needs_processing) {
                    assert forall|n: ChangesetNode| f.contains(n) implies kept.contains(n) by {
                        assert(order.to_set().contains(n));
                        let i = choose|i: int| 0 <= i < order.len() && order[i] == n;
                        assert(asked@[i] == n.cs_id);
                        assert(asked@.contains(n.cs_id));
                        assert(call_ensures(needs_processing, (asked,), Ok(needed)));
                        assert(needed@.contains(n.cs_id));
                    }
                    assert(kept =~= f);
                    lemma_lowered_not_empty(dag, f0, slice_start + size - 1);
                }
            }
            let slice = match self.next_slice(ctx, &mut frontier, &needed, slice_start) {
                Ok(Some(slice)) => slice,
                Ok(None) => {
                    let slices = reversed(stack);
                    proof {
                        lemma_slicing_stops(
                            dag,
                            needs_processing,
                            f0,
                            top,
                            size,
                            stack@,
                            f,
                            slice_start as int,
                            asked,
                            needed,
                        );
                        if stack.len() > 0 {
                            let n = stack.len() as int;
                            assert(slices[n - 1] == stack[0]);
                            assert(slice_start + (n - 0) * size == 1 + (w + n) * size)
                                by (nonlinear_arith)
                                requires
                                    slice_start == 1 + w * size,
                            ;
                        }
                        assert forall|i: int| 0 <= i < slices.len() implies (
                        #[trigger] slices[i]).0 == slices[0].0 + i * size by {
                            let n = stack.len() as int;
                            assert(slices[i] == stack[n - 1 - i]);
                            assert(slices[0] == stack[n - 1]);
                            assert((n - (n - 1 - i)) * size == (n - (n - 1)) * size + i * size)
                                by (nonlinear_arith);
                        }
                    }
                    return Ok(slices);
                },
                Err(e) => {
                    return Err(e);
                },
            };
            proof {
                lemma_slice_taken(dag, heads@, f, kept, size, slice_start as int, slice@);
                if keeps_all(needs_processing) {
                    lemma_full_slice(dag, heads@, f, size, slice_start as int, slice@);
                    assert(slice_start <= top) by (nonlinear_arith)
                        requires
                            slice_start == 1 + w * size,
                            top == 1 + w0 * size,
                            w <= w0,
                            size > 0,
                    ;
                    lemma_window_not_empty(
                        dag,
                        heads@,
                        max_gen.0,
                        slice_start as int,
                        size,
                        slice@,
                    );
                }
                lemma_slicing_goes_on(
                    dag,
                    needs_processing,
                    f0,
                    top,
                    size,
                    stack@,
                    f,
                    slice_start as int,
                    asked,
                    needed,
                    (slice_start, slice),
                );
            }
            let ghost lower = stack@;
            stack.push((slice_start, slice));
            proof {
                assert(stack@ == lower.push((slice_start, slice)));
                assert forall|j: int| 0 <= j < stack.len() && keeps_all(
                    needs_processing,
                ) implies (#[trigger] stack[j]).1@.len() > 0 by {
                    if j < lower.len() {
                        assert(stack[j] == lower[j]);
                    }
                }
                assert forall|j: int| 0 <= j < stack.len() implies is_slice(
                    dag,
                    heads@,
                    size,
                    (#[trigger] stack[j]).0 as int,
                    stack[j].1@,
                ) && stack[j].0 == slice_start - size + (stack.len() - j) * size && (keeps_all(
                    needs_processing,
                ) ==> stack[j].1@.to_set() == dag.ancestors_in_window(
                    heads@,
                    stack[j].0 as int,
                    size,
                )) by {
                    if j < lower.len() {
                        assert(stack[j] == lower[j]);
                        assert((lower.len() + 1 - j) * size == (lower.len() - j) * size + size)
                            by (nonlinear_arith);
                    } else {
                        assert((stack.len() - j) * size == size) by (nonlinear_arith)
                            requires
                                stack.len() - j == 1,
                        ;
                    }
                }
            }
            if slice_start > 1 {
                proof {
                    assert(w >= 1);
                    assert(w * size >= size) by (nonlinear_arith)
                        requires
                            w >= 1,
                            size > 0,
                    ;
                    assert((w - 1) * size == w * size - size) by (nonlinear_arith);
                    assert((stack.len() + 1) * size == (stack.len() - 1 + 1) * size + size)
                        by (nonlinear_arith);
                    w = w - 1;
                }
                slice_start -= slice_size;
            } else {
                let slices = reversed(stack);
                proof {
                    let n = stack.len() as int;
                    assert(slices[n - 1] == stack[0]);
                    assert(w == 0) by (nonlinear_arith)
                        requires
                            1 == 1 + w * size,
                            size > 0,
                            w >= 0,
                    ;
                    assert(slice_start + (n - 0) * size == 1 + (w + n) * size) by (nonlinear_arith)
                        requires
                            slice_start == 1 + w * size,
                    ;
                    assert((w + n) * size == (w0 + 1) * size);
                    assert((w0 + 1) * size == w0 * size + size) by (nonlinear_arith);
                    assert(slices[0] == stack[n - 1]);
                    assert((n - (n - 1)) * size == size) by (nonlinear_arith);
                    assert forall|i: int| 0 <= i < slices.len() implies (#[trigger] slices[i]).0
                        == slices[0].0 + i * size by {
                        assert(slices[i] == stack[n - 1 - i]);
                        assert((n - (n - 1 - i)) * size == size + i * size) by (nonlinear_arith);
                    }
                    assert((n - 1 + 1) * size == n * size) by (nonlinear_arith);
                }
                return Ok(slices);
            }
        }
    }
}

} // verus!
