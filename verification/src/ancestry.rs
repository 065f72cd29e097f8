//! Ancestry between two changesets.

use crate::graph::CommitGraph;
use crate::ids::{ChangesetId, ChangesetNode};
use crate::storage::{CommitGraphError, CommitGraphStorage};
use vstd::prelude::*;

verus! {

impl<S: CommitGraphStorage> CommitGraph<S> {
    /// Whether `ancestor` is an ancestor of `descendant`. Ancestry is
    /// inclusive: a changeset is its own ancestor.
    pub fn is_ancestor(
        &self,
        ctx: &S::Context,
        ancestor: ChangesetId,
        descendant: ChangesetId,
    ) -> (r: Result<
        bool,
        CommitGraphError,
    >)
        requires
            self.wf(),
        ensures
            match r {
                Ok(answer) => {
                    &&& self.dag().contains(ancestor)
                    &&& self.dag().contains(descendant)
                    &&& answer == self.dag().is_ancestor(ancestor, descendant)
                },
                Err(e) => {
                    ||| !self.infallible()
                    ||| (e == CommitGraphError::MissingChangeset(ancestor) && !self.dag().contains(
                        ancestor,
                    ))
                    ||| (e == CommitGraphError::MissingChangeset(descendant)
                        && !self.dag().contains(descendant))
                },
            },
    {
        let mut frontier = self.single_frontier(ctx, descendant)?;
        let target = self.changeset_generation_required(ctx, ancestor)?;
        let ghost start = frontier@;
        let ghost dag = self.dag();
        proof {
            assert(dag.record_wf(descendant));
            assert(dag.record_wf(ancestor));
        }
        match self.lower_frontier(ctx, &mut frontier, target) {
            Ok(_) => {},
            Err(e) => {
                return Err(e);
            },
        }
        let answer = frontier.highest_generation_contains(ancestor, target);
        proof {
            let node = ChangesetNode { cs_id: ancestor, generation: target };
            assert(node == dag.node(ancestor));
            if answer {
                dag.lemma_lowered_reached(start, target.0 as int, node);
                let n = choose|n: ChangesetNode|
                    start.contains(n) && dag.is_ancestor(ancestor, #[trigger] n.cs_id);
            }
            if dag.is_ancestor(ancestor, descendant) {
                if ancestor == descendant {
                    assert(start.contains(node));
                } else {
                    let y = dag.lemma_last_step(ancestor, descendant);
                    dag.lemma_parent(ancestor, y);
                    assert(start.contains(dag.node(descendant)));
                    assert(dag.reaches(start, y));
                }
                assert(dag.lowered(start, target.0 as int).contains(node));
            }
        }
        Ok(answer)
    }
}

} // verus!
