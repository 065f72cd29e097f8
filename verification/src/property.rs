//! Properties of changesets that a caller hands to a traversal.
//!
//! A property is a function from a changeset to `Ok(true)`, `Ok(false)` or a
//! failure. A traversal asks it of changesets of the graph. What a traversal
//! gives is stated for every answer that the property can be known to give:
//! a predicate `answer` such that the property says yes only where `answer`
//! holds and no only where it does not; and for the traversals that rely on
//! it, such an answer that is monotonic: where it holds of a changeset it
//! holds of the parents.

use crate::dag::Dag;
use crate::ids::ChangesetId;
use crate::storage::CommitGraphError;
use vstd::prelude::*;

verus! {

/// The property may be asked of `cs_id`.
pub open spec fn can_ask<P: Fn(ChangesetId) -> Result<bool, CommitGraphError>>(
    property: P,
    cs_id: ChangesetId,
) -> bool {
    call_requires(property, (cs_id,))
}

/// The property holds of `cs_id`: whatever it gives when it is asked of
/// `cs_id`, it is a yes or a failure, never a no.
pub open spec fn holds<P: Fn(ChangesetId) -> Result<bool, CommitGraphError>>(
    property: P,
    cs_id: ChangesetId,
) -> bool {
    forall|r: Result<bool, CommitGraphError>|
        #[trigger] call_ensures(property, (cs_id,), r) ==> r is Err || r == Ok::<
            bool,
            CommitGraphError,
        >(true)
}

/// The property does not hold of `cs_id`: whatever it gives when it is
/// asked of `cs_id`, it is a no or a failure, never a yes.
pub open spec fn rejects<P: Fn(ChangesetId) -> Result<bool, CommitGraphError>>(
    property: P,
    cs_id: ChangesetId,
) -> bool {
    forall|r: Result<bool, CommitGraphError>|
        #[trigger] call_ensures(property, (cs_id,), r) ==> r is Err || r == Ok::<
            bool,
            CommitGraphError,
        >(false)
}

/// The property was asked of `cs_id` and said yes, or could have.
pub open spec fn said_yes<P: Fn(ChangesetId) -> Result<bool, CommitGraphError>>(
    property: P,
    cs_id: ChangesetId,
) -> bool {
    call_ensures(property, (cs_id,), Ok::<bool, CommitGraphError>(true))
}

/// The property was asked of `cs_id` and said no, or could have.
pub open spec fn said_no<P: Fn(ChangesetId) -> Result<bool, CommitGraphError>>(
    property: P,
    cs_id: ChangesetId,
) -> bool {
    call_ensures(property, (cs_id,), Ok::<bool, CommitGraphError>(false))
}

/// The property may fail with `e` on some changeset.
pub open spec fn fails_with<P: Fn(ChangesetId) -> Result<bool, CommitGraphError>>(
    property: P,
    e: CommitGraphError,
) -> bool {
    exists|cs_id: ChangesetId|
        #[trigger] call_ensures(property, (cs_id,), Err::<bool, CommitGraphError>(e))
}

/// The property may be asked of every changeset of the graph, and of each
/// it holds or it does not: it never says yes and no of one changeset.
pub open spec fn decides<P: Fn(ChangesetId) -> Result<bool, CommitGraphError>>(
    property: P,
    dag: Dag,
) -> bool {
    forall|cs_id: ChangesetId|
        dag.contains(cs_id) ==> #[trigger] can_ask(property, cs_id) && (holds(property, cs_id)
            || rejects(property, cs_id))
}

/// The property answers as `answer` says: of a changeset of the graph it
/// holds where `answer` does, and does not hold where `answer` does not.
pub open spec fn answers<P: Fn(ChangesetId) -> Result<bool, CommitGraphError>>(
    property: P,
    answer: spec_fn(ChangesetId) -> bool,
    dag: Dag,
) -> bool {
    forall|cs_id: ChangesetId|
        dag.contains(cs_id) ==> if #[trigger] answer(cs_id) {
            holds(property, cs_id)
        } else {
            rejects(property, cs_id)
        }
}

/// Where the answer is yes of a changeset, it is yes of its parents.
pub open spec fn monotonic(answer: spec_fn(ChangesetId) -> bool, dag: Dag) -> bool {
    forall|p: ChangesetId, c: ChangesetId|
        #[trigger] dag.is_parent(p, c) && answer(c) ==> answer(p)
}

/// The answer that is no of every changeset.
pub open spec fn nothing() -> spec_fn(ChangesetId) -> bool {
    |c: ChangesetId| false
}

/// Of a changeset of which the property said yes, the answer is yes; of one
/// of which it said no, the answer is no.
pub proof fn lemma_answered<P: Fn(ChangesetId) -> Result<bool, CommitGraphError>>(
    property: P,
    answer: spec_fn(ChangesetId) -> bool,
    dag: Dag,
    cs_id: ChangesetId,
)
    requires
        answers(property, answer, dag),
        dag.contains(cs_id),
    ensures
        said_yes(property, cs_id) ==> answer(cs_id),
        said_no(property, cs_id) ==> !answer(cs_id),
{
    if answer(cs_id) {
        assert(holds(property, cs_id));
    } else {
        assert(rejects(property, cs_id));
    }
}

/// A property that decides does not say yes and no of one changeset.
pub proof fn lemma_one_answer<P: Fn(ChangesetId) -> Result<bool, CommitGraphError>>(
    property: P,
    dag: Dag,
    cs_id: ChangesetId,
)
    requires
        decides(property, dag),
        dag.contains(cs_id),
    ensures
        !(said_yes(property, cs_id) && said_no(property, cs_id)),
{
    assert(can_ask(property, cs_id));
}

/// The property that holds of no changeset.
pub fn never() -> (property: impl Fn(ChangesetId) -> Result<bool, CommitGraphError>)
    ensures
        forall|cs_id: ChangesetId| can_ask(property, cs_id),
        forall|cs_id: ChangesetId| #[trigger] rejects(property, cs_id),
        forall|e: CommitGraphError| !fails_with(property, e),
{
    |cs_id: ChangesetId| -> (r: Result<bool, CommitGraphError>)
        ensures
            r == Ok::<bool, CommitGraphError>(false),
        { Ok(false) }
}

} // verus!
