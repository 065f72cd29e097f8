//! A store that keeps the graph in memory.

use crate::dag::Dag;
use crate::ids::{
    ChangesetEdges, ChangesetId, ChangesetIdPrefix, ChangesetIdsResolvedFromPrefix, EdgesView,
};
use crate::storage::{
    are_records_of, are_required_records_of, has_prefix, CommitGraphError, CommitGraphStorage,
    Prefetch,
};
use vstd::prelude::*;

verus! {

/// No two records are for the same changeset.
pub open spec fn distinct_records(records: Seq<ChangesetEdges>) -> bool {
    forall|i: int, j: int|
        0 <= i < records.len() && 0 <= j < records.len() && records[i].node.cs_id
            == records[j].node.cs_id ==> i == j
}

/// The place of the record of `cs_id`, where there is one.
pub open spec fn place_of(records: Seq<ChangesetEdges>, cs_id: ChangesetId) -> int {
    choose|i: int| 0 <= i < records.len() && (#[trigger] records[i]).node.cs_id == cs_id
}

/// There is a record of `cs_id`.
pub open spec fn has_record(records: Seq<ChangesetEdges>, cs_id: ChangesetId) -> bool {
    exists|i: int| 0 <= i < records.len() && (#[trigger] records[i]).node.cs_id == cs_id
}

/// The graph that a list of records stands for.
pub open spec fn dag_of(records: Seq<ChangesetEdges>) -> Dag {
    Dag {
        edges: Map::new(
            |cs_id: ChangesetId| has_record(records, cs_id),
            |cs_id: ChangesetId| records[place_of(records, cs_id)]@,
        ),
    }
}

/// A commit graph store in memory: the records in the order in which they
/// were added, one for each changeset. It never fails.
pub struct InMemoryStorage {
    records: Vec<ChangesetEdges>,
}

impl InMemoryStorage {
    #[verifier::type_invariant]
    spec fn inv(self) -> bool {
        distinct_records(self.records@)
    }

    /// The records of the store, in the order in which they were added.
    pub closed spec fn records(&self) -> Seq<ChangesetEdges> {
        self.records@
    }

    /// The empty store: it has no record, and the graph that it holds has
    /// no changeset.
    pub fn new() -> (storage: InMemoryStorage)
        ensures
            storage.records() == Seq::<ChangesetEdges>::empty(),
            storage.dag().edges == Map::<ChangesetId, EdgesView>::empty(),
    {
        let storage = InMemoryStorage { records: Vec::new() };
        assert(storage.dag().edges =~= Map::<ChangesetId, EdgesView>::empty());
        storage
    }

    /// The number of changesets in the store.
    pub fn len(&self) -> (n: usize)
        ensures
            n == self.records().len(),
    {
        self.records.len()
    }

    /// The place of the record of `cs_id`, if there is one.
    fn find(&self, cs_id: ChangesetId) -> (r: Option<usize>)
        ensures
            match r {
                Some(i) => i < self.records@.len() && self.records@[i as int].node.cs_id == cs_id
                    && self.dag().contains(cs_id) && self.dag().edges[cs_id]
                    == self.records@[i as int]@,
                None => !self.dag().contains(cs_id),
            },
    {
        proof {
            use_type_invariant(self);
        }
        let mut i: usize = 0;
        while i < self.records.len()
            invariant
                i <= self.records.len(),
                distinct_records(self.records@),
                forall|k: int| 0 <= k < i ==> (#[trigger] self.records@[k]).node.cs_id != cs_id,
            decreases self.records.len() - i,
        {
            if self.records[i].node.cs_id == cs_id {
                proof {
                    assert(has_record(self.records@, cs_id));
                    let p = place_of(self.records@, cs_id);
                    assert(self.records@[p].node.cs_id == self.records@[i as int].node.cs_id);
                    assert(p == i);
                }
                return Some(i);
            }
            i += 1;
        }
        None
    }
}

/// The record names `cs_id` as a parent.
pub open spec fn names_as_parent(record: ChangesetEdges, cs_id: ChangesetId) -> bool {
    exists|i: int| 0 <= i < record.parents@.len() && (#[trigger] record.parents@[i]).cs_id == cs_id
}

/// The record is for a changeset that begins with the prefix, where there
/// is a prefix; and names `parent` as a parent, where there is none.
pub open spec fn is_picked(
    record: ChangesetEdges,
    prefix: Option<ChangesetIdPrefix>,
    parent: ChangesetId,
) -> bool {
    match prefix {
        Some(p) => p.covers(record.node.cs_id),
        None => names_as_parent(record, parent),
    }
}

/// Whether the record names `cs_id` as a parent.
fn names_parent(record: &ChangesetEdges, cs_id: ChangesetId) -> (r: bool)
    ensures
        r == names_as_parent(*record, cs_id),
{
    let mut i: usize = 0;
    while i < record.parents.len()
        invariant
            i <= record.parents.len(),
            forall|k: int| 0 <= k < i ==> (#[trigger] record.parents@[k]).cs_id != cs_id,
        decreases record.parents.len() - i,
    {
        if record.parents[i].cs_id == cs_id {
            return true;
        }
        i += 1;
    }
    false
}

impl InMemoryStorage {
    /// The changesets of the store whose records are picked, in the order
    /// in which they were added.
    #[verifier::rlimit(40)]
    fn changesets_with(&self, prefix: Option<ChangesetIdPrefix>, parent: ChangesetId) -> (ids: Vec<
        ChangesetId,
    >)
        ensures
            ids@.no_duplicates(),
            forall|id: ChangesetId|
                ids@.contains(id) <==> match prefix {
                    Some(p) => has_prefix(self.dag(), p, id),
                    None => self.dag().is_parent(parent, id),
                },
    {
        proof {
            use_type_invariant(self);
        }
        let mut ids: Vec<ChangesetId> = Vec::new();
        let mut i: usize = 0;
        while i < self.records.len()
            invariant
                i <= self.records.len(),
                distinct_records(self.records@),
                forall|k: int|
                    0 <= k < ids.len() ==> has_record(
                        self.records@.subrange(0, i as int),
                        #[trigger] ids@[k],
                    ),
                ids@.no_duplicates(),
                forall|j: int|
                    0 <= j < i ==> (ids@.contains((#[trigger] self.records@[j]).node.cs_id)
                        <==> is_picked(self.records@[j], prefix, parent)),
            decreases self.records.len() - i,
        {
            let record = &self.records[i];
            let picked = match prefix {
                Some(p) => p.matches(&record.node.cs_id),
                None => names_parent(record, parent),
            };
            let ghost before = ids@;
            let ghost seen = self.records@.subrange(0, i as int);
            let ghost longer = self.records@.subrange(0, i + 1);
            if picked {
                proof {
                    if before.contains(record.node.cs_id) {
                        let k = choose|k: int| 0 <= k < before.len() && before[k] == record.node.cs_id;
                        assert(has_record(seen, before[k]));
                        let j = place_of(seen, before[k]);
                        assert(self.records@[j].node.cs_id == self.records@[i as int].node.cs_id);
                    }
                }
                ids.push(record.node.cs_id);
            }
            proof {
                assert forall|k: int| 0 <= k < ids.len() implies has_record(
                    longer,
                    #[trigger] ids@[k],
                ) by {
                    if k < before.len() {
                        assert(has_record(seen, before[k]));
                        let j = place_of(seen, before[k]);
                        assert(longer[j].node.cs_id == ids@[k]);
                    } else {
                        assert(longer[i as int].node.cs_id == ids@[k]);
                    }
                }
                assert forall|j: int| 0 <= j < i + 1 implies (ids@.contains(
                    (#[trigger] self.records@[j]).node.cs_id,
                ) <==> is_picked(self.records@[j], prefix, parent)) by {
                    let c = self.records@[j].node.cs_id;
                    if before.contains(c) {
                        let k = choose|k: int| 0 <= k < before.len() && before[k] == c;
                        assert(ids@[k] == c);
                        assert(has_record(seen, before[k]));
                        let at = place_of(seen, before[k]);
                        assert(self.records@[at].node.cs_id == self.records@[j].node.cs_id);
                    }
                    if ids@.contains(c) && !before.contains(c) {
                        let k = choose|k: int| 0 <= k < ids@.len() && ids@[k] == c;
                        assert(k == before.len());
                        assert(self.records@[i as int].node.cs_id == c);
                        assert(j == i);
                    }
                    if j == i && picked {
                        assert(ids@[ids@.len() - 1] == c);
                    }
                }
            }
            i += 1;
        }
        proof {
            let dag = self.dag();
            assert(self.records@.subrange(0, i as int) =~= self.records@);
            assert forall|id: ChangesetId|
                ids@.contains(id) <==> match prefix {
                    Some(p) => has_prefix(dag, p, id),
                    None => dag.is_parent(parent, id),
                } by {
                if ids@.contains(id) {
                    let k = choose|k: int| 0 <= k < ids.len() && ids@[k] == id;
                    assert(has_record(self.records@, ids@[k]));
                }
                if has_record(self.records@, id) {
                    let at = place_of(self.records@, id);
                    assert(dag.edges[id] == self.records@[at]@);
                    assert(dag.parents(id) == self.records@[at].parents@);
                    assert(ids@.contains(self.records@[at].node.cs_id) <==> is_picked(
                        self.records@[at],
                        prefix,
                        parent,
                    ));
                }
            }
        }
        ids
    }
}

impl CommitGraphStorage for InMemoryStorage {
    type Context = ();

    closed spec fn dag(&self) -> Dag {
        dag_of(self.records@)
    }

    open spec fn infallible(&self) -> bool {
        true
    }

    fn fetch_edges(&self, ctx: &(), cs_id: ChangesetId) -> (r: Result<
        Option<ChangesetEdges>,
        CommitGraphError,
    >) {
        match self.find(cs_id) {
            Some(i) => Ok(Some(self.records[i].clone())),
            None => Ok(None),
        }
    }

    fn fetch_edges_required(&self, ctx: &(), cs_id: ChangesetId) -> (r: Result<
        ChangesetEdges,
        CommitGraphError,
    >) {
        match self.find(cs_id) {
            Some(i) => Ok(self.records[i].clone()),
            None => Err(CommitGraphError::MissingChangeset(cs_id)),
        }
    }

    fn fetch_many_edges(
        &self,
        ctx: &(),
        cs_ids: &Vec<ChangesetId>,
        prefetch: Prefetch,
    ) -> (r: Result<
        Vec<Option<ChangesetEdges>>,
        CommitGraphError,
    >) {
        let mut found: Vec<Option<ChangesetEdges>> = Vec::new();
        let mut i: usize = 0;
        while i < cs_ids.len()
            invariant
                i <= cs_ids.len(),
                are_records_of(self.dag(), cs_ids@.subrange(0, i as int), found@),
            decreases cs_ids.len() - i,
        {
            let one = match self.find(cs_ids[i]) {
                Some(k) => Some(self.records[k].clone()),
                None => None,
            };
            found.push(one);
            i += 1;
        }
        assert(cs_ids@.subrange(0, i as int) =~= cs_ids@);
        Ok(found)
    }

    fn fetch_many_edges_required(
        &self,
        ctx: &(),
        cs_ids: &Vec<ChangesetId>,
        prefetch: Prefetch,
    ) -> (r:
        Result<Vec<ChangesetEdges>, CommitGraphError>) {
        let mut found: Vec<ChangesetEdges> = Vec::new();
        let mut i: usize = 0;
        while i < cs_ids.len()
            invariant
                i <= cs_ids.len(),
                are_required_records_of(self.dag(), cs_ids@.subrange(0, i as int), found@),
            decreases cs_ids.len() - i,
        {
            let k = match self.find(cs_ids[i]) {
                Some(k) => k,
                None => {
                    return Err(CommitGraphError::MissingChangeset(cs_ids[i]));
                },
            };
            found.push(self.records[k].clone());
            i += 1;

        }
        assert(cs_ids@.subrange(0, i as int) =~= cs_ids@);
        Ok(found)
    }

    fn add(&mut self, ctx: &(), edges: ChangesetEdges) -> (r: Result<bool, CommitGraphError>) {
        proof {
            use_type_invariant(&*self);
        }
        match self.find(edges.node.cs_id) {
            Some(_) => Ok(false),
            None => {
                let ghost before = self.records@;
                let ghost id = edges.node.cs_id;
                let ghost view = edges@;
                let mut records: Vec<ChangesetEdges> = Vec::new();
                std::mem::swap(&mut records, &mut self.records);
                records.push(edges);
                proof {
                    let after = records@;
                    assert(!has_record(before, id));
                    assert forall|i: int, j: int|
                        0 <= i < after.len() && 0 <= j < after.len() && after[i].node.cs_id
                            == after[j].node.cs_id implies i == j by {
                        if i < before.len() && j < before.len() {
                            assert(before[i].node.cs_id == before[j].node.cs_id);
                        } else if i < before.len() {
                            assert(before[i].node.cs_id == id);
                        } else if j < before.len() {
                            assert(before[j].node.cs_id == id);
                        }
                    }
                    assert forall|c: ChangesetId| has_record(after, c) <==> has_record(before, c)
                        || c == id by {
                        if has_record(before, c) {
                            let k = place_of(before, c);
                            assert(after[k].node.cs_id == c);
                        }
                        if c == id {
                            assert(after[after.len() - 1].node.cs_id == c);
                        }
                        if has_record(after, c) {
                            let k = place_of(after, c);
                            if k < before.len() {
                                assert(before[k].node.cs_id == c);
                            }
                        }
                    }
                    assert forall|c: ChangesetId| has_record(after, c) implies dag_of(
                        after,
                    ).edges[c] == dag_of(before).edges.insert(id, view)[c] by {
                        let k = place_of(after, c);
                        if c == id {
                            assert(after[after.len() - 1].node.cs_id == c);
                            assert(k == after.len() - 1);
                        } else {
                            assert(k < before.len());
                            assert(before[k].node.cs_id == c);
                            let k2 = place_of(before, c);
                            assert(after[k2].node.cs_id == c);
                            assert(k2 == k);
                        }
                    }
                    assert(dag_of(after).edges =~= dag_of(before).edges.insert(id, view));
                }
                self.records = records;
                Ok(true)
            },
        }
    }

    fn find_by_prefix(&self, ctx: &(), cs_prefix: ChangesetIdPrefix, limit: usize) -> (r: Result<
        ChangesetIdsResolvedFromPrefix,
        CommitGraphError,
    >) {
        let mut ids = self.changesets_with(Some(cs_prefix), cs_prefix.min);
        let ghost all = ids@;
        let ghost dag = self.dag();
        if ids.len() == 0 {
            proof {
                assert forall|id: ChangesetId| !#[trigger] has_prefix(dag, cs_prefix, id) by {
                    if has_prefix(dag, cs_prefix, id) {
                        assert(all.contains(id));
                    }
                }
            }
            Ok(ChangesetIdsResolvedFromPrefix::NoMatch)
        } else if ids.len() == 1 {
            let one = ids[0];
            proof {
                assert forall|id: ChangesetId| #[trigger]
                    has_prefix(dag, cs_prefix, id) <==> id == one by {
                    assert(all.contains(all[0]));
                    if has_prefix(dag, cs_prefix, id) {
                        assert(all.contains(id));
                        let k = choose|k: int| 0 <= k < all.len() && all[k] == id;
                    }
                }
            }
            Ok(ChangesetIdsResolvedFromPrefix::Single(one))
        } else if ids.len() <= limit {
            Ok(ChangesetIdsResolvedFromPrefix::Multiple(ids))
        } else {
            ids.truncate(limit);
            proof {
                assert forall|id: ChangesetId| ids@.contains(id) implies #[trigger] has_prefix(
                    dag,
                    cs_prefix,
                    id,
                ) by {
                    let k = choose|k: int| 0 <= k < ids@.len() && ids@[k] == id;
                    assert(all[k] == id);
                    assert(all.contains(id));
                }
                let a = all[all.len() - 1];
                let b = all[0];
                assert(all.contains(a) && all.contains(b));
                assert(has_prefix(dag, cs_prefix, a) && has_prefix(dag, cs_prefix, b));
                if ids@.contains(a) {
                    let k = choose|k: int| 0 <= k < ids@.len() && ids@[k] == a;
                    assert(all[k] == a);
                }
            }
            Ok(ChangesetIdsResolvedFromPrefix::TooMany(ids))
        }
    }

    fn fetch_children(
        &self,
        ctx: &(),
        cs_id: ChangesetId,
    ) -> (r: Result<Vec<ChangesetId>, CommitGraphError>) {
        let children = self.changesets_with(None, cs_id);
        Ok(children)
    }
}

} // verus!
