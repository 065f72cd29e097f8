use commit_graph::frontier::ChangesetFrontier;
use commit_graph::graph::CommitGraph;
use commit_graph::ids::{
    ChangesetEdges, ChangesetId, ChangesetIdPrefix, ChangesetIdsResolvedFromPrefix, ChangesetNode,
    Generation,
};
use commit_graph::memory::InMemoryStorage;
use commit_graph::storage::{CommitGraphError, CommitGraphStorage, Prefetch};

fn id(n: u128) -> ChangesetId {
    ChangesetId::new(0, n)
}

fn sorted(mut ids: Vec<ChangesetId>) -> Vec<ChangesetId> {
    ids.sort();
    ids
}

fn graph_of(commits: &[(u128, &[u128])]) -> CommitGraph<InMemoryStorage> {
    let mut graph = CommitGraph::new(InMemoryStorage::new());
    for (cs, parents) in commits {
        let parents: Vec<ChangesetId> = parents.iter().map(|p| id(*p)).collect();
        assert_eq!(graph.add(&(), id(*cs), parents), Ok(true));
    }
    graph
}

const A: u128 = 1;
const B: u128 = 2;
const C: u128 = 3;
const D: u128 = 4;
const X: u128 = 24;

fn linear_chain() -> CommitGraph<InMemoryStorage> {
    graph_of(&[(A, &[]), (B, &[A]), (C, &[B])])
}

fn diamond() -> CommitGraph<InMemoryStorage> {
    graph_of(&[(A, &[]), (B, &[A]), (C, &[A]), (D, &[B, C])])
}

fn unrelated_roots() -> CommitGraph<InMemoryStorage> {
    graph_of(&[(A, &[]), (X, &[]), (B, &[A])])
}

fn collect_range(graph: &CommitGraph<InMemoryStorage>, start: u128, end: u128) -> Vec<ChangesetId> {
    graph.range_stream(&(), id(start), id(end)).unwrap().collect()
}

#[test]
fn linear_chain_ancestry() {
    let graph = linear_chain();
    assert_eq!(graph.is_ancestor(&(), id(A), id(C)), Ok(true));
    assert_eq!(graph.is_ancestor(&(), id(C), id(A)), Ok(false));
    assert_eq!(graph.is_ancestor(&(), id(B), id(C)), Ok(true));
    assert_eq!(graph.is_ancestor(&(), id(A), id(B)), Ok(true));
    assert_eq!(graph.is_ancestor(&(), id(B), id(A)), Ok(false));
}

#[test]
fn linear_chain_difference() {
    let graph = linear_chain();
    assert_eq!(
        graph.ancestors_difference(&(), vec![id(C)], vec![id(A)]),
        Ok(vec![id(C), id(B)])
    );
}

#[test]
fn linear_chain_common_base() {
    let graph = linear_chain();
    assert_eq!(graph.common_base(&(), id(B), id(C)), Ok(vec![id(B)]));
    assert_eq!(graph.common_base(&(), id(C), id(B)), Ok(vec![id(B)]));
    assert_eq!(graph.common_base(&(), id(C), id(C)), Ok(vec![id(C)]));
    assert_eq!(graph.common_base(&(), id(A), id(C)), Ok(vec![id(A)]));
}

#[test]
fn linear_chain_range() {
    let graph = linear_chain();
    assert_eq!(collect_range(&graph, A, C), vec![id(A), id(B), id(C)]);
    assert_eq!(collect_range(&graph, B, C), vec![id(B), id(C)]);
    assert_eq!(collect_range(&graph, C, A), vec![]);
}

#[test]
fn diamond_common_base() {
    let graph = diamond();
    assert_eq!(graph.common_base(&(), id(B), id(C)), Ok(vec![id(A)]));
    assert_eq!(graph.common_base(&(), id(D), id(C)), Ok(vec![id(C)]));
    assert_eq!(graph.common_base(&(), id(D), id(D)), Ok(vec![id(D)]));
}

#[test]
fn diamond_ancestry() {
    let graph = diamond();
    assert_eq!(graph.is_ancestor(&(), id(A), id(D)), Ok(true));
    assert_eq!(graph.is_ancestor(&(), id(B), id(D)), Ok(true));
    assert_eq!(graph.is_ancestor(&(), id(C), id(D)), Ok(true));
    assert_eq!(graph.is_ancestor(&(), id(B), id(C)), Ok(false));
    assert_eq!(graph.is_ancestor(&(), id(D), id(A)), Ok(false));
}

#[test]
fn diamond_difference() {
    let graph = diamond();
    assert_eq!(
        graph.ancestors_difference(&(), vec![id(D)], vec![id(B)]),
        Ok(vec![id(D), id(C)])
    );
    assert_eq!(
        graph.ancestors_difference(&(), vec![id(D)], vec![]),
        Ok(vec![id(D), id(B), id(C), id(A)])
    );
    assert_eq!(
        graph.ancestors_difference(&(), vec![id(B), id(C)], vec![id(A)]),
        Ok(vec![id(B), id(C)])
    );
}

#[test]
fn diamond_range() {
    let graph = diamond();
    assert_eq!(
        collect_range(&graph, A, D),
        vec![id(A), id(B), id(C), id(D)]
    );
    assert_eq!(collect_range(&graph, B, D), vec![id(B), id(D)]);
    assert_eq!(collect_range(&graph, B, C), vec![]);
}

#[test]
fn diamond_range_comes_in_chunks() {
    let graph = diamond();
    let mut stream = graph.range_stream(&(), id(A), id(D)).unwrap();
    assert_eq!(stream.next_chunk(), Some(vec![id(A)]));
    assert_eq!(stream.next_chunk(), Some(vec![id(B), id(C)]));
    assert_eq!(stream.next_chunk(), Some(vec![id(D)]));
    assert_eq!(stream.next_chunk(), None);
    assert_eq!(stream.next_chunk(), None);
}

#[test]
fn unrelated_roots_common_base() {
    let graph = unrelated_roots();
    assert_eq!(graph.common_base(&(), id(B), id(X)), Ok(vec![]));
    assert_eq!(graph.common_base(&(), id(X), id(B)), Ok(vec![]));
    assert_eq!(graph.common_base(&(), id(A), id(X)), Ok(vec![]));
}

#[test]
fn unrelated_roots_difference() {
    let graph = unrelated_roots();
    assert_eq!(
        graph.ancestors_difference(&(), vec![id(B)], vec![id(X)]),
        Ok(vec![id(B), id(A)])
    );
}

#[test]
fn unrelated_roots_range() {
    let graph = unrelated_roots();
    assert_eq!(collect_range(&graph, X, B), vec![]);
    assert_eq!(collect_range(&graph, B, X), vec![]);
}

fn chain(n: u128) -> CommitGraph<InMemoryStorage> {
    let mut graph = CommitGraph::new(InMemoryStorage::new());
    for i in 1..=n {
        let parents = if i == 1 { vec![] } else { vec![id(i - 1)] };
        assert_eq!(graph.add(&(), id(i), parents), Ok(true));
    }
    graph
}

#[test]
fn slicing_a_chain() {
    let graph = chain(10);
    let slices = graph.slice_ancestors(&(), vec![id(10)], |ids: Vec<ChangesetId>| Ok(ids), 3);
    assert_eq!(
        slices,
        Ok(vec![
            (1, vec![id(1), id(2), id(3)]),
            (4, vec![id(4), id(5), id(6)]),
            (7, vec![id(7), id(8), id(9)]),
            (10, vec![id(10)]),
        ])
    );
}

#[test]
fn slicing_bounds() {
    let graph = chain(10);
    let all = |ids: Vec<ChangesetId>| Ok(ids);
    assert_eq!(
        graph.slice_ancestors(&(), vec![id(9)], all, 3),
        Ok(vec![
            (1, vec![id(1), id(2), id(3)]),
            (4, vec![id(4), id(5), id(6)]),
            (7, vec![id(7), id(8), id(9)]),
        ])
    );
    assert_eq!(
        graph.slice_ancestors(&(), vec![id(3)], all, 1),
        Ok(vec![(1, vec![id(1)]), (2, vec![id(2)]), (3, vec![id(3)])])
    );
    assert_eq!(
        graph.slice_ancestors(&(), vec![id(3), id(2)], all, 100),
        Ok(vec![(1, vec![id(1), id(2), id(3)])])
    );
    assert_eq!(graph.slice_ancestors(&(), vec![], all, 3), Ok(vec![]));
    assert_eq!(
        graph.slice_ancestors(&(), vec![id(11)], all, 3),
        Err(CommitGraphError::MissingChangeset(id(11)))
    );
}

#[test]
fn slicing_stops_at_what_is_processed() {
    let graph = chain(10);
    // Everything up to generation 5 has been processed.
    let unprocessed = |ids: Vec<ChangesetId>| -> Result<Vec<ChangesetId>, CommitGraphError> {
        Ok(ids.into_iter().filter(|c| *c > id(5)).collect())
    };
    assert_eq!(
        graph.slice_ancestors(&(), vec![id(10)], unprocessed, 3),
        Ok(vec![
            (4, vec![id(4), id(5), id(6)]),
            (7, vec![id(7), id(8), id(9)]),
            (10, vec![id(10)]),
        ])
    );
    let nothing = |_ids: Vec<ChangesetId>| -> Result<Vec<ChangesetId>, CommitGraphError> { Ok(vec![]) };
    assert_eq!(graph.slice_ancestors(&(), vec![id(10)], nothing, 3), Ok(vec![]));
    let failing = |_ids: Vec<ChangesetId>| -> Result<Vec<ChangesetId>, CommitGraphError> {
        Err(CommitGraphError::Storage("no checkpoint".to_string()))
    };
    assert_eq!(
        graph.slice_ancestors(&(), vec![id(10)], failing, 3),
        Err(CommitGraphError::Storage("no checkpoint".to_string()))
    );
}

#[test]
fn slicing_a_diamond() {
    let graph = diamond();
    assert_eq!(
        graph.slice_ancestors(&(), vec![id(D)], |ids: Vec<ChangesetId>| Ok(ids), 2),
        Ok(vec![(1, vec![id(A), id(B), id(C)]), (3, vec![id(D)])])
    );
}

#[test]
fn next_slice_takes_one_window() {
    let graph = chain(6);
    let mut frontier = graph.frontier(&(), &vec![id(6)]).unwrap();
    assert_eq!(
        graph.next_slice(&(), &mut frontier, &vec![id(6)], 4),
        Ok(Some(vec![id(4), id(5), id(6)]))
    );
    assert_eq!(frontier.changesets(), vec![id(3)]);
    assert_eq!(graph.next_slice(&(), &mut frontier, &vec![id(2)], 1), Ok(None));
    assert!(frontier.is_empty());
}

fn at_most(graph: &CommitGraph<InMemoryStorage>, limit: u64) -> impl Fn(ChangesetId) -> Result<bool, CommitGraphError> + '_ {
    move |cs_id: ChangesetId| {
        Ok(graph.changeset_generation_required(&(), cs_id)?.value() <= limit)
    }
}

#[test]
fn monotone_property_frontier() {
    let graph = chain(4);
    assert_eq!(
        graph.ancestors_frontier_with(&(), vec![id(D)], at_most(&graph, 2)),
        Ok(vec![id(B)])
    );
    assert_eq!(
        graph.ancestors_frontier_with(&(), vec![id(D)], at_most(&graph, 4)),
        Ok(vec![id(D)])
    );
    assert_eq!(
        graph.ancestors_frontier_with(&(), vec![id(D)], at_most(&graph, 0)),
        Ok(vec![])
    );
}

#[test]
fn monotone_property_difference() {
    let graph = chain(4);
    assert_eq!(
        graph.ancestors_difference_with(&(), vec![id(D)], vec![], at_most(&graph, 2)),
        Ok(vec![id(D), id(C)])
    );
    assert_eq!(
        graph.ancestors_difference_with(&(), vec![id(D)], vec![id(C)], at_most(&graph, 2)),
        Ok(vec![id(D)])
    );
}

#[test]
fn frontier_of_a_merge_holds_both_sides() {
    // 6 merges 5 and 3 on the chain 1 - 2 - 3 - 4 - 5.
    let graph = graph_of(&[
        (1, &[]),
        (2, &[1]),
        (3, &[2]),
        (4, &[3]),
        (5, &[4]),
        (6, &[5, 3]),
    ]);
    assert_eq!(
        graph.ancestors_frontier_with(&(), vec![id(6)], at_most(&graph, 4)),
        Ok(vec![id(4), id(3)])
    );
}

#[test]
fn property_failure_ends_the_walk() {
    let graph = chain(4);
    let failing = |cs_id: ChangesetId| -> Result<bool, CommitGraphError> {
        if cs_id == id(3) {
            Err(CommitGraphError::Storage("phase lookup failed".to_string()))
        } else {
            Ok(false)
        }
    };
    assert_eq!(
        graph.ancestors_frontier_with(&(), vec![id(4)], failing),
        Err(CommitGraphError::Storage("phase lookup failed".to_string()))
    );
    assert_eq!(
        graph.ancestors_difference_with(&(), vec![id(4)], vec![], failing),
        Err(CommitGraphError::Storage("phase lookup failed".to_string()))
    );
}

#[test]
fn add_is_idempotent() {
    let mut graph = graph_of(&[(A, &[])]);
    assert_eq!(graph.add(&(), id(X), vec![id(A)]), Ok(true));
    assert_eq!(graph.changeset_generation(&(), id(X)), Ok(Some(Generation::new(2))));
    assert_eq!(graph.add(&(), id(X), vec![id(A)]), Ok(false));
    assert_eq!(graph.changeset_generation(&(), id(X)), Ok(Some(Generation::new(2))));
    assert_eq!(graph.add(&(), id(X), vec![id(A)]), Ok(false));
    assert_eq!(
        graph.changeset_generation_required(&(), id(A)).map(|g| g.value() + 1),
        Ok(2)
    );
    assert_eq!(graph.storage.len(), 2);
}

#[test]
fn add_needs_the_parents() {
    let mut graph = graph_of(&[(A, &[])]);
    assert_eq!(
        graph.add(&(), id(B), vec![id(A), id(C)]),
        Err(CommitGraphError::MissingChangeset(id(C)))
    );
    assert_eq!(graph.changeset_exists(&(), id(B)), Ok(false));
    assert_eq!(graph.add(&(), id(B), vec![id(B)]), Err(CommitGraphError::MissingChangeset(id(B))));
}

#[test]
fn add_refuses_a_generation_past_the_last() {
    let mut storage = InMemoryStorage::new();
    let top = ChangesetEdges {
        node: ChangesetNode::new(id(A), Generation::new(u64::MAX)),
        parents: vec![],
        skip_tree_skew_ancestor: None,
    };
    assert_eq!(storage.add(&(), top), Ok(true));
    let mut graph = CommitGraph::new(storage);
    assert_eq!(
        graph.add(&(), id(B), vec![id(A)]),
        Err(CommitGraphError::GenerationOverflow(id(B)))
    );
    assert_eq!(graph.changeset_exists(&(), id(B)), Ok(false));
}

#[test]
fn generations_are_one_more_than_the_highest_parent() {
    let graph = graph_of(&[
        (1, &[]),
        (2, &[1]),
        (3, &[2]),
        (7, &[]),
        (8, &[7, 3]),
        (9, &[8, 1]),
    ]);
    let generation = |n: u128| graph.changeset_generation_required(&(), id(n)).unwrap().value();
    assert_eq!(generation(1), 1);
    assert_eq!(generation(7), 1);
    assert_eq!(generation(3), 3);
    assert_eq!(generation(8), 4);
    assert_eq!(generation(9), 5);
    assert_eq!(graph.changeset_parents(&(), id(8)), Ok(Some(vec![id(7), id(3)])));
    assert_eq!(graph.changeset_parents_required(&(), id(1)), Ok(vec![]));
    assert_eq!(graph.changeset_parents(&(), id(5)), Ok(None));
    assert_eq!(
        graph.changeset_parents_required(&(), id(5)),
        Err(CommitGraphError::MissingChangeset(id(5)))
    );
    assert_eq!(graph.changeset_generation(&(), id(5)), Ok(None));
    assert_eq!(
        graph.changeset_generation_required(&(), id(5)),
        Err(CommitGraphError::MissingChangeset(id(5)))
    );
    assert_eq!(graph.changeset_exists(&(), id(9)), Ok(true));
    assert_eq!(graph.changeset_exists(&(), id(5)), Ok(false));
}

#[test]
fn skip_pointers_jump_along_first_parents() {
    let graph = chain(8);
    let skip = |n: u128| {
        graph
            .storage
            .fetch_edges_required(&(), id(n))
            .unwrap()
            .skip_tree_skew_ancestor
            .map(|node| (node.cs_id, node.generation.value()))
    };
    assert_eq!(skip(1), None);
    assert_eq!(skip(2), Some((id(1), 1)));
    assert_eq!(skip(3), Some((id(2), 2)));
    // from 3 the jumps to 2 and on to 1 are of the same length
    assert_eq!(skip(4), Some((id(1), 1)));
    assert_eq!(skip(5), Some((id(4), 4)));
    assert_eq!(skip(6), Some((id(5), 5)));
    assert_eq!(skip(7), Some((id(4), 4)));
    assert_eq!(skip(8), Some((id(1), 1)));
}

#[test]
fn missing_changesets_are_reported() {
    let graph = linear_chain();
    assert_eq!(
        graph.is_ancestor(&(), id(X), id(C)),
        Err(CommitGraphError::MissingChangeset(id(X)))
    );
    assert_eq!(
        graph.is_ancestor(&(), id(A), id(X)),
        Err(CommitGraphError::MissingChangeset(id(X)))
    );
    assert_eq!(
        graph.common_base(&(), id(A), id(X)),
        Err(CommitGraphError::MissingChangeset(id(X)))
    );
    assert_eq!(
        graph.ancestors_difference(&(), vec![id(C), id(X)], vec![]),
        Err(CommitGraphError::MissingChangeset(id(X)))
    );
    assert_eq!(
        graph.ancestors_difference(&(), vec![id(C)], vec![id(X)]),
        Err(CommitGraphError::MissingChangeset(id(X)))
    );
    assert!(graph.range_stream(&(), id(X), id(C)).is_err());
    assert!(graph.range_stream(&(), id(A), id(X)).is_err());
    assert_eq!(
        graph.ancestors_frontier_with(&(), vec![id(X)], |_c: ChangesetId| Ok(true)),
        Err(CommitGraphError::MissingChangeset(id(X)))
    );
}

#[test]
fn every_changeset_is_its_own_ancestor() {
    let graph = diamond();
    for n in [A, B, C, D] {
        assert_eq!(graph.is_ancestor(&(), id(n), id(n)), Ok(true));
        assert_eq!(collect_range(&graph, n, n), vec![id(n)]);
    }
}

#[test]
fn ancestry_is_antisymmetric() {
    let graph = diamond();
    for a in [A, B, C, D] {
        for b in [A, B, C, D] {
            let down = graph.is_ancestor(&(), id(a), id(b)).unwrap();
            let up = graph.is_ancestor(&(), id(b), id(a)).unwrap();
            assert!(!(down && up) || a == b);
        }
    }
}

#[test]
fn parents_are_ancestors_of_lower_generation() {
    let graph = diamond();
    for c in [A, B, C, D] {
        let generation = graph.changeset_generation_required(&(), id(c)).unwrap();
        for p in graph.changeset_parents_required(&(), id(c)).unwrap() {
            assert!(graph.changeset_generation_required(&(), p).unwrap().value() < generation.value());
            assert_eq!(graph.is_ancestor(&(), p, id(c)), Ok(true));
        }
    }
}

#[test]
fn difference_with_itself_is_empty() {
    let graph = diamond();
    for h in [A, B, C, D] {
        assert_eq!(graph.ancestors_difference(&(), vec![id(h)], vec![id(h)]), Ok(vec![]));
    }
}

#[test]
fn difference_with_nothing_is_the_ancestors() {
    let graph = diamond();
    for h in [A, B, C, D] {
        let all = sorted(graph.ancestors_difference(&(), vec![id(h)], vec![]).unwrap());
        let expected: Vec<ChangesetId> = [A, B, C, D]
            .iter()
            .map(|x| id(*x))
            .filter(|x| graph.is_ancestor(&(), *x, id(h)).unwrap())
            .collect();
        assert_eq!(all, expected);
    }
}

#[test]
fn difference_stream_comes_in_chunks() {
    let graph = diamond();
    let mut stream = graph.ancestors_difference_stream(&(), vec![id(D)], vec![]).unwrap();
    assert_eq!(stream.next_chunk(), Ok(Some(vec![id(D)])));
    assert_eq!(stream.next_chunk(), Ok(Some(vec![id(B), id(C)])));
    assert_eq!(stream.next_chunk(), Ok(Some(vec![id(A)])));
    assert_eq!(stream.next_chunk(), Ok(None));
    let mut stream = graph
        .ancestors_difference_stream_with(&(), vec![id(D)], vec![id(B)], |c: ChangesetId| Ok(c == id(A)))
        .unwrap();
    assert_eq!(stream.next_chunk(), Ok(Some(vec![id(D)])));
    assert_eq!(stream.next_chunk(), Ok(Some(vec![id(C)])));
    // the root is reached, and left out with the common changesets
    assert_eq!(stream.next_chunk(), Ok(Some(vec![])));
    assert_eq!(stream.next_chunk(), Ok(None));
}

#[test]
fn common_base_of_criss_cross_merges() {
    // 1 is the root; 2 and 3 are its children; 4 and 5 both merge 2 and 3.
    let graph = graph_of(&[(1, &[]), (2, &[1]), (3, &[1]), (4, &[2, 3]), (5, &[3, 2])]);
    assert_eq!(graph.common_base(&(), id(4), id(5)), Ok(vec![id(2), id(3)]));
    assert_eq!(graph.common_base(&(), id(5), id(4)), Ok(vec![id(2), id(3)]));
    for c in graph.common_base(&(), id(4), id(5)).unwrap() {
        assert_eq!(graph.is_ancestor(&(), c, id(4)), Ok(true));
        assert_eq!(graph.is_ancestor(&(), c, id(5)), Ok(true));
    }
}

#[test]
fn common_base_uses_long_jumps() {
    // A long chain with a side branch off its middle.
    let mut graph = chain(40);
    assert_eq!(graph.add(&(), id(100), vec![id(17)]), Ok(true));
    assert_eq!(graph.add(&(), id(101), vec![id(100)]), Ok(true));
    assert_eq!(graph.common_base(&(), id(40), id(101)), Ok(vec![id(17)]));
    assert_eq!(graph.common_base(&(), id(101), id(40)), Ok(vec![id(17)]));
    assert_eq!(graph.common_base(&(), id(40), id(3)), Ok(vec![id(3)]));
    assert_eq!(graph.is_ancestor(&(), id(17), id(101)), Ok(true));
    assert_eq!(graph.is_ancestor(&(), id(18), id(101)), Ok(false));
}

#[test]
fn range_emits_in_ascending_generation_without_duplicates() {
    let graph = graph_of(&[
        (1, &[]),
        (2, &[1]),
        (3, &[1]),
        (4, &[2, 3]),
        (5, &[4, 2]),
        (6, &[]),
        (7, &[5, 6]),
    ]);
    let range = collect_range(&graph, 1, 7);
    assert_eq!(range, vec![id(1), id(2), id(3), id(4), id(5), id(7)]);
    let range = collect_range(&graph, 2, 7);
    assert_eq!(range, vec![id(2), id(4), id(5), id(7)]);
    for x in collect_range(&graph, 3, 7) {
        assert_eq!(graph.is_ancestor(&(), id(3), x), Ok(true));
        assert_eq!(graph.is_ancestor(&(), x, id(7)), Ok(true));
    }
    assert_eq!(collect_range(&graph, 6, 5), vec![]);
}

#[test]
fn frontier_keeps_changesets_by_generation() {
    let mut frontier = ChangesetFrontier::new_single(id(5), Generation::new(3));
    frontier.insert(id(2), Generation::new(3));
    frontier.insert(id(9), Generation::new(1));
    frontier.insert(id(2), Generation::new(3));
    frontier.insert(id(4), Generation::new(2));
    assert!(!frontier.is_empty());
    assert_eq!(frontier.changesets(), vec![id(9), id(4), id(2), id(5)]);
    assert_eq!(
        frontier.last_key_value(),
        Some((Generation::new(3), vec![id(2), id(5)]))
    );
    assert_eq!(frontier.highest_generation(), Some(Generation::new(3)));
    assert!(frontier.highest_generation_contains(id(5), Generation::new(3)));
    assert!(!frontier.highest_generation_contains(id(5), Generation::new(2)));
    assert!(frontier.highest_generation_contains(id(4), Generation::new(2)));
    assert!(!frontier.highest_generation_contains(id(7), Generation::new(3)));
    let copy = frontier.clone();
    assert_eq!(
        frontier.pop_last(),
        Some((Generation::new(3), vec![id(2), id(5)]))
    );
    assert_eq!(frontier.pop_first(), Some((Generation::new(1), vec![id(9)])));
    assert_eq!(frontier.pop_first(), Some((Generation::new(2), vec![id(4)])));
    assert_eq!(frontier.pop_first(), None);
    assert_eq!(frontier.pop_last(), None);
    assert_eq!(frontier.last_key_value(), None);
    assert!(frontier.is_empty());
    assert_eq!(
        copy.into_flat_iter(),
        vec![
            (id(9), Generation::new(1)),
            (id(4), Generation::new(2)),
            (id(2), Generation::new(3)),
            (id(5), Generation::new(3)),
        ]
    );
    assert!(ChangesetFrontier::new().is_empty());
}

#[test]
fn frontier_intersection_and_disjointness() {
    let mut left = ChangesetFrontier::new();
    left.insert(id(1), Generation::new(4));
    left.insert(id(2), Generation::new(4));
    left.insert(id(3), Generation::new(2));
    let mut right = ChangesetFrontier::new();
    right.insert(id(2), Generation::new(4));
    right.insert(id(5), Generation::new(4));
    right.insert(id(1), Generation::new(3));
    assert_eq!(left.highest_generation_intersection(&right), vec![id(2)]);
    assert!(!left.is_disjoint(&right));
    let mut lower = ChangesetFrontier::new();
    lower.insert(id(1), Generation::new(3));
    lower.insert(id(2), Generation::new(3));
    // the highest generations differ
    assert_eq!(left.highest_generation_intersection(&lower), vec![]);
    assert!(left.is_disjoint(&lower));
    assert!(!right.is_disjoint(&lower));
    assert_eq!(left.highest_generation_intersection(&ChangesetFrontier::new()), vec![]);
    assert!(left.is_disjoint(&ChangesetFrontier::new()));
}

#[test]
fn lowering_replaces_changesets_by_parents() {
    let graph = diamond();
    let mut frontier = graph.single_frontier(&(), id(D)).unwrap();
    assert_eq!(graph.lower_frontier_highest_generation(&(), &mut frontier), Ok(()));
    assert_eq!(frontier.changesets(), vec![id(B), id(C)]);
    assert_eq!(graph.lower_frontier(&(), &mut frontier, Generation::new(2)), Ok(()));
    assert_eq!(frontier.changesets(), vec![id(B), id(C)]);
    assert_eq!(graph.lower_frontier(&(), &mut frontier, Generation::new(1)), Ok(()));
    assert_eq!(frontier.changesets(), vec![id(A)]);
    assert_eq!(graph.lower_frontier_highest_generation(&(), &mut frontier), Ok(()));
    assert!(frontier.is_empty());
    assert_eq!(graph.lower_frontier_highest_generation(&(), &mut frontier), Ok(()));
    let mut heads = graph.frontier(&(), &vec![id(D), id(B)]).unwrap();
    assert_eq!(heads.changesets(), vec![id(B), id(D)]);
    let step = graph
        .lower_frontier_step(&(), &mut heads, &|c: ChangesetId| Ok(c == id(D)), Prefetch::none())
        .unwrap()
        .unwrap();
    assert_eq!(step.changesets(), vec![id(D)]);
    assert_eq!(heads.changesets(), vec![id(B)]);
}

#[test]
fn identifiers_are_ordered_by_their_bits() {
    assert!(ChangesetId::new(0, 5).lt(&ChangesetId::new(0, 6)));
    assert!(ChangesetId::new(0, u128::MAX).lt(&ChangesetId::new(1, 0)));
    assert!(!ChangesetId::new(1, 0).lt(&ChangesetId::new(0, u128::MAX)));
    assert!(!ChangesetId::new(3, 3).lt(&ChangesetId::new(3, 3)));
    assert!(ChangesetId::new(0, u128::MAX) < ChangesetId::new(1, 0));
    let low = ChangesetNode::new(id(9), Generation::new(1));
    let high = ChangesetNode::new(id(1), Generation::new(2));
    assert!(low.lt(&high));
    assert!(!high.lt(&low));
    assert_eq!(Prefetch::for_p1_linear_traversal(), Prefetch::LinearTraversal);
}

#[test]
fn store_in_memory_answers_place_by_place() {
    let graph = diamond();
    let found = graph
        .storage
        .fetch_many_edges(&(), &vec![id(D), id(X), id(A)], Prefetch::none())
        .unwrap();
    assert_eq!(found.len(), 3);
    assert_eq!(found[0].as_ref().map(|e| e.node.cs_id), Some(id(D)));
    assert!(found[1].is_none());
    assert_eq!(found[2].as_ref().map(|e| e.parents.len()), Some(0));
    let all = graph
        .storage
        .fetch_many_edges_required(&(), &vec![id(B), id(C)], Prefetch::for_p1_linear_traversal())
        .unwrap();
    assert_eq!(all[0].parents, vec![ChangesetNode::new(id(A), Generation::new(1))]);
    assert_eq!(all[1].node, ChangesetNode::new(id(C), Generation::new(2)));
    assert_eq!(
        graph
            .storage
            .fetch_many_edges_required(&(), &vec![id(B), id(X)], Prefetch::none())
            .err(),
        Some(CommitGraphError::MissingChangeset(id(X)))
    );
    assert_eq!(graph.storage.fetch_edges(&(), id(X)).map(|e| e.is_none()), Ok(true));
    let copy = all[0].clone();
    assert_eq!(copy.node, all[0].node);
    assert_eq!(copy.parents, all[0].parents);
}

#[test]
fn prefixes_are_resolved_up_to_a_limit() {
    let mut graph = CommitGraph::new(InMemoryStorage::new());
    for (hi, lo) in [(0x10u128, 1u128), (0x10, 2), (0x10, 3), (0x11, 0), (0x20, 7)] {
        assert_eq!(graph.add(&(), ChangesetId::new(hi, lo), vec![]), Ok(true));
    }
    let prefix = |hi: u128| {
        ChangesetIdPrefix::new(ChangesetId::new(hi, 0), ChangesetId::new(hi, u128::MAX))
    };
    assert!(prefix(0x10).matches(&ChangesetId::new(0x10, 99)));
    assert!(!prefix(0x10).matches(&ChangesetId::new(0x11, 0)));
    assert!(!prefix(0x10).matches(&ChangesetId::new(0x0f, u128::MAX)));
    assert_eq!(
        graph.find_by_prefix(&(), prefix(0x30), 10),
        Ok(ChangesetIdsResolvedFromPrefix::NoMatch)
    );
    assert_eq!(
        graph.find_by_prefix(&(), prefix(0x20), 10),
        Ok(ChangesetIdsResolvedFromPrefix::Single(ChangesetId::new(0x20, 7)))
    );
    assert_eq!(
        graph.find_by_prefix(&(), prefix(0x11), 0),
        Ok(ChangesetIdsResolvedFromPrefix::Single(ChangesetId::new(0x11, 0)))
    );
    assert_eq!(
        graph.find_by_prefix(&(), prefix(0x10), 3),
        Ok(ChangesetIdsResolvedFromPrefix::Multiple(vec![
            ChangesetId::new(0x10, 1),
            ChangesetId::new(0x10, 2),
            ChangesetId::new(0x10, 3),
        ]))
    );
    assert_eq!(
        graph.find_by_prefix(&(), prefix(0x10), 2),
        Ok(ChangesetIdsResolvedFromPrefix::TooMany(vec![
            ChangesetId::new(0x10, 1),
            ChangesetId::new(0x10, 2),
        ]))
    );
    let whole = ChangesetIdPrefix::new(ChangesetId::new(0, 0), ChangesetId::new(u128::MAX, u128::MAX));
    assert_eq!(
        graph.find_by_prefix(&(), whole, 1),
        Ok(ChangesetIdsResolvedFromPrefix::TooMany(vec![ChangesetId::new(0x10, 1)]))
    );
}

#[test]
fn children_are_those_that_name_the_parent() {
    let graph = diamond();
    assert_eq!(graph.changeset_children(&(), id(A)), Ok(vec![id(B), id(C)]));
    assert_eq!(graph.changeset_children(&(), id(B)), Ok(vec![id(D)]));
    assert_eq!(graph.changeset_children(&(), id(D)), Ok(vec![]));
    assert_eq!(graph.changeset_children(&(), id(X)), Ok(vec![]));
    let twice = graph_of(&[(1, &[]), (2, &[1, 1])]);
    assert_eq!(twice.changeset_children(&(), id(1)), Ok(vec![id(2)]));
}

#[test]
fn frontier_gives_up_a_range_of_generations() {
    let mut frontier = ChangesetFrontier::new();
    for (n, generation) in [(1, 1), (2, 2), (3, 2), (4, 3), (5, 5), (6, 6)] {
        frontier.insert(id(n), Generation::new(generation));
    }
    assert_eq!(
        frontier.changesets_in_range(Generation::new(2)..Generation::new(5)),
        vec![id(2), id(3), id(4)]
    );
    assert_eq!(frontier.changesets(), vec![id(1), id(5), id(6)]);
    assert_eq!(
        frontier.changesets_in_range(Generation::new(3)..Generation::new(5)),
        vec![]
    );
    assert_eq!(
        frontier.changesets_in_range(Generation::new(5)..Generation::new(2)),
        vec![]
    );
    assert_eq!(
        frontier.changesets_in_range(Generation::new(6)..Generation::new(7)),
        vec![id(6)]
    );
    assert_eq!(
        frontier.changesets_in_range(Generation::new(0)..Generation::new(u64::MAX)),
        vec![id(1), id(5)]
    );
    assert!(frontier.is_empty());
}

#[test]
fn range_stream_counts_its_chunks() {
    let graph = chain(5);
    let mut stream = graph.range_stream(&(), id(2), id(4)).unwrap();
    assert_eq!(stream.collect(), vec![id(2), id(3), id(4)]);
    assert_eq!(stream.next_chunk(), None);
    assert_eq!(stream.collect(), vec![]);
}

#[test]
fn take_window_lowers_below_the_window() {
    let graph = diamond();
    let mut frontier = graph.single_frontier(&(), id(D)).unwrap();
    assert_eq!(graph.take_window(&(), &mut frontier, 2), Ok(vec![id(B), id(C), id(D)]));
    assert_eq!(frontier.changesets(), vec![id(A)]);
    assert_eq!(graph.take_window(&(), &mut frontier, 2), Ok(vec![]));
    assert_eq!(graph.take_window(&(), &mut frontier, 1), Ok(vec![id(A)]));
    assert!(frontier.is_empty());
}

#[test]
fn identifiers_stand_for_their_bytes() {
    let mut bytes = [0u8; 32];
    for (i, byte) in bytes.iter_mut().enumerate() {
        *byte = (i * 7 + 3) as u8;
    }
    let cs_id = ChangesetId::from_bytes(&bytes);
    assert_eq!(cs_id.hi, 0x030a_1118_1f26_2d34_3b42_4950_575e_656c);
    assert_eq!(cs_id.lo, 0x737a_8188_8f96_9da4_abb2_b9c0_c7ce_d5dc);
    assert_eq!(cs_id.to_bytes(), bytes);
    assert_eq!(ChangesetId::from_bytes(&[0u8; 32]), ChangesetId::new(0, 0));
    assert_eq!(
        ChangesetId::from_bytes(&[255u8; 32]),
        ChangesetId::new(u128::MAX, u128::MAX)
    );
    assert_eq!(ChangesetId::new(1, 2).to_bytes()[15], 1);
    assert_eq!(ChangesetId::new(1, 2).to_bytes()[31], 2);
    let mut low = [0u8; 32];
    low[31] = 9;
    let mut high = [0u8; 32];
    high[0] = 1;
    assert!(ChangesetId::from_bytes(&low).lt(&ChangesetId::from_bytes(&high)));
    assert_eq!(low < high, ChangesetId::from_bytes(&low) < ChangesetId::from_bytes(&high));
}

#[test]
fn a_slice_is_empty_where_what_is_needed_lies_below_it() {
    // 7 merges the end of the chain 1 - ... - 6 and its root.
    let mut graph = chain(6);
    assert_eq!(graph.add(&(), id(7), vec![id(6), id(1)]), Ok(true));
    let below_six = |ids: Vec<ChangesetId>| -> Result<Vec<ChangesetId>, CommitGraphError> {
        Ok(ids.into_iter().filter(|c| *c != id(6)).collect())
    };
    assert_eq!(
        graph.slice_ancestors(&(), vec![id(7)], below_six, 3),
        Ok(vec![(1, vec![id(1)]), (4, vec![]), (7, vec![id(7)])])
    );
}

#[test]
fn slices_are_as_many_as_the_windows() {
    let graph = chain(10);
    let all = |ids: Vec<ChangesetId>| Ok(ids);
    for (head, size, count) in [(10u128, 3u64, 4usize), (9, 3, 3), (10, 10, 1), (10, 1, 10), (1, 5, 1)] {
        let slices = graph.slice_ancestors(&(), vec![id(head)], all, size).unwrap();
        assert_eq!(slices.len(), count);
        assert!(slices.iter().all(|slice| !slice.1.is_empty()));
        assert_eq!(slices[count - 1].0, ((head as u64 - 1) / size) * size + 1);
    }
}
