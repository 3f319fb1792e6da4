use rust_sugiyama::assign::{assign_ranks, try_assign_ranks};
use rust_sugiyama::config::RankingType;
use rust_sugiyama::edges::{DirectedEdge, TempEdgeKind};

fn edge(index: usize, tail: usize, head: usize, min_len: i32) -> DirectedEdge {
    DirectedEdge {
        index,
        tail,
        head,
        min_len,
        base_min_len: min_len,
        weight: 1,
        label: None,
        original_tail: tail,
        original_head: head,
        flat: false,
        cluster_crossings: 0,
        temp_kind: TempEdgeKind::Original,
    }
}

fn satisfied(rank: &[i32], edges: &[DirectedEdge]) -> bool {
    edges.iter().all(|e| rank[e.head] >= rank[e.tail] + e.min_len)
}

const NON_BLENDED: [RankingType; 4] = [
    RankingType::Original,
    RankingType::MinimizeEdgeLength,
    RankingType::Up,
    RankingType::Down,
];

#[test]
fn assign_ranks_of_no_nodes_is_empty() {
    for ty in NON_BLENDED {
        assert_eq!(assign_ranks(0, &[], ty), Vec::<i32>::new());
    }
}

#[test]
fn assign_ranks_of_a_chain_is_tight() {
    let edges = vec![edge(0, 0, 1, 1), edge(1, 1, 2, 1)];
    for ty in NON_BLENDED {
        assert_eq!(assign_ranks(3, &edges, ty), vec![0, 1, 2]);
    }
}

#[test]
fn assign_ranks_original_ranks_isolated_nodes_by_position() {
    assert_eq!(assign_ranks(3, &[], RankingType::Original), vec![0, 1, 2]);
}

#[test]
fn assign_ranks_minimize_puts_isolated_nodes_at_zero() {
    assert_eq!(assign_ranks(3, &[], RankingType::MinimizeEdgeLength), vec![0, 0, 0]);
}

#[test]
fn assign_ranks_respects_longer_minimum_lengths() {
    let edges = vec![edge(0, 0, 1, 3), edge(1, 1, 2, 2)];
    for ty in NON_BLENDED {
        assert_eq!(assign_ranks(3, &edges, ty), vec![0, 3, 5]);
    }
}

#[test]
fn assign_ranks_down_levels_the_sinks() {
    // 0 -> 1 -> 3 and 0 -> 2: the sinks 2 and 3 share a rank
    let edges = vec![edge(0, 0, 1, 1), edge(1, 0, 2, 1), edge(2, 1, 3, 1)];
    for ty in [RankingType::Down, RankingType::Up] {
        let rank = assign_ranks(4, &edges, ty);
        assert!(satisfied(&rank, &edges));
        assert_eq!(rank[0], 0);
        assert_eq!(rank[2], rank[3]);
    }
}

#[test]
fn assign_ranks_satisfies_a_diamond_for_every_type() {
    let edges = vec![edge(0, 0, 1, 1), edge(1, 0, 2, 2), edge(2, 1, 3, 1), edge(3, 2, 3, 1)];
    for ty in NON_BLENDED {
        let rank = assign_ranks(4, &edges, ty);
        assert_eq!(rank.len(), 4);
        assert!(satisfied(&rank, &edges));
        if ty != RankingType::Original {
            assert_eq!(rank[0], 0);
        }
    }
}

#[test]
fn assign_ranks_minimize_keeps_all_sources_at_zero() {
    // two sources 0 and 1 feed node 2; 1 needs a longer gap
    let edges = vec![edge(0, 0, 2, 1), edge(1, 1, 2, 3)];
    let rank = assign_ranks(3, &edges, RankingType::MinimizeEdgeLength);
    assert!(satisfied(&rank, &edges));
    assert_eq!(rank[0], 0);
    assert_eq!(rank[1], 0);
    assert_eq!(rank[2], 3);
}

#[test]
fn assign_ranks_of_a_fork_by_type() {
    let edges = vec![edge(0, 0, 1, 1), edge(1, 0, 2, 1)];
    assert_eq!(assign_ranks(3, &edges, RankingType::Original), vec![0, 1, 2]);
    assert_eq!(assign_ranks(3, &edges, RankingType::MinimizeEdgeLength), vec![0, 1, 1]);
}

#[test]
fn assign_ranks_original_follows_the_topological_position() {
    // topological order 1, 2, 0: node 0 gets position 2
    let edges = vec![edge(0, 2, 0, 1)];
    assert_eq!(assign_ranks(3, &edges, RankingType::Original), vec![2, 0, 1]);
}

#[test]
fn assign_ranks_handles_a_long_chain_beyond_a_few_thousand_nodes() {
    let n = 6000;
    let edges: Vec<DirectedEdge> = (0..n - 1).map(|i| edge(i, i, i + 1, 1)).collect();
    let expected: Vec<i32> = (0..n as i32).collect();
    assert_eq!(assign_ranks(n, &edges, RankingType::MinimizeEdgeLength), expected);
    assert_eq!(assign_ranks(n, &edges, RankingType::Down), expected);
}

#[test]
fn try_assign_ranks_answers_what_assign_ranks_gives() {
    let edges = vec![edge(0, 0, 1, 1), edge(1, 0, 2, 1)];
    assert_eq!(try_assign_ranks(3, &edges, RankingType::MinimizeEdgeLength), Some(vec![0, 1, 1]));
    assert_eq!(try_assign_ranks(3, &edges, RankingType::Original), Some(vec![0, 1, 2]));
}

#[test]
fn try_assign_ranks_refuses_weights_too_large_for_the_center_sums() {
    let mut heavy = edge(0, 0, 1, 1);
    heavy.weight = i32::MAX;
    assert_eq!(try_assign_ranks(2, &[heavy], RankingType::MinimizeEdgeLength), None);
}
