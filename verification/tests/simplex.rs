use rust_sugiyama::edges::{DirectedEdge, TempEdgeKind};
use rust_sugiyama::simplex::{
    balance_rank_band, balance_sources, local_slack_cost, network_simplex_refine,
};

fn edge(index: usize, tail: usize, head: usize, min_len: i32, weight: i32) -> DirectedEdge {
    DirectedEdge {
        index,
        tail,
        head,
        min_len,
        base_min_len: min_len,
        weight,
        label: None,
        original_tail: tail,
        original_head: head,
        flat: false,
        cluster_crossings: 0,
        temp_kind: TempEdgeKind::Original,
    }
}

fn lists(n: usize, edges: &[DirectedEdge]) -> (Vec<Vec<usize>>, Vec<Vec<usize>>) {
    let mut incoming = vec![Vec::new(); n];
    let mut outgoing = vec![Vec::new(); n];
    for (i, e) in edges.iter().enumerate() {
        outgoing[e.tail].push(i);
        incoming[e.head].push(i);
    }
    (incoming, outgoing)
}

fn feasible(rank: &[i32], edges: &[DirectedEdge]) -> bool {
    edges.iter().all(|e| rank[e.head] >= rank[e.tail] + e.min_len)
}

#[test]
fn slack_cost_weighs_the_gap_beyond_minimum_length() {
    let edges = vec![edge(0, 0, 1, 1, 2), edge(1, 1, 2, 1, 1)];
    let (incoming, outgoing) = lists(3, &edges);
    let rank = vec![0, 3, 5];
    assert_eq!(local_slack_cost(1, 2, &rank, &edges, &incoming, &outgoing), 4);
    assert_eq!(local_slack_cost(1, 4, &rank, &edges, &incoming, &outgoing), 6);
    assert_eq!(local_slack_cost(1, 1, &rank, &edges, &incoming, &outgoing), 3);
}

#[test]
fn slack_cost_counts_light_edges_once() {
    let edges = vec![edge(0, 0, 1, 1, 0), edge(1, 2, 1, 1, -5)];
    let (incoming, outgoing) = lists(3, &edges);
    let rank = vec![0, 0, 0];
    assert_eq!(local_slack_cost(1, 3, &rank, &edges, &incoming, &outgoing), 4);
}

#[test]
fn balance_sources_moves_lowest_source_to_zero() {
    let edges = vec![edge(0, 0, 2, 1, 1), edge(1, 1, 2, 1, 1)];
    let (_, outgoing) = lists(3, &edges);
    let mut rank = vec![3, 5, 7];
    balance_sources(&mut rank, &[0, 1], &[0, 1, 2], &outgoing, &edges);
    assert_eq!(rank, vec![0, 0, 4]);
}

#[test]
fn balance_sources_keeps_ranks_when_lowest_source_is_zero() {
    let edges = vec![edge(0, 0, 1, 1, 1)];
    let (_, outgoing) = lists(2, &edges);
    let mut rank = vec![0, 9];
    balance_sources(&mut rank, &[0], &[0, 1], &outgoing, &edges);
    assert_eq!(rank, vec![0, 9]);
    let mut rank = vec![4, 9];
    balance_sources(&mut rank, &[], &[0, 1], &outgoing, &edges);
    assert_eq!(rank, vec![4, 9]);
}

#[test]
fn balance_sources_relaxes_after_shifting() {
    let edges = vec![edge(0, 0, 1, 1, 1), edge(1, 1, 2, 3, 1)];
    let (_, outgoing) = lists(3, &edges);
    let mut rank = vec![2, 1, 0];
    balance_sources(&mut rank, &[0], &[0, 1, 2], &outgoing, &edges);
    assert_eq!(rank, vec![0, 1, 4]);
}

#[test]
fn simplex_pulls_a_node_down_to_its_source() {
    let edges = vec![edge(0, 0, 1, 1, 1)];
    let (incoming, outgoing) = lists(2, &edges);
    let mut rank = vec![0, 5];
    network_simplex_refine(&mut rank, &edges, &[0, 1], &[0], &incoming, &outgoing);
    assert_eq!(rank, vec![0, 1]);
}

#[test]
fn simplex_keeps_a_single_node() {
    let edges: Vec<DirectedEdge> = Vec::new();
    let (incoming, outgoing) = lists(1, &edges);
    let mut rank = vec![7];
    network_simplex_refine(&mut rank, &edges, &[0], &[], &incoming, &outgoing);
    assert_eq!(rank, vec![7]);
}

#[test]
fn simplex_result_is_feasible_and_sources_stay_at_zero() {
    let edges = vec![
        edge(0, 0, 1, 1, 1),
        edge(1, 1, 3, 1, 2),
        edge(2, 0, 2, 2, 1),
        edge(3, 2, 3, 1, 1),
        edge(4, 4, 3, 1, 3),
        edge(5, 0, 3, 1, 1),
    ];
    let (incoming, outgoing) = lists(5, &edges);
    let mut rank = vec![0, 1, 2, 5, 0];
    network_simplex_refine(&mut rank, &edges, &[0, 4, 1, 2, 3], &[0, 4], &incoming, &outgoing);
    assert!(feasible(&rank, &edges));
    assert_eq!(rank[0], 0);
    assert_eq!(rank[4], 0);
}

#[test]
fn band_balance_pulls_sources_towards_their_sink() {
    let edges = vec![edge(0, 0, 2, 1, 1), edge(1, 1, 2, 1, 1)];
    let (incoming, outgoing) = lists(3, &edges);
    let mut rank = vec![0, 0, 5];
    balance_rank_band(&mut rank, &[0, 1, 2], &[0, 1], &[2], &incoming, &outgoing, &edges);
    assert_eq!(rank, vec![0, 0, 1]);
}

#[test]
fn band_balance_rounds_half_away_from_zero() {
    let edges = vec![edge(0, 0, 1, 1, 1), edge(1, 1, 2, 1, 1)];
    let (incoming, outgoing) = lists(3, &edges);
    let mut rank = vec![1, 2, 4];
    balance_rank_band(&mut rank, &[0, 1, 2], &[0], &[2], &incoming, &outgoing, &edges);
    assert_eq!(rank, vec![0, 2, 3]);
}

#[test]
fn band_balance_leaves_empty_ranking() {
    let edges: Vec<DirectedEdge> = Vec::new();
    let mut rank: Vec<i32> = Vec::new();
    balance_rank_band(&mut rank, &[], &[], &[], &[], &[], &edges);
    assert!(rank.is_empty());
}

use rust_sugiyama::simplex::compact_ranks;

#[test]
fn compaction_lowers_nodes_above_their_heads() {
    let edges = vec![edge(0, 0, 1, 1, 1), edge(1, 1, 2, 1, 1)];
    let (_, outgoing) = lists(3, &edges);
    let mut rank = vec![0, 5, 3];
    compact_ranks(&mut rank, &[0, 1, 2], &[0], &[2], &outgoing, &edges);
    assert_eq!(rank, vec![0, 2, 3]);
}

#[test]
fn compaction_keeps_a_feasible_ranking() {
    let edges = vec![edge(0, 0, 1, 1, 1), edge(1, 1, 2, 1, 1)];
    let (_, outgoing) = lists(3, &edges);
    let mut rank = vec![0, 5, 9];
    compact_ranks(&mut rank, &[0, 1, 2], &[0], &[2], &outgoing, &edges);
    assert_eq!(rank, vec![0, 5, 9]);
    assert!(feasible(&rank, &edges));
}

#[test]
fn simplex_refines_a_chain_of_four_thousand_nodes() {
    let n = 4000usize;
    let edges: Vec<DirectedEdge> = (0..n - 1).map(|i| edge(i, i, i + 1, 1, 1)).collect();
    let (incoming, outgoing) = lists(n, &edges);
    let topo: Vec<usize> = (0..n).collect();
    let mut rank: Vec<i32> = (0..n as i32).map(|i| 2 * i).collect();
    network_simplex_refine(&mut rank, &edges, &topo, &[0], &incoming, &outgoing);
    assert!(feasible(&rank, &edges));
    assert_eq!(rank[0], 0);
    let tight: Vec<i32> = (0..n as i32).collect();
    assert_eq!(rank, tight);
}

#[test]
fn simplex_refines_a_long_chain_from_ranks_that_are_all_zero() {
    let n = 3500usize;
    let edges: Vec<DirectedEdge> = (0..n - 1).map(|i| edge(i, i, i + 1, 1, 1)).collect();
    let (incoming, outgoing) = lists(n, &edges);
    let topo: Vec<usize> = (0..n).collect();
    let mut rank = vec![0i32; n];
    network_simplex_refine(&mut rank, &edges, &topo, &[0], &incoming, &outgoing);
    let tight: Vec<i32> = (0..n as i32).collect();
    assert_eq!(rank, tight);
}

#[test]
fn compaction_settles_a_long_chain_from_ranks_that_are_all_zero() {
    let n = 3500usize;
    let edges: Vec<DirectedEdge> = (0..n - 1).map(|i| edge(i, i, i + 1, 1, 1)).collect();
    let (_, outgoing) = lists(n, &edges);
    let topo: Vec<usize> = (0..n).collect();
    let mut rank = vec![0i32; n];
    compact_ranks(&mut rank, &topo, &[0], &[n - 1], &outgoing, &edges);
    let tight: Vec<i32> = (0..n as i32).collect();
    assert_eq!(rank, tight);
}
