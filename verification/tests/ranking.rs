use std::collections::HashMap;

use rust_sugiyama::config::{CrossingMinimization, RankingType};
use rust_sugiyama::edges::{DirectedEdge, TempEdgeKind};
use rust_sugiyama::rank_blocks::{cross_item_rank_delta, local_node_rank, ContainerRankLayout, RankBlockKind};
use rust_sugiyama::ranking::{max_rank, normalize_ranks, relax_forward};
use rust_sugiyama::topo::topo_order;

pub fn edge(index: usize, tail: usize, head: usize, min_len: i32) -> DirectedEdge {
    DirectedEdge {
        index,
        tail,
        head,
        min_len,
        base_min_len: min_len,
        weight: 1,
        label: None,
        original_tail: tail,
        original_head: head,
        flat: false,
        cluster_crossings: 0,
        temp_kind: TempEdgeKind::Original,
    }
}

fn outgoing_of(n: usize, edges: &[DirectedEdge]) -> Vec<Vec<usize>> {
    let mut out = vec![Vec::new(); n];
    for (i, e) in edges.iter().enumerate() {
        out[e.tail].push(i);
    }
    out
}

#[test]
fn topo_order_of_a_diamond() {
    let edges = vec![edge(0, 0, 1, 1), edge(1, 0, 2, 1), edge(2, 1, 3, 1), edge(3, 2, 3, 1)];
    assert_eq!(topo_order(4, &edges), vec![0, 1, 2, 3]);
}

#[test]
fn topo_order_appends_cycle_nodes_in_index_order() {
    // 1 -> 2 -> 1 is a cycle, 0 -> 1 feeds it, 3 is isolated
    let edges = vec![edge(0, 0, 1, 1), edge(1, 1, 2, 1), edge(2, 2, 1, 1)];
    assert_eq!(topo_order(4, &edges), vec![0, 3, 1, 2]);
}

#[test]
fn topo_order_ignores_flat_edges() {
    let mut flat = edge(0, 1, 0, 0);
    flat.flat = true;
    let edges = vec![flat];
    assert_eq!(topo_order(2, &edges), vec![0, 1]);
}

#[test]
fn topo_order_takes_sources_first_in_first_out() {
    let edges = vec![edge(0, 2, 0, 1)];
    assert_eq!(topo_order(3, &edges), vec![1, 2, 0]);
}

#[test]
fn topo_order_queues_released_heads_behind_waiting_sources() {
    // 0 -> 3 releases 3 while 1 and 2 still wait in the queue
    let edges = vec![edge(0, 0, 3, 1), edge(1, 1, 4, 1), edge(2, 3, 5, 1)];
    assert_eq!(topo_order(6, &edges), vec![0, 1, 2, 3, 4, 5]);
}

#[test]
fn topo_order_is_unchanged_by_reversing_a_flat_edge() {
    let mut flat = edge(1, 2, 0, 0);
    flat.flat = true;
    let mut reversed = edge(1, 0, 2, 0);
    reversed.flat = true;
    let a = vec![edge(0, 1, 0, 1), flat];
    let b = vec![edge(0, 1, 0, 1), reversed];
    assert_eq!(topo_order(3, &a), topo_order(3, &b));
    assert_eq!(topo_order(3, &a), vec![1, 2, 0]);
}

#[test]
fn relax_forward_pushes_heads_down() {
    let edges = vec![edge(0, 0, 1, 2), edge(1, 1, 2, 1), edge(2, 0, 2, 1)];
    let out = outgoing_of(3, &edges);
    let mut rank = vec![0, 0, 0];
    relax_forward(&mut rank, &[0, 1, 2], &out, &edges);
    assert_eq!(rank, vec![0, 2, 3]);
    // ranks that already satisfy every edge stay
    let mut high = vec![0, 5, 9];
    relax_forward(&mut high, &[0, 1, 2], &out, &edges);
    assert_eq!(high, vec![0, 5, 9]);
}

#[test]
fn max_and_normalize_ranks() {
    assert_eq!(max_rank(&[]), 0);
    assert_eq!(max_rank(&[-3, -1]), 0);
    assert_eq!(max_rank(&[2, 7, 1]), 7);
    let mut r = vec![-2, 0, 3];
    normalize_ranks(&mut r);
    assert_eq!(r, vec![0, 2, 5]);
    let mut s = vec![1, 4];
    normalize_ranks(&mut s);
    assert_eq!(s, vec![1, 4]);
}

#[test]
fn config_names_round_trip() {
    assert_eq!(RankingType::try_from("minimize".to_string()), Ok(RankingType::MinimizeEdgeLength));
    assert_eq!(RankingType::try_from("up".to_string()), Ok(RankingType::Up));
    assert_eq!(
        RankingType::try_from("sideways".to_string()),
        Err("invalid value for ranking type: sideways".to_string())
    );
    assert_eq!(RankingType::Hybrid.name(), "hybrid");
    assert_eq!(CrossingMinimization::try_from("median".to_string()), Ok(CrossingMinimization::Median));
    assert_eq!(
        CrossingMinimization::try_from("best".to_string()),
        Err("invalid value for crossing minimization: best".to_string())
    );
    assert_eq!(CrossingMinimization::Barycenter.name(), "barycenter");
}

#[test]
fn rank_block_helpers() {
    assert_eq!(cross_item_rank_delta(RankBlockKind::Cluster(0), RankBlockKind::Cluster(1), 3), 0);
    assert_eq!(cross_item_rank_delta(RankBlockKind::Node(0), RankBlockKind::Cluster(1), 3), 3);
    assert_eq!(cross_item_rank_delta(RankBlockKind::Node(0), RankBlockKind::Node(1), 0), 1);
    let mut node_ranks = HashMap::new();
    node_ranks.insert(7usize, 2i32);
    let mut layouts = HashMap::new();
    layouts.insert(1usize, ContainerRankLayout { node_ranks, span: 3 });
    assert_eq!(local_node_rank(RankBlockKind::Cluster(1), 7, &layouts), 2);
    assert_eq!(local_node_rank(RankBlockKind::Cluster(1), 8, &layouts), 0);
    assert_eq!(local_node_rank(RankBlockKind::Cluster(2), 7, &layouts), 0);
    assert_eq!(local_node_rank(RankBlockKind::Node(7), 7, &layouts), 0);
}
