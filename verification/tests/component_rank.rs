use rust_sugiyama::assign::assign_ranks;
use rust_sugiyama::component_order::order_component;
use rust_sugiyama::component_rank::rank_component;
use rust_sugiyama::config::RankingType;
use rust_sugiyama::edges::InputEdge;
use rust_sugiyama::ranking::normalize_ranks;

fn input(index: usize, tail: usize, head: usize, min_len: i32, label: Option<&str>) -> InputEdge {
    InputEdge { index, tail, head, min_len, label: label.map(|l| l.to_string()) }
}

#[test]
fn rank_component_breaks_a_cycle_and_satisfies_every_edge() {
    let paths = vec![Vec::new(); 13];
    let nodes = [10, 11, 12];
    let edges = [input(0, 10, 11, 1, None), input(1, 11, 12, 1, None), input(2, 12, 10, 1, None)];
    for ranking_type in [RankingType::Original, RankingType::MinimizeEdgeLength, RankingType::Up, RankingType::Down] {
        let ranked = rank_component(&nodes, &edges, &paths, ranking_type).unwrap();
        assert_eq!(ranked.ranks.len(), 3);
        for e in &ranked.edges {
            assert!(ranked.ranks[e.head] >= ranked.ranks[e.tail] + e.min_len);
        }
        assert_eq!(*ranked.ranks.iter().min().unwrap(), 0);
        let mut expected = assign_ranks(3, &ranked.edges, ranking_type);
        normalize_ranks(&mut expected);
        assert_eq!(ranked.ranks, expected);
    }
}

#[test]
fn rank_component_reverses_the_back_edge_of_a_triangle() {
    let paths = vec![Vec::new(); 3];
    let edges = [input(0, 0, 1, 1, None), input(1, 1, 2, 1, None), input(2, 2, 0, 1, None)];
    let ranked = rank_component(&[0, 1, 2], &edges, &paths, RankingType::Down).unwrap();
    let ends: Vec<(usize, usize)> = ranked.edges.iter().map(|e| (e.tail, e.head)).collect();
    assert_eq!(ends, vec![(0, 1), (1, 2), (0, 2)]);
    assert_eq!(ranked.ranks, vec![0, 1, 2]);
}

#[test]
fn rank_component_reserves_a_rank_for_a_labelled_loop_on_rank_zero() {
    let paths = vec![Vec::new(); 2];
    let edges = [input(0, 0, 1, 1, None), input(1, 0, 0, 1, Some("loop"))];
    let ranked = rank_component(&[0, 1], &edges, &paths, RankingType::Down).unwrap();
    assert_eq!(ranked.ranks, vec![1, 2]);
}

#[test]
fn order_component_lays_a_triangle_out_on_adjacent_ranks() {
    let paths = vec![Vec::new(); 3];
    let edges = [input(0, 0, 1, 1, None), input(1, 1, 2, 1, None), input(2, 2, 0, 1, None)];
    let order = order_component(&[0, 1, 2], &edges, &paths, RankingType::Down).unwrap();
    assert_eq!(order.ranks, vec![0, 1, 2]);
    let nodes = &order.layering.layer_nodes;
    assert_eq!(nodes.len(), 4);
    let sizes: Vec<usize> = order.layering.layers.iter().map(|l| l.len()).collect();
    assert_eq!(sizes, vec![1, 2, 1]);
    assert_eq!(order.layering.segment_edges.len(), 4);
    for s in &order.layering.segment_edges {
        assert!(!s.flat);
        assert_eq!(nodes[s.to].rank, nodes[s.from].rank + 1);
    }
    for (r, layer) in order.layering.layers.iter().enumerate() {
        for (i, &id) in layer.iter().enumerate() {
            assert_eq!(nodes[id].rank, r);
            assert_eq!(nodes[id].order, i);
        }
    }
    assert!(order.flat_constraints.is_empty());
    assert_eq!(order.layering.real_layer_node, vec![0, 1, 2]);
}

#[test]
fn order_component_keeps_the_ranking_of_rank_component() {
    let mut paths = vec![Vec::new(); 6];
    paths[4] = vec![0];
    paths[5] = vec![0];
    let nodes = [3, 4, 5];
    let edges = [input(0, 3, 4, 1, None), input(1, 3, 5, 2, None), input(2, 4, 5, 1, None)];
    let ranked = rank_component(&nodes, &edges, &paths, RankingType::MinimizeEdgeLength).unwrap();
    let order = order_component(&nodes, &edges, &paths, RankingType::MinimizeEdgeLength).unwrap();
    assert_eq!(order.ranks, ranked.ranks);
    assert_eq!(order.edges.len(), ranked.edges.len());
    assert_eq!(order.layering.layer_nodes[1].cluster_path, vec![0]);
}
