use rust_sugiyama::component_graph::{build_component_edges, orient_edges, reserve_flat_label_rank};
use rust_sugiyama::config::RankingType;
use rust_sugiyama::edges::{DirectedEdge, InputEdge, TempEdgeKind};

fn input(index: usize, tail: usize, head: usize, min_len: i32, label: Option<&str>) -> InputEdge {
    InputEdge { index, tail, head, min_len, label: label.map(|l| l.to_string()) }
}

fn summary(e: &DirectedEdge) -> (usize, usize, usize, i32, i32, i32, bool, usize, TempEdgeKind) {
    (e.index, e.tail, e.head, e.min_len, e.base_min_len, e.weight, e.flat, e.cluster_crossings, e.temp_kind)
}

fn sample() -> Vec<DirectedEdge> {
    let mut paths = vec![Vec::new(); 10];
    paths[5] = vec![1];
    paths[2] = vec![1, 2];
    let component = [5, 2, 9];
    let edges = [
        input(0, 5, 2, 0, None),
        input(1, 2, 7, 1, None),
        input(2, 9, 9, 1, None),
        input(3, 2, 5, 3, Some("a")),
    ];
    build_component_edges(&component, &edges, &paths)
}

#[test]
fn component_edges_use_local_indices_and_cluster_penalties() {
    let edges = sample();
    let got: Vec<_> = edges.iter().map(summary).collect();
    assert_eq!(
        got,
        vec![
            (0, 0, 1, 2, 1, 3, false, 1, TempEdgeKind::ClusterBridge),
            (2, 2, 2, 0, 0, 1, true, 0, TempEdgeKind::Flat),
            (3, 1, 0, 4, 3, 3, false, 1, TempEdgeKind::ClusterBridge),
        ]
    );
    assert_eq!(edges[2].label.as_deref(), Some("a"));
    assert_eq!((edges[0].original_tail, edges[0].original_head), (0, 1));
}

#[test]
fn ranking_upwards_turns_every_edge_around() {
    let edges = sample();
    let up = orient_edges(&edges, RankingType::Up);
    assert_eq!((up[0].tail, up[0].head, up[0].temp_kind), (1, 0, TempEdgeKind::Reversed));
    assert_eq!((up[0].original_tail, up[0].original_head), (0, 1));
    let down = orient_edges(&edges, RankingType::Down);
    let same: Vec<_> = down.iter().map(summary).collect();
    let before: Vec<_> = edges.iter().map(summary).collect();
    assert_eq!(same, before);
}

#[test]
fn a_labelled_loop_on_rank_zero_pushes_every_rank_down() {
    let mut edges = sample();
    let mut ranks = vec![0, 1, 0];
    reserve_flat_label_rank(&mut ranks, &edges);
    assert_eq!(ranks, vec![0, 1, 0]);
    edges[1].label = Some("loop".to_string());
    reserve_flat_label_rank(&mut ranks, &edges);
    assert_eq!(ranks, vec![1, 2, 1]);
}
