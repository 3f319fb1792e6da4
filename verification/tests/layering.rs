use rust_sugiyama::crossings::LayerNodeKind;
use rust_sugiyama::edges::{DirectedEdge, TempEdgeKind};
use rust_sugiyama::layering::build_layered_graph;

fn edge(index: usize, tail: usize, head: usize, label: Option<&str>) -> DirectedEdge {
    let flat = tail == head;
    DirectedEdge {
        index,
        tail,
        head,
        min_len: if flat { 0 } else { 1 },
        base_min_len: if flat { 0 } else { 1 },
        weight: 2,
        label: label.map(|l| l.to_string()),
        original_tail: tail,
        original_head: head,
        flat,
        cluster_crossings: 0,
        temp_kind: TempEdgeKind::Original,
    }
}

#[test]
fn long_edges_get_dummy_chains_and_labelled_loops_get_label_nodes() {
    let mut ranks = vec![0, 2, 1];
    let paths = vec![vec![], vec![7], vec![7, 8]];
    let edges = vec![edge(10, 0, 1, None), edge(11, 0, 2, None), edge(12, 2, 2, Some("x")), edge(13, 1, 1, None)];
    let layering = build_layered_graph(&mut ranks, &edges, &paths);
    assert_eq!(ranks, vec![0, 2, 1]);
    assert_eq!(layering.layers, vec![vec![0, 4], vec![2, 3], vec![1]]);
    assert_eq!(layering.real_layer_node, vec![0, 1, 2]);
    let kinds: Vec<(usize, Option<usize>, LayerNodeKind)> =
        layering.layer_nodes.iter().map(|n| (n.rank, n.real_node, n.kind)).collect();
    assert_eq!(
        kinds,
        vec![
            (0, Some(0), LayerNodeKind::Real),
            (2, Some(1), LayerNodeKind::Real),
            (1, Some(2), LayerNodeKind::Real),
            (1, None, LayerNodeKind::Dummy { edge_index: 10, step: 1 }),
            (0, None, LayerNodeKind::FlatVirtual { edge_index: 12 }),
        ]
    );
    assert_eq!(layering.layer_nodes[4].cluster_path, vec![7, 8]);
    let segments: Vec<(usize, usize, i32, bool)> =
        layering.segment_edges.iter().map(|s| (s.from, s.to, s.weight, s.flat)).collect();
    assert_eq!(
        segments,
        vec![(0, 3, 2, false), (3, 1, 2, false), (0, 2, 2, false), (4, 2, 3, false), (4, 2, 3, false), (1, 1, 2, true)]
    );
    assert_eq!(layering.chains[&10], vec![0, 3, 1]);
    assert_eq!(layering.chains[&11], vec![0, 2]);
    assert_eq!(layering.chains[&12], vec![2, 4, 2]);
    assert_eq!(layering.chains[&13], vec![1, 1]);
    // every segment that is not flat joins adjacent ranks
    for s in &layering.segment_edges {
        if !s.flat {
            assert_eq!(layering.layer_nodes[s.to].rank, layering.layer_nodes[s.from].rank + 1);
        }
    }
}

#[test]
fn an_edge_pointing_up_raises_its_head() {
    let mut ranks = vec![3, 1];
    let paths = vec![vec![], vec![]];
    let edges = vec![edge(0, 0, 1, None)];
    let layering = build_layered_graph(&mut ranks, &edges, &paths);
    assert_eq!(ranks, vec![3, 4]);
    // the head's layer node stays on its first rank; the edge runs straight
    // from the tail to it
    assert_eq!(layering.layer_nodes[1].rank, 1);
    assert_eq!(layering.chains[&0], vec![0, 1]);
    assert_eq!(layering.layers, vec![vec![], vec![1], vec![], vec![0]]);
}

#[test]
fn a_labelled_loop_on_the_top_rank_stays_flat() {
    let mut ranks = vec![0];
    let paths = vec![vec![]];
    let edges = vec![edge(5, 0, 0, Some("l"))];
    let layering = build_layered_graph(&mut ranks, &edges, &paths);
    assert_eq!(layering.layers, vec![vec![0, 1]]);
    let flats: Vec<bool> = layering.segment_edges.iter().map(|s| s.flat).collect();
    assert_eq!(flats, vec![true, true]);
}
