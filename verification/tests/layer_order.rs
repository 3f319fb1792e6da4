use rust_sugiyama::crossings::{LayerNode, LayerNodeKind};
use rust_sugiyama::edges::{SegmentEdge, TempEdgeKind};
use rust_sugiyama::layer_order::{
    initialize_layer_orders, left_to_right, refresh_layer_order, refresh_orders, weighted_in_cross,
    weighted_out_cross,
};
use rust_sugiyama::transpose::transpose_layers;

fn node(rank: usize, order: usize, real_node: Option<usize>, cluster_path: Vec<usize>) -> LayerNode {
    let kind = if real_node.is_some() { LayerNodeKind::Real } else { LayerNodeKind::Dummy { edge_index: 0, step: 1 } };
    LayerNode { rank, order, real_node, cluster_path, kind }
}

fn seg(from: usize, to: usize, edge_index: usize, weight: i32) -> SegmentEdge {
    SegmentEdge {
        from,
        to,
        edge_index,
        weight,
        cluster_crossings: 0,
        flat: false,
        temp_kind: TempEdgeKind::Original,
    }
}

/// a, b on rank 0; c, d on rank 1; a -> d and b -> c cross.
fn crossed() -> (Vec<Vec<usize>>, Vec<LayerNode>, Vec<SegmentEdge>, Vec<Vec<usize>>, Vec<Vec<usize>>) {
    let layers = vec![vec![0, 1], vec![2, 3]];
    let nodes = vec![
        node(0, 0, Some(0), vec![]),
        node(0, 1, Some(1), vec![]),
        node(1, 0, Some(2), vec![]),
        node(1, 1, Some(3), vec![]),
    ];
    let segments = vec![seg(0, 3, 0, 1), seg(1, 2, 1, 1)];
    let incoming = vec![vec![], vec![], vec![1], vec![0]];
    let outgoing = vec![vec![0], vec![1], vec![], vec![]];
    (layers, nodes, segments, incoming, outgoing)
}

#[test]
fn refresh_layer_order_records_positions() {
    let mut nodes = vec![node(0, 7, None, vec![]), node(0, 7, None, vec![]), node(0, 7, None, vec![])];
    refresh_layer_order(&[2, 0], &mut nodes);
    assert_eq!(nodes.iter().map(|n| n.order).collect::<Vec<_>>(), vec![1, 7, 0]);
}

#[test]
fn refresh_layer_order_keeps_the_last_position_of_a_repeated_node() {
    let mut nodes = vec![node(0, 9, None, vec![])];
    refresh_layer_order(&[0, 0, 0], &mut nodes);
    assert_eq!(nodes[0].order, 2);
}

#[test]
fn refresh_orders_covers_every_layer() {
    let mut nodes = vec![node(0, 5, None, vec![]), node(1, 5, None, vec![]), node(1, 5, None, vec![])];
    refresh_orders(&[vec![0], vec![2, 1]], &mut nodes);
    assert_eq!(nodes.iter().map(|n| n.order).collect::<Vec<_>>(), vec![0, 1, 0]);
}

#[test]
fn initialize_layer_orders_sorts_by_real_node_with_dummies_last() {
    let mut nodes = vec![
        node(0, 0, None, vec![]),
        node(0, 0, Some(4), vec![]),
        node(0, 0, Some(1), vec![]),
        node(0, 0, None, vec![]),
    ];
    let mut layers = vec![vec![3, 1, 0, 2]];
    initialize_layer_orders(&mut layers, &mut nodes);
    assert_eq!(layers, vec![vec![2, 1, 0, 3]]);
    assert_eq!(nodes.iter().map(|n| n.order).collect::<Vec<_>>(), vec![2, 1, 0, 3]);
}

#[test]
fn left_to_right_follows_flat_constraints_and_cluster_boundaries() {
    let nodes = vec![node(0, 0, None, vec![1]), node(0, 1, None, vec![2]), node(0, 2, None, vec![2])];
    assert!(left_to_right(&nodes, 1, 2, &[(1, 2)]));
    assert!(!left_to_right(&nodes, 1, 2, &[(2, 1)]));
    // different clusters: stays when already left
    assert!(left_to_right(&nodes, 0, 1, &[]));
    assert!(!left_to_right(&nodes, 1, 0, &[]));
    // same cluster: free to move
    assert!(!left_to_right(&nodes, 1, 2, &[]));
}

#[test]
fn weighted_cross_counts_crossing_pairs() {
    let (_, nodes, mut segments, incoming, outgoing) = crossed();
    assert_eq!(weighted_out_cross(0, 1, &outgoing, &segments, &nodes), 1);
    assert_eq!(weighted_out_cross(1, 0, &outgoing, &segments, &nodes), 0);
    assert_eq!(weighted_in_cross(2, 3, &incoming, &segments, &nodes), 1);
    assert_eq!(weighted_in_cross(3, 2, &incoming, &segments, &nodes), 0);
    segments[0].weight = 3;
    segments[1].weight = 2;
    assert_eq!(weighted_out_cross(0, 1, &outgoing, &segments, &nodes), 6);
}

#[test]
fn weighted_cross_breaks_ties_by_edge_index() {
    // both segments leave node 0 towards 1 and 2
    let nodes = vec![node(0, 0, None, vec![]), node(1, 0, None, vec![]), node(1, 1, None, vec![])];
    let segments = vec![seg(0, 2, 0, 1), seg(0, 1, 1, 1)];
    let incoming = vec![vec![], vec![1], vec![0]];
    assert_eq!(weighted_in_cross(1, 2, &incoming, &segments, &nodes), 1);
    assert_eq!(weighted_in_cross(2, 1, &incoming, &segments, &nodes), 0);
}

#[test]
fn transpose_untangles_a_crossing() {
    let (mut layers, mut nodes, segments, incoming, outgoing) = crossed();
    transpose_layers(&mut layers, &mut nodes, &segments, false, &incoming, &outgoing, &[]);
    assert_eq!(layers, vec![vec![1, 0], vec![2, 3]]);
    assert_eq!(nodes.iter().map(|n| n.order).collect::<Vec<_>>(), vec![1, 0, 0, 1]);
    assert_eq!(weighted_out_cross(1, 0, &outgoing, &segments, &nodes), 0);
}

#[test]
fn transpose_in_reverse_mode_still_untangles_a_crossing() {
    let (mut layers, mut nodes, segments, incoming, outgoing) = crossed();
    transpose_layers(&mut layers, &mut nodes, &segments, true, &incoming, &outgoing, &[]);
    assert_eq!(layers, vec![vec![1, 0], vec![2, 3]]);
    assert_eq!(nodes.iter().map(|n| n.order).collect::<Vec<_>>(), vec![1, 0, 0, 1]);
}

#[test]
fn transpose_respects_flat_constraints() {
    let (mut layers, mut nodes, segments, incoming, outgoing) = crossed();
    transpose_layers(&mut layers, &mut nodes, &segments, false, &incoming, &outgoing, &[(0, 1), (2, 3)]);
    assert_eq!(layers, vec![vec![0, 1], vec![2, 3]]);
}

#[test]
fn transpose_leaves_a_crossing_free_order() {
    let (mut layers, mut nodes, _, _, _) = crossed();
    let segments = vec![seg(0, 2, 0, 1), seg(1, 3, 1, 1)];
    let incoming = vec![vec![], vec![], vec![0], vec![1]];
    let outgoing = vec![vec![0], vec![1], vec![], vec![]];
    transpose_layers(&mut layers, &mut nodes, &segments, true, &incoming, &outgoing, &[]);
    assert_eq!(layers, vec![vec![0, 1], vec![2, 3]]);
}

use rust_sugiyama::edges::DirectedEdge;
use rust_sugiyama::layer_order::{collect_flat_order_constraints, flat_constraint_median};

fn flat_edge(index: usize, tail: usize, head: usize) -> DirectedEdge {
    DirectedEdge {
        index,
        tail,
        head,
        min_len: 0,
        base_min_len: 0,
        weight: 1,
        label: None,
        original_tail: tail,
        original_head: head,
        flat: true,
        cluster_crossings: 0,
        temp_kind: TempEdgeKind::Flat,
    }
}

#[test]
fn flat_order_constraints_keep_the_current_order() {
    let nodes = vec![node(0, 1, Some(0), vec![]), node(0, 0, Some(1), vec![]), node(1, 0, Some(2), vec![])];
    let real_layer_node = vec![0, 1, 2];
    let mut not_flat = flat_edge(3, 0, 1);
    not_flat.flat = false;
    let edges = vec![flat_edge(0, 0, 1), flat_edge(1, 1, 2), flat_edge(2, 0, 0), not_flat];
    // 0 -> 1 on one rank: 1 is currently left of 0; 1 -> 2 spans two ranks; 0 -> 0 is a loop
    assert_eq!(collect_flat_order_constraints(&edges, &real_layer_node, &nodes), vec![(1, 0)]);
}

#[test]
fn flat_constraint_median_prefers_the_rightmost_left_neighbour() {
    let nodes = vec![
        node(0, 0, None, vec![]),
        node(0, 3, None, vec![]),
        node(0, 5, None, vec![]),
        node(0, 2, None, vec![]),
        node(1, 9, None, vec![]),
    ];
    assert_eq!(flat_constraint_median(2, &nodes, &[(0, 2), (1, 2), (2, 3)]), Some(4));
    // only right neighbours: one left of the leftmost of them
    assert_eq!(flat_constraint_median(0, &nodes, &[(0, 1), (0, 3)]), Some(1));
    assert_eq!(flat_constraint_median(1, &nodes, &[(1, 0)]), Some(0));
    // neighbours on another rank do not count
    assert_eq!(flat_constraint_median(2, &nodes, &[(4, 2)]), None);
    assert_eq!(flat_constraint_median(2, &nodes, &[]), None);
}

use rust_sugiyama::layer_order::flat_chain_cluster_crossings;

#[test]
fn flat_chain_crossings_compare_the_chain_ends() {
    let nodes = vec![node(0, 0, None, vec![1, 2]), node(0, 1, None, vec![]), node(0, 2, None, vec![1, 3])];
    assert_eq!(flat_chain_cluster_crossings(&[0, 1, 2], &nodes), 2);
    assert_eq!(flat_chain_cluster_crossings(&[0, 1], &nodes), 2);
    assert_eq!(flat_chain_cluster_crossings(&[0], &nodes), 0);
}

#[test]
fn transpose_leaves_every_rank_settled() {
    // three nodes per rank, fully tangled
    let layers0 = vec![vec![0, 1, 2], vec![3, 4, 5]];
    let mut nodes = vec![
        node(0, 0, None, vec![]),
        node(0, 1, None, vec![]),
        node(0, 2, None, vec![]),
        node(1, 0, None, vec![]),
        node(1, 1, None, vec![]),
        node(1, 2, None, vec![]),
    ];
    let segments = vec![seg(0, 5, 0, 1), seg(1, 4, 1, 2), seg(2, 3, 2, 1), seg(0, 4, 3, 1)];
    let mut incoming = vec![vec![]; 6];
    let mut outgoing = vec![vec![]; 6];
    for (i, s) in segments.iter().enumerate() {
        incoming[s.to].push(i);
        outgoing[s.from].push(i);
    }
    let mut layers = layers0.clone();
    transpose_layers(&mut layers, &mut nodes, &segments, false, &incoming, &outgoing, &[]);
    for layer in &layers {
        for pair in layer.windows(2) {
            let (v, w) = (pair[0], pair[1]);
            let now = weighted_in_cross(v, w, &incoming, &segments, &nodes)
                + weighted_out_cross(v, w, &outgoing, &segments, &nodes);
            let swapped = weighted_in_cross(w, v, &incoming, &segments, &nodes)
                + weighted_out_cross(w, v, &outgoing, &segments, &nodes);
            assert!(swapped >= now);
        }
    }
    for (r, layer) in layers.iter().enumerate() {
        let mut sorted = layer.clone();
        sorted.sort();
        assert_eq!(sorted, layers0[r]);
        for (i, &x) in layer.iter().enumerate() {
            assert_eq!(nodes[x].order, i);
            assert_eq!(nodes[x].rank, r);
        }
    }
}
