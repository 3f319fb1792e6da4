use std::collections::HashMap;

use rust_sugiyama::cluster_paths::{
    cluster_boundary_crossings, cluster_crossings_between, dummy_cluster_path_between,
    is_cluster_descendant_or_self, shared_prefix_len,
};
use rust_sugiyama::edges::{classify_cluster_edge, segment_mincross_weight, SegmentEdge, TempEdgeKind};

#[test]
fn shared_prefix_of_diverging_paths() {
    assert_eq!(shared_prefix_len(&[1, 2, 3], &[1, 2, 4, 5]), 2);
    assert_eq!(shared_prefix_len(&[], &[1]), 0);
    assert_eq!(shared_prefix_len(&[7, 8], &[7, 8]), 2);
    assert_eq!(shared_prefix_len(&[1], &[2]), 0);
}

#[test]
fn crossings_count_left_and_entered_clusters() {
    assert_eq!(cluster_crossings_between(&[1, 2, 3], &[1, 4]), 3);
    assert_eq!(cluster_crossings_between(&[1], &[1]), 0);
    assert_eq!(cluster_boundary_crossings(&[], &[5, 6]), 2);
    assert_eq!(cluster_boundary_crossings(&[0, 1], &[0, 1, 2]), 1);
}

#[test]
fn classify_flat_original_and_bridge_edges() {
    assert_eq!(classify_cluster_edge(&[1], &[2], true), (0, 0, 0, TempEdgeKind::Flat));
    assert_eq!(classify_cluster_edge(&[1, 2], &[1, 2], false), (0, 0, 0, TempEdgeKind::Original));
    // leaves cluster 2, enters cluster 3; both inside cluster 1
    assert_eq!(classify_cluster_edge(&[1, 2], &[1, 3], false), (2, 4, 2, TempEdgeKind::ClusterBridge));
    // between two top-level clusters: two more weight
    assert_eq!(classify_cluster_edge(&[1], &[2], false), (2, 6, 2, TempEdgeKind::ClusterBridge));
}

#[test]
fn dummy_paths_walk_out_then_in() {
    let tail = [1, 2];
    let head = [1, 3];
    // two transitions spread over four steps
    assert_eq!(dummy_cluster_path_between(&tail, &head, 1, 4), vec![1, 2]);
    assert_eq!(dummy_cluster_path_between(&tail, &head, 2, 4), vec![1]);
    assert_eq!(dummy_cluster_path_between(&tail, &head, 3, 4), vec![1]);
    assert_eq!(dummy_cluster_path_between(&tail, &head, 4, 4), vec![1, 3]);
    // short edges keep the tail's path
    assert_eq!(dummy_cluster_path_between(&tail, &head, 1, 1), vec![1, 2]);
    // no transitions: the shared path
    assert_eq!(dummy_cluster_path_between(&[4, 5], &[4, 5], 1, 3), vec![4, 5]);
}

#[test]
fn descendant_follows_parent_links() {
    let mut parents = HashMap::new();
    parents.insert(0usize, None);
    parents.insert(1usize, Some(0usize));
    parents.insert(2usize, Some(1usize));
    parents.insert(3usize, None);
    assert!(is_cluster_descendant_or_self(2, 0, &parents));
    assert!(is_cluster_descendant_or_self(2, 2, &parents));
    assert!(!is_cluster_descendant_or_self(0, 2, &parents));
    assert!(!is_cluster_descendant_or_self(2, 3, &parents));
    // a cycle in the parent map stops after a bounded walk
    let mut looped = HashMap::new();
    looped.insert(0usize, Some(1usize));
    looped.insert(1usize, Some(0usize));
    assert!(!is_cluster_descendant_or_self(0, 5, &looped));
}

#[test]
fn mincross_weight_adds_bonuses_and_floors_at_one() {
    let seg = SegmentEdge {
        from: 0,
        to: 1,
        edge_index: 0,
        weight: 1,
        cluster_crossings: 2,
        flat: false,
        temp_kind: TempEdgeKind::ClusterBridge,
    };
    assert_eq!(segment_mincross_weight(&seg), 7);
    let reversed = SegmentEdge { temp_kind: TempEdgeKind::Reversed, cluster_crossings: 0, ..seg };
    assert_eq!(segment_mincross_weight(&reversed), 2);
    let negative = SegmentEdge { weight: -10, cluster_crossings: 0, temp_kind: TempEdgeKind::Original, ..seg };
    assert_eq!(segment_mincross_weight(&negative), 1);
}

#[test]
fn crossings_are_symmetric_and_vanish_only_on_equal_paths() {
    assert_eq!(cluster_boundary_crossings(&[1, 2, 3], &[1, 4]), 3);
    assert_eq!(cluster_boundary_crossings(&[1, 4], &[1, 2, 3]), 3);
    assert_eq!(cluster_crossings_between(&[1, 2, 3], &[1, 4]), 3);
    assert_eq!(cluster_boundary_crossings(&[7, 8], &[7, 8]), 0);
    assert_eq!(cluster_boundary_crossings(&[7], &[7, 8]), 1);
}

#[test]
fn dummy_paths_start_at_the_tail_and_end_at_the_head() {
    let tail = vec![1, 2, 3];
    let head = vec![4];
    assert_eq!(dummy_cluster_path_between(&tail, &head, 0, 4), vec![1, 2, 3]);
    assert_eq!(dummy_cluster_path_between(&tail, &head, 1, 4), vec![1, 2]);
    assert_eq!(dummy_cluster_path_between(&tail, &head, 2, 4), vec![1]);
    assert_eq!(dummy_cluster_path_between(&tail, &head, 3, 4), Vec::<usize>::new());
    assert_eq!(dummy_cluster_path_between(&tail, &head, 4, 4), vec![4]);
}
