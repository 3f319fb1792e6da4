use rust_sugiyama::components::connected_components;
use rust_sugiyama::edges::InputEdge;

fn edge(index: usize, tail: usize, head: usize) -> InputEdge {
    InputEdge { index, tail, head, min_len: 1, label: None }
}

#[test]
fn edges_and_shared_clusters_join_nodes() {
    let edges = vec![edge(0, 0, 2), edge(1, 4, 3)];
    let paths = vec![vec![], vec![9], vec![], vec![], vec![9]];
    let parts = connected_components(5, &edges, &paths);
    assert_eq!(parts, vec![vec![0, 2], vec![1, 3, 4]]);
}

#[test]
fn isolated_nodes_form_their_own_parts() {
    let parts = connected_components(3, &[], &[]);
    assert_eq!(parts, vec![vec![0], vec![1], vec![2]]);
    let none = connected_components(0, &[], &[]);
    assert!(none.is_empty());
}

#[test]
fn nested_cluster_paths_link_through_any_common_cluster() {
    // Nodes 0 and 5 share the outer cluster 1; nodes 2 and 3 share 4.
    let paths = vec![vec![1, 2], vec![], vec![4], vec![4, 7], vec![], vec![1]];
    let edges = vec![edge(0, 3, 1)];
    let parts = connected_components(6, &edges, &paths);
    assert_eq!(parts, vec![vec![0, 5], vec![1, 2, 3], vec![4]]);
}

#[test]
fn parts_are_sorted_and_cover_every_node_once() {
    let edges = vec![edge(0, 6, 1), edge(1, 1, 4), edge(2, 2, 5), edge(3, 3, 3)];
    let parts = connected_components(7, &edges, &[]);
    assert_eq!(parts, vec![vec![0], vec![1, 4, 6], vec![2, 5], vec![3]]);
    let mut all: Vec<usize> = parts.concat();
    all.sort();
    assert_eq!(all, (0..7).collect::<Vec<_>>());
}

#[test]
fn parts_are_exactly_the_nodes_reachable_by_links() {
    // 0 - 1 by an edge, 1 and 3 share cluster 5, 2 is alone
    let edges = vec![edge(0, 1, 0)];
    let paths = vec![vec![], vec![5], vec![], vec![5]];
    let parts = connected_components(4, &edges, &paths);
    assert_eq!(parts, vec![vec![0, 1, 3], vec![2]]);
}
