use rust_sugiyama::clusters::{cluster_lineage, cluster_parent_map, Cluster};
use rust_sugiyama::crossings::{LayerNode, LayerNodeKind};

fn nested() -> Vec<Cluster> {
    // 0 is top level, 1 inside 0, 2 inside 1, 3 top level
    vec![
        Cluster::new(vec![1, 2]),
        Cluster::new(vec![2]).parent(0),
        Cluster::new(vec![2]).parent(1),
        Cluster::new(vec![7]),
    ]
}

#[test]
fn cluster_builders_keep_nodes_and_parent() {
    let c = Cluster::new(vec![4, 5]).parent(2);
    assert_eq!(c.nodes(), &[4, 5]);
    assert_eq!(c.parent_index(), Some(2));
    assert_eq!(Cluster::new(vec![]).parent_index(), None);
}

#[test]
fn cluster_lineage_runs_from_the_outermost_cluster() {
    let clusters = nested();
    assert_eq!(cluster_lineage(&clusters, 2), vec![0, 1, 2]);
    assert_eq!(cluster_lineage(&clusters, 3), vec![3]);
    assert_eq!(cluster_lineage(&clusters, 9), Vec::<usize>::new());
}

#[test]
fn cluster_lineage_stops_on_a_cycle() {
    // 0 and 1 name each other as parent
    let clusters = vec![Cluster::new(vec![]).parent(1), Cluster::new(vec![]).parent(0)];
    // at most one more step than there are clusters
    assert_eq!(cluster_lineage(&clusters, 0), vec![0, 1, 0]);
}

#[test]
fn cluster_lineage_stops_at_a_parent_that_names_no_cluster() {
    let clusters = vec![Cluster::new(vec![]).parent(5)];
    assert_eq!(cluster_lineage(&clusters, 0), vec![0]);
}

#[test]
fn cluster_parent_map_takes_the_first_path_naming_a_cluster() {
    let node = |path: Vec<usize>| LayerNode {
        rank: 0,
        order: 0,
        real_node: None,
        cluster_path: path,
        kind: LayerNodeKind::Dummy { edge_index: 0, step: 1 },
    };
    let nodes = vec![node(vec![0, 1, 2]), node(vec![3, 1]), node(vec![])];
    let parents = cluster_parent_map(&nodes);
    assert_eq!(parents.len(), 4);
    assert_eq!(parents[&0], None);
    assert_eq!(parents[&1], Some(0));
    assert_eq!(parents[&2], Some(1));
    assert_eq!(parents[&3], None);
}

use rust_sugiyama::cluster_tree::{
    build_cluster_depths, build_node_cluster_memberships, declaration_sibling_cluster_groups, ClusterInternal,
};

fn internal(declaration_index: usize, node_indices: Vec<usize>, parent: Option<usize>) -> ClusterInternal {
    ClusterInternal { declaration_index, node_indices, parent }
}

#[test]
fn node_cluster_memberships_list_clusters_in_order() {
    let clusters = vec![
        internal(0, vec![0, 2], None),
        internal(1, vec![2, 9], Some(0)),
        internal(2, vec![2, 2], None),
    ];
    let memberships = build_node_cluster_memberships(4, &clusters);
    assert_eq!(memberships, vec![vec![0], vec![], vec![0, 1, 2, 2], vec![]]);
}

#[test]
fn cluster_depths_count_parent_links() {
    let clusters = vec![
        internal(0, vec![], None),
        internal(1, vec![], Some(0)),
        internal(2, vec![], Some(1)),
        internal(3, vec![], Some(0)),
        internal(4, vec![], None),
    ];
    assert_eq!(build_cluster_depths(&clusters), vec![0, 1, 2, 1, 0]);
    assert_eq!(build_cluster_depths(&[]), Vec::<usize>::new());
}

#[test]
fn sibling_groups_follow_declaration_order() {
    // top level: 0, 3, 4; inside 0: 1, 2 (2 declared first); inside 3: 5 alone
    let clusters = vec![
        internal(0, vec![], None),
        internal(5, vec![], Some(0)),
        internal(2, vec![], Some(0)),
        internal(1, vec![], None),
        internal(1, vec![], None),
        internal(9, vec![], Some(3)),
    ];
    assert_eq!(declaration_sibling_cluster_groups(&clusters), vec![vec![0, 3, 4], vec![2, 1]]);
}

#[test]
fn sibling_groups_need_two_clusters() {
    let clusters = vec![internal(0, vec![], None), internal(1, vec![], Some(0))];
    assert_eq!(declaration_sibling_cluster_groups(&clusters), Vec::<Vec<usize>>::new());
}

use std::collections::HashMap;

use rust_sugiyama::clusters::{cluster_depths, compute_node_cluster_paths};

#[test]
fn cluster_depths_count_links_to_the_top() {
    assert_eq!(cluster_depths(&nested()), vec![0, 1, 2, 0]);
    // a parent index that names no cluster counts as top level
    assert_eq!(cluster_depths(&[Cluster::new(vec![]).parent(4)]), vec![0]);
}

#[test]
fn cluster_depths_stop_on_a_cycle() {
    let clusters = vec![Cluster::new(vec![]).parent(1), Cluster::new(vec![]).parent(0)];
    assert_eq!(cluster_depths(&clusters), vec![2, 1]);
}

#[test]
fn node_cluster_paths_follow_the_deepest_cluster() {
    let mut clusters = nested();
    clusters[3] = Cluster::new(vec![7, 9]);
    let node_by_id: HashMap<u32, usize> = [(1, 0), (2, 1), (7, 2)].into_iter().collect();
    let paths = compute_node_cluster_paths(&clusters, &node_by_id, 4);
    assert_eq!(paths, vec![vec![0], vec![0, 1, 2], vec![3], vec![]]);
}

#[test]
fn node_cluster_paths_take_the_last_of_equally_deep_clusters() {
    let clusters = vec![Cluster::new(vec![5]), Cluster::new(vec![5])];
    let node_by_id: HashMap<u32, usize> = [(5, 0)].into_iter().collect();
    assert_eq!(compute_node_cluster_paths(&clusters, &node_by_id, 1), vec![vec![1]]);
    assert_eq!(compute_node_cluster_paths(&[], &node_by_id, 2), vec![Vec::<usize>::new(), vec![]]);
}
