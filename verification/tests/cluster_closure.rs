use rust_sugiyama::cluster_closure::{
    cluster_constraint_order, enforce_cluster_constraints_pass, merge_cluster_nodes, prepare_constraint_clusters,
    sort_dedup,
};
use rust_sugiyama::cluster_tree::{build_node_cluster_memberships, ClusterInternal};

fn cluster(declaration_index: usize, node_indices: Vec<usize>, parent: Option<usize>) -> ClusterInternal {
    ClusterInternal {
        declaration_index,
        node_indices,
        parent,
    }
}

fn summary(clusters: &[ClusterInternal]) -> Vec<(usize, Vec<usize>, Option<usize>)> {
    clusters
        .iter()
        .map(|c| (c.declaration_index, c.node_indices.clone(), c.parent))
        .collect()
}

#[test]
fn sort_dedup_sorts_and_drops_repeats() {
    let mut list = vec![3, 1, 3, 2, 1];
    sort_dedup(&mut list);
    assert_eq!(list, vec![1, 2, 3]);
    let mut empty: Vec<usize> = vec![];
    sort_dedup(&mut empty);
    assert!(empty.is_empty());
}

#[test]
fn merging_child_nodes_reports_growth() {
    let mut parent = cluster(0, vec![1, 4], None);
    let child = cluster(1, vec![2, 4], Some(0));
    assert!(merge_cluster_nodes(&mut parent, &child));
    assert_eq!(parent.node_indices, vec![1, 2, 4]);
    assert!(!merge_cluster_nodes(&mut parent, &child));
    assert_eq!(parent.parent, None);
}

#[test]
fn prepared_clusters_take_in_nested_nodes() {
    let declared = vec![
        Some(cluster(0, vec![2, 0], None)),
        Some(cluster(1, vec![1], Some(0))),
        Some(cluster(2, vec![3, 3], Some(1))),
        None,
        Some(cluster(4, vec![], Some(9))),
        Some(cluster(5, vec![4], Some(3))),
    ];
    let prepared = prepare_constraint_clusters(declared);
    assert_eq!(
        summary(&prepared),
        vec![
            (0, vec![0, 1, 2, 3], None),
            (1, vec![1, 3], Some(0)),
            (2, vec![3], Some(1)),
            (5, vec![4], Some(3)),
        ]
    );
}

#[test]
fn prepared_clusters_drop_self_parents_and_keep_empty_parents_of_members() {
    let declared = vec![
        Some(cluster(0, vec![], None)),
        Some(cluster(1, vec![5], Some(1))),
        Some(cluster(2, vec![6], Some(0))),
    ];
    let prepared = prepare_constraint_clusters(declared);
    assert_eq!(
        summary(&prepared),
        vec![(0, vec![6], None), (1, vec![5], None), (2, vec![6], Some(0))]
    );
}

#[test]
fn clusters_naming_each_other_share_their_nodes() {
    let declared = vec![
        Some(cluster(0, vec![1], Some(1))),
        Some(cluster(1, vec![2], Some(0))),
    ];
    let prepared = prepare_constraint_clusters(declared);
    assert_eq!(
        summary(&prepared),
        vec![(0, vec![1, 2], Some(1)), (1, vec![1, 2], Some(0))]
    );
}

#[test]
fn a_deep_chain_reaches_the_outermost_cluster() {
    // declared outermost first, so each pass moves nodes one level up only
    let declared = vec![
        Some(cluster(0, vec![0], None)),
        Some(cluster(1, vec![1], Some(0))),
        Some(cluster(2, vec![2], Some(1))),
        Some(cluster(3, vec![3], Some(2))),
    ];
    let prepared = prepare_constraint_clusters(declared);
    assert_eq!(prepared[0].node_indices, vec![0, 1, 2, 3]);
    assert_eq!(prepared[1].node_indices, vec![1, 2, 3]);
    assert_eq!(prepared[3].node_indices, vec![3]);
}

#[test]
fn constraint_order_puts_larger_clusters_first() {
    let clusters = vec![
        cluster(0, vec![1], None),
        cluster(1, vec![1, 2, 3], None),
        cluster(2, vec![4, 5, 6], None),
        cluster(3, vec![7, 8], None),
    ];
    assert_eq!(cluster_constraint_order(&clusters), vec![1, 2, 3, 0]);
    assert!(cluster_constraint_order(&[]).is_empty());
}

#[test]
fn constraint_pass_gathers_members_in_every_rank() {
    let clusters = vec![cluster(0, vec![0, 2, 3, 5], None), cluster(1, vec![2, 3], Some(0))];
    let memberships = build_node_cluster_memberships(6, &clusters);
    assert_eq!(memberships[2], vec![0, 1]);
    let order = cluster_constraint_order(&clusters);
    assert_eq!(order, vec![0, 1]);
    let mut ranks = vec![vec![0, 1, 2], vec![3, 4, 1, 5, 2], vec![4]];
    enforce_cluster_constraints_pass(&mut ranks, &memberships, &order);
    assert_eq!(ranks, vec![vec![0, 2, 1], vec![3, 2, 5, 4, 1], vec![4]]);
}
