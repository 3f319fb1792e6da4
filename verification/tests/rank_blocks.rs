use rust_sugiyama::cluster_tree::ClusterInternal;
use rust_sugiyama::rank_blocks::{
    cross_item_rank_delta, graphviz_rank_min_length, initial_item_order, solve_item_ranks, ItemRankConstraint,
    RankBlockKind,
};

fn constraint(source_item: RankBlockKind, target_item: RankBlockKind, delta: i32) -> ItemRankConstraint {
    ItemRankConstraint {
        source_item,
        target_item,
        source_local_rank: 0,
        target_local_rank: 0,
        delta,
    }
}

#[test]
fn a_cluster_sharing_its_container_with_nodes_stays_below_them() {
    let items = [RankBlockKind::Cluster(0), RankBlockKind::Node(5)];
    let delta = cross_item_rank_delta(RankBlockKind::Node(5), RankBlockKind::Cluster(0), 1);
    let constraints = [constraint(RankBlockKind::Node(5), RankBlockKind::Cluster(0), delta)];
    assert_eq!(solve_item_ranks(&items, &constraints), vec![1, 0]);
}

#[test]
fn item_ranks_settle_on_medians_and_start_at_zero() {
    let n = |v| RankBlockKind::Node(v);
    let items = [n(0), n(1), n(2)];
    let constraints = [constraint(n(0), n(1), 1), constraint(n(1), n(2), 1), constraint(n(0), n(2), 2)];
    assert_eq!(solve_item_ranks(&items, &constraints), vec![0, 1, 2]);
}

#[test]
fn items_without_constraints_keep_their_seeds() {
    let items = [RankBlockKind::Cluster(1), RankBlockKind::Cluster(0)];
    assert_eq!(solve_item_ranks(&items, &[]), vec![0, 0]);
    let mixed = [RankBlockKind::Cluster(1), RankBlockKind::Node(3)];
    assert_eq!(solve_item_ranks(&mixed, &[]), vec![1, 0]);
    assert!(solve_item_ranks(&[], &[]).is_empty());
}

#[test]
fn local_ranks_shift_what_an_edge_asks_for() {
    let items = [RankBlockKind::Node(0), RankBlockKind::Cluster(1)];
    // the edge enters the cluster at its local rank 2, one rank below the node
    let c = ItemRankConstraint {
        source_item: RankBlockKind::Node(0),
        target_item: RankBlockKind::Cluster(1),
        source_local_rank: 0,
        target_local_rank: 2,
        delta: 1,
    };
    assert_eq!(solve_item_ranks(&items, &[c]), vec![1, 0]);
}

#[test]
fn two_clusters_pulling_on_each_other_alternate_in_step() {
    let items = [RankBlockKind::Cluster(0), RankBlockKind::Cluster(1)];
    let c = ItemRankConstraint {
        source_item: RankBlockKind::Cluster(0),
        target_item: RankBlockKind::Cluster(1),
        source_local_rank: 2,
        target_local_rank: 0,
        delta: 0,
    };
    // every round moves both at once, so they swing between -2/2 and 0/0;
    // after the twelve rounds they meet again
    assert_eq!(solve_item_ranks(&items, &[c]), vec![0, 0]);
}

#[test]
fn initial_item_order_puts_nodes_after_clusters() {
    let clusters = vec![
        ClusterInternal {
            declaration_index: 4,
            node_indices: vec![0],
            parent: None,
        },
        ClusterInternal {
            declaration_index: 1,
            node_indices: vec![1],
            parent: None,
        },
    ];
    assert_eq!(initial_item_order(&RankBlockKind::Cluster(0), &clusters), 4);
    assert_eq!(initial_item_order(&RankBlockKind::Cluster(1), &clusters), 1);
    assert_eq!(initial_item_order(&RankBlockKind::Node(3), &clusters), 5);
}

#[test]
fn rank_min_length_doubles_for_labels() {
    assert_eq!(graphviz_rank_min_length(3, false), 3);
    assert_eq!(graphviz_rank_min_length(3, true), 6);
    assert_eq!(graphviz_rank_min_length(u32::MAX, true), -1);
    assert_eq!(graphviz_rank_min_length(0x8000_0000, false), i32::MIN);
}
