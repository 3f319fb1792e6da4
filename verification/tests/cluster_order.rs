use rust_sugiyama::cluster_order::{
    build_direct_child_lookup, enforce_cluster_contiguity, enforce_sibling_cluster_order,
};

fn memberships() -> Vec<Vec<usize>> {
    // node: clusters (sorted)
    vec![
        vec![],       // 0
        vec![10],     // 1
        vec![10],     // 2
        vec![10, 20], // 3
        vec![],       // 4
        vec![],       // 5
        vec![20],     // 6
    ]
}

#[test]
fn contiguity_gathers_members_at_the_first_member() {
    let mem = memberships();
    let mut rank = vec![5, 1, 6, 2];
    enforce_cluster_contiguity(&mut rank, &mem, 10);
    assert_eq!(rank, vec![5, 1, 2, 6]);
    let mut rank = vec![1, 5, 2, 6, 3];
    enforce_cluster_contiguity(&mut rank, &mem, 10);
    assert_eq!(rank, vec![1, 2, 3, 5, 6]);
}

#[test]
fn contiguity_keeps_a_single_member_and_unknown_nodes() {
    let mem = memberships();
    let mut rank = vec![5, 6, 0, 4];
    enforce_cluster_contiguity(&mut rank, &mem, 20);
    assert_eq!(rank, vec![5, 6, 0, 4]);
    // Node 42 has no membership list: it is not a member.
    let mut rank = vec![3, 42, 6];
    enforce_cluster_contiguity(&mut rank, &mem, 20);
    assert_eq!(rank, vec![3, 6, 42]);
}

#[test]
fn sibling_order_sorts_by_group_position_in_place() {
    let mem = vec![vec![10], vec![20], vec![30], vec![20, 10]];
    let mut rank = vec![0, 1, 2, 3];
    enforce_sibling_cluster_order(&mut rank, &mem, &[20, 10]);
    assert_eq!(rank, vec![1, 3, 2, 0]);
}

#[test]
fn sibling_order_uses_the_last_position_of_a_repeated_cluster() {
    let mem = vec![vec![10], vec![20]];
    let mut rank = vec![0, 1];
    enforce_sibling_cluster_order(&mut rank, &mem, &[10, 20, 10]);
    assert_eq!(rank, vec![1, 0]);
}

#[test]
fn sibling_order_needs_two_siblings_and_two_nodes() {
    let mem = vec![vec![10], vec![20]];
    let mut rank = vec![1, 0];
    enforce_sibling_cluster_order(&mut rank, &mem, &[10]);
    assert_eq!(rank, vec![1, 0]);
    let mut rank = vec![1, 7];
    enforce_sibling_cluster_order(&mut rank, &mem, &[10, 20]);
    assert_eq!(rank, vec![1, 7]);
}

#[test]
fn child_lookup_walks_clusters_from_outermost() {
    let mut depths = vec![0usize; 8];
    depths[5] = 0;
    depths[2] = 1;
    depths[7] = 2;
    depths[3] = 1;
    depths[4] = 1;
    let mem = vec![vec![7, 2, 5], vec![4, 3]];
    let lookup = build_direct_child_lookup(&mem, &depths);
    assert_eq!(lookup.chains[0], vec![5, 2, 7]);
    assert_eq!(lookup.chains[1], vec![3, 4]);
    assert_eq!(lookup.get(None, 0), Some(5));
    assert_eq!(lookup.get(Some(5), 0), Some(2));
    assert_eq!(lookup.get(Some(2), 0), Some(7));
    assert_eq!(lookup.get(Some(7), 0), None);
    assert_eq!(lookup.get(None, 1), Some(3));
    assert_eq!(lookup.get(Some(3), 1), Some(4));
    assert_eq!(lookup.get(None, 9), None);
}

#[test]
fn contiguity_applied_twice_changes_nothing_more() {
    let mem = memberships();
    let mut rank = vec![1, 5, 2, 6, 3];
    enforce_cluster_contiguity(&mut rank, &mem, 10);
    let once = rank.clone();
    enforce_cluster_contiguity(&mut rank, &mem, 10);
    assert_eq!(rank, once);
}
