use rust_sugiyama::membership::{
    cluster_membership_overlap, cluster_membership_transitions, merge_sorted_unique_usize,
};
use rust_sugiyama::routing::{is_excluded_cluster_obstacle, MoveDir};

#[test]
fn merge_sorted_lists_keeps_single_copies() {
    let mut target = vec![1, 3, 5];
    assert!(merge_sorted_unique_usize(&mut target, &[2, 3, 6]));
    assert_eq!(target, vec![1, 2, 3, 5, 6]);
}

#[test]
fn merge_reports_no_change() {
    let mut target = vec![1, 2, 3];
    assert!(!merge_sorted_unique_usize(&mut target, &[2, 3]));
    assert_eq!(target, vec![1, 2, 3]);
    assert!(!merge_sorted_unique_usize(&mut target, &[]));
    let mut empty: Vec<usize> = Vec::new();
    assert!(merge_sorted_unique_usize(&mut empty, &[4, 9]));
    assert_eq!(empty, vec![4, 9]);
}

#[test]
fn overlap_and_transitions_of_sorted_memberships() {
    assert_eq!(cluster_membership_overlap(&[1, 2, 5], &[2, 3, 5, 7]), 2);
    assert_eq!(cluster_membership_transitions(&[1, 2, 5], &[2, 3, 5, 7]), 3);
    assert_eq!(cluster_membership_overlap(&[], &[1]), 0);
    assert_eq!(cluster_membership_transitions(&[], &[1, 2]), 2);
    assert_eq!(cluster_membership_transitions(&[4], &[4]), 0);
}

#[test]
fn move_direction_slots() {
    assert_eq!(MoveDir::NoMove.index(), 0);
    assert_eq!(MoveDir::Horizontal.index(), 1);
    assert_eq!(MoveDir::Vertical.index(), 2);
}

#[test]
fn excluded_obstacles() {
    assert!(is_excluded_cluster_obstacle(3, &[1, 3]));
    assert!(!is_excluded_cluster_obstacle(2, &[1, 3]));
    assert!(!is_excluded_cluster_obstacle(2, &[]));
}

#[test]
fn transitions_are_symmetric_and_counted_from_the_overlap() {
    let a = [1, 3, 5, 7];
    let b = [3, 4, 7];
    let overlap = cluster_membership_overlap(&a, &b);
    assert_eq!(overlap, 2);
    assert_eq!(cluster_membership_overlap(&b, &a), 2);
    assert_eq!(cluster_membership_transitions(&a, &b), 3);
    assert_eq!(cluster_membership_transitions(&b, &a), 3);
    assert_eq!(cluster_membership_transitions(&a, &b), a.len() + b.len() - 2 * overlap);
}
