use rust_sugiyama::crossings::{fenwick_add_i64, fenwick_sum_i64, weighted_inversion_count};

#[test]
fn fenwick_add_touches_covering_entries() {
    let mut tree = vec![0i64; 9];
    fenwick_add_i64(&mut tree, 3, 5);
    assert_eq!(tree, vec![0, 0, 0, 5, 5, 0, 0, 0, 5]);
    fenwick_add_i64(&mut tree, 6, -2);
    assert_eq!(tree, vec![0, 0, 0, 5, 5, 0, -2, 0, 3]);
}

#[test]
fn fenwick_sum_reads_prefix() {
    let mut tree = vec![0i64; 9];
    for (pos, w) in [(1usize, 4i64), (3, 5), (6, 7), (8, 1)] {
        fenwick_add_i64(&mut tree, pos, w);
    }
    let prefix = |i: usize| fenwick_sum_i64(&tree, i);
    assert_eq!(prefix(0), 0);
    assert_eq!(prefix(1), 4);
    assert_eq!(prefix(2), 4);
    assert_eq!(prefix(3), 9);
    assert_eq!(prefix(5), 9);
    assert_eq!(prefix(6), 16);
    assert_eq!(prefix(8), 17);
}

#[test]
fn fenwick_add_outside_the_tree_changes_nothing() {
    let mut tree = vec![1i64, 2, 3];
    fenwick_add_i64(&mut tree, 3, 9);
    assert_eq!(tree, vec![1, 2, 3]);
}

#[test]
fn inversions_count_pairs_with_larger_earlier_target() {
    let values = vec![(0usize, 2usize, 1i64), (1, 0, 1), (2, 1, 1)];
    assert_eq!(weighted_inversion_count(&values, 2), 2);
}

#[test]
fn inversions_multiply_weights() {
    let values = vec![(0usize, 2usize, 2i64), (1, 0, 3), (2, 1, 5)];
    assert_eq!(weighted_inversion_count(&values, 3), 16);
}

#[test]
fn inversions_of_sorted_or_tiny_input_are_zero() {
    let values = vec![(0usize, 0usize, 4i64), (1, 1, 4), (2, 1, 4), (3, 5, 4)];
    assert_eq!(weighted_inversion_count(&values, 5), 0);
    assert_eq!(weighted_inversion_count(&[(0, 3, 9)], 3), 0);
    assert_eq!(weighted_inversion_count(&[], 0), 0);
}

use rust_sugiyama::crossings::{pair_crossings, total_crossings, LayerNode, LayerNodeKind};
use rust_sugiyama::edges::{SegmentEdge, TempEdgeKind};

fn slot(rank: usize, order: usize) -> LayerNode {
    LayerNode { rank, order, real_node: None, cluster_path: Vec::new(), kind: LayerNodeKind::Dummy { edge_index: 0, step: 1 } }
}

fn seg(from: usize, to: usize, weight: i32) -> SegmentEdge {
    SegmentEdge {
        from,
        to,
        edge_index: 0,
        weight,
        cluster_crossings: 0,
        flat: false,
        temp_kind: TempEdgeKind::Original,
    }
}

fn two_rank_nodes() -> Vec<LayerNode> {
    // a, b on rank 0; c, d on rank 1; e, f on rank 2
    vec![slot(0, 0), slot(0, 1), slot(1, 0), slot(1, 1), slot(2, 0), slot(2, 1)]
}

#[test]
fn crossing_pair_multiplies_segment_weights() {
    let nodes = two_rank_nodes();
    let segments = vec![seg(0, 3, 2), seg(1, 2, 3)];
    assert_eq!(pair_crossings(0, &nodes, &segments), 6);
    let parallel = vec![seg(0, 2, 2), seg(1, 3, 3)];
    assert_eq!(pair_crossings(0, &nodes, &parallel), 0);
}

#[test]
fn crossing_pair_ignores_flat_and_distant_segments() {
    let nodes = two_rank_nodes();
    let mut flat = seg(1, 2, 3);
    flat.flat = true;
    let segments = vec![seg(0, 3, 2), flat, seg(1, 4, 5)];
    assert_eq!(pair_crossings(0, &nodes, &segments), 0);
}

#[test]
fn crossing_weight_includes_reversal_bonus() {
    let nodes = two_rank_nodes();
    let mut reversed = seg(1, 2, 1);
    reversed.temp_kind = TempEdgeKind::Reversed;
    let segments = vec![seg(0, 3, 1), reversed];
    // weights 1 and 1 + 1 (reversed bonus)
    assert_eq!(pair_crossings(0, &nodes, &segments), 2);
}

#[test]
fn total_crossings_sums_adjacent_rank_pairs() {
    let nodes = two_rank_nodes();
    let layers = vec![vec![0, 1], vec![2, 3], vec![4, 5]];
    let segments = vec![seg(0, 3, 2), seg(1, 2, 3), seg(2, 5, 1), seg(3, 4, 1)];
    assert_eq!(total_crossings(&layers, &nodes, &segments), 7);
    assert_eq!(total_crossings(&layers[..1], &nodes, &segments), 0);
}

#[test]
fn crossings_are_the_weighted_crossing_pairs_in_any_listing_order() {
    // three nodes on each of two ranks, all six segments in a fixed order
    let nodes = vec![slot(0, 0), slot(0, 1), slot(0, 2), slot(1, 0), slot(1, 1), slot(1, 2)];
    let segments = vec![
        seg(0, 5, 1),
        seg(2, 3, 2),
        seg(1, 4, 3),
        seg(0, 4, 4),
        seg(2, 5, 5),
        seg(1, 3, 6),
    ];
    let mut brute = 0i64;
    for i in 0..segments.len() {
        for j in (i + 1)..segments.len() {
            let (a, b) = (&segments[i], &segments[j]);
            let (af, at) = (nodes[a.from].order, nodes[a.to].order);
            let (bf, bt) = (nodes[b.from].order, nodes[b.to].order);
            if (af < bf && at > bt) || (bf < af && bt > at) {
                brute += (a.weight as i64) * (b.weight as i64);
            }
        }
    }
    assert_eq!(brute, 49);
    assert_eq!(pair_crossings(0, &nodes, &segments), brute);
    let mut reordered = segments.clone();
    reordered.reverse();
    assert_eq!(pair_crossings(0, &nodes, &reordered), brute);
}

#[test]
fn fenwick_add_raises_later_queries_on_any_tree() {
    // a tree that is not built from adds: arbitrary entries
    let before = vec![0i64, 7, -3, 11, 2, 5, -8, 1, 4];
    let mut tree = before.clone();
    fenwick_add_i64(&mut tree, 3, 10);
    for j in 0..9 {
        let expected = fenwick_sum_i64(&before, j) + if j >= 3 { 10 } else { 0 };
        assert_eq!(fenwick_sum_i64(&tree, j), expected);
    }
}

#[test]
fn weighted_inversion_count_takes_weights_far_beyond_two_to_the_thirty() {
    let big: i64 = 1 << 40;
    assert_eq!(weighted_inversion_count(&[(0, 1, big), (1, 0, 1)], 2), big);
    assert_eq!(weighted_inversion_count(&[(0, 0, big), (1, 1, 1)], 2), 0);
}
