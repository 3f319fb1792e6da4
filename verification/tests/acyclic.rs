use rust_sugiyama::acyclic::{break_cycles_acyclic, dfs_break_cycles};
use rust_sugiyama::edges::{DirectedEdge, TempEdgeKind};

fn edge(index: usize, tail: usize, head: usize) -> DirectedEdge {
    DirectedEdge {
        index,
        tail,
        head,
        min_len: 1,
        base_min_len: 1,
        weight: 1,
        label: Some(format!("e{}", index)),
        original_tail: tail,
        original_head: head,
        flat: false,
        cluster_crossings: 0,
        temp_kind: TempEdgeKind::Original,
    }
}

fn ends(edges: &[DirectedEdge]) -> Vec<(usize, usize)> {
    edges.iter().map(|e| (e.tail, e.head)).collect()
}

fn has_cycle(n: usize, edges: &[DirectedEdge]) -> bool {
    // Kahn's algorithm over the non-flat edges.
    let mut indeg = vec![0usize; n];
    for e in edges.iter().filter(|e| !e.flat) {
        indeg[e.head] += 1;
    }
    let mut stack: Vec<usize> = (0..n).filter(|&v| indeg[v] == 0).collect();
    let mut seen = 0;
    while let Some(v) = stack.pop() {
        seen += 1;
        for e in edges.iter().filter(|e| !e.flat && e.tail == v) {
            indeg[e.head] -= 1;
            if indeg[e.head] == 0 {
                stack.push(e.head);
            }
        }
    }
    seen < n
}

#[test]
fn breaks_a_triangle_at_its_back_edge() {
    let mut edges = vec![edge(0, 0, 1), edge(1, 1, 2), edge(2, 2, 0)];
    break_cycles_acyclic(3, &mut edges);
    assert_eq!(ends(&edges), vec![(0, 1), (1, 2), (0, 2)]);
    assert_eq!(edges[2].temp_kind, TempEdgeKind::Reversed);
    assert_eq!(edges[0].temp_kind, TempEdgeKind::Original);
    assert_eq!(edges[2].label.as_deref(), Some("e2"));
    assert_eq!(edges[2].original_tail, 2);
    assert!(!has_cycle(3, &edges));
}

#[test]
fn two_cycle_reverses_one_edge() {
    let mut edges = vec![edge(0, 0, 1), edge(1, 1, 0)];
    break_cycles_acyclic(2, &mut edges);
    assert_eq!(ends(&edges), vec![(0, 1), (0, 1)]);
    assert_eq!(edges[1].temp_kind, TempEdgeKind::Reversed);
}

#[test]
fn acyclic_graph_is_left_unchanged() {
    let original = vec![edge(0, 2, 0), edge(1, 0, 1), edge(2, 2, 1), edge(3, 3, 2)];
    let mut edges = original.clone();
    break_cycles_acyclic(4, &mut edges);
    assert_eq!(ends(&edges), ends(&original));
    assert!(edges.iter().all(|e| e.temp_kind == TempEdgeKind::Original));
}

#[test]
fn flat_edges_are_never_reversed() {
    let mut edges = vec![edge(0, 0, 1), edge(1, 1, 0)];
    edges[1].flat = true;
    edges[1].temp_kind = TempEdgeKind::Flat;
    break_cycles_acyclic(2, &mut edges);
    assert_eq!(ends(&edges), vec![(0, 1), (1, 0)]);
    assert_eq!(edges[1].temp_kind, TempEdgeKind::Flat);
}

#[test]
fn single_node_graph_is_untouched() {
    let mut edges = vec![edge(0, 0, 0)];
    break_cycles_acyclic(1, &mut edges);
    assert_eq!(ends(&edges), vec![(0, 0)]);
    assert_eq!(edges[0].temp_kind, TempEdgeKind::Original);
}

#[test]
fn larger_cyclic_graph_becomes_acyclic() {
    let pairs = [(0, 1), (1, 2), (2, 3), (3, 1), (3, 4), (4, 0), (2, 5), (5, 2), (4, 5)];
    let mut edges: Vec<DirectedEdge> =
        pairs.iter().enumerate().map(|(i, &(t, h))| edge(i, t, h)).collect();
    break_cycles_acyclic(6, &mut edges);
    assert!(!has_cycle(6, &edges));
    for (e, &(t, h)) in edges.iter().zip(pairs.iter()) {
        if e.temp_kind == TempEdgeKind::Reversed {
            assert_eq!((e.tail, e.head), (h, t));
        } else {
            assert_eq!((e.tail, e.head), (t, h));
        }
    }
}

#[test]
fn dfs_from_a_node_reverses_edges_back_to_the_stack() {
    let mut edges = vec![edge(0, 0, 1), edge(1, 1, 0), edge(2, 2, 0)];
    let mut mark = vec![false; 3];
    let mut onstack = vec![false; 3];
    let mut changed = false;
    dfs_break_cycles(0, &mut edges, &mut mark, &mut onstack, &mut changed);
    assert!(changed);
    assert_eq!(mark, vec![true, true, false]);
    assert_eq!(onstack, vec![false, false, false]);
    assert_eq!(ends(&edges), vec![(0, 1), (0, 1), (2, 0)]);
    // A second visit of a marked node changes nothing.
    let mut again = false;
    dfs_break_cycles(1, &mut edges, &mut mark, &mut onstack, &mut again);
    assert!(!again);
    assert_eq!(ends(&edges), vec![(0, 1), (0, 1), (2, 0)]);
}

#[test]
fn dfs_starts_from_any_marking_and_skips_marked_heads() {
    // node 0 counts as already searched although its edge leads on to 1
    let mut edges = vec![edge(0, 0, 1), edge(1, 1, 2), edge(2, 2, 0)];
    let mut mark = vec![true, false, false];
    let mut onstack = vec![false; 3];
    let mut changed = false;
    dfs_break_cycles(1, &mut edges, &mut mark, &mut onstack, &mut changed);
    assert!(!changed);
    assert_eq!(mark, vec![true, true, true]);
    assert_eq!(onstack, vec![false, false, false]);
    assert_eq!(ends(&edges), vec![(0, 1), (1, 2), (2, 0)]);
}

#[test]
fn dfs_reverses_the_edge_back_to_a_node_on_the_stack() {
    // 0 is on the stack of an outer search: 1 -> 0 points back to it
    let mut edges = vec![edge(0, 1, 0), edge(1, 1, 2)];
    let mut mark = vec![true, false, false];
    let mut onstack = vec![true, false, false];
    let mut changed = false;
    dfs_break_cycles(1, &mut edges, &mut mark, &mut onstack, &mut changed);
    assert!(changed);
    assert_eq!(ends(&edges), vec![(0, 1), (1, 2)]);
    assert_eq!(edges[0].temp_kind, TempEdgeKind::Reversed);
    assert_eq!(onstack, vec![true, false, false]);
}
