//! Edges of the layered graph as the ranking and ordering phases see them.
use vstd::prelude::*;

use crate::cluster_paths::{
    cluster_crossings_between, common_prefix_len, crossings_spec, shared_prefix_len,
};

verus! {

/// How an edge entered the layered graph.
#[derive(Debug, Clone, Copy, PartialEq, Eq, Structural)]
pub enum TempEdgeKind {
    Original,
    Reversed,
    ClusterBridge,
    Flat,
}

/// A directed edge between two local node indices, with its ranking
/// constraints.
#[derive(Debug, Clone)]
pub struct DirectedEdge {
    pub index: usize,
    pub tail: usize,
    pub head: usize,
    pub min_len: i32,
    pub base_min_len: i32,
    pub weight: i32,
    pub label: Option<String>,
    pub original_tail: usize,
    pub original_head: usize,
    pub flat: bool,
    pub cluster_crossings: usize,
    pub temp_kind: TempEdgeKind,
}

/// An edge as given to the layout, between two node indices.
#[derive(Debug, Clone)]
pub struct InputEdge {
    pub index: usize,
    pub tail: usize,
    pub head: usize,
    pub min_len: i32,
    pub label: Option<String>,
}

/// One segment of an edge chain between two layer nodes.
#[derive(Debug, Clone, Copy)]
pub struct SegmentEdge {
    pub from: usize,
    pub to: usize,
    pub edge_index: usize,
    pub weight: i32,
    pub cluster_crossings: usize,
    pub flat: bool,
    pub temp_kind: TempEdgeKind,
}

/// What `classify_cluster_edge` returns: boundary crossings, extra weight,
/// extra minimum length and the edge kind.
pub open spec fn classify_spec(tail: Seq<usize>, head: Seq<usize>, flat: bool) -> (
    usize,
    i32,
    i32,
    TempEdgeKind,
) {
    if flat {
        (0, 0, 0, TempEdgeKind::Flat)
    } else if crossings_spec(tail, head) == 0 {
        (0, 0, 0, TempEdgeKind::Original)
    } else {
        let c = crossings_spec(tail, head);
        let boost: int = if common_prefix_len(tail, head) == 0 {
            2
        } else {
            0
        };
        (c as usize, (c * 2 + boost) as i32, c as i32, TempEdgeKind::ClusterBridge)
    }
}

/// Classifies an edge by the cluster boundaries it crosses: each crossing
/// adds two to the edge's weight and one to its minimum length, and an edge
/// between two different top-level clusters gets two more weight.
pub fn classify_cluster_edge(tail_path: &[usize], head_path: &[usize], flat: bool) -> (res: (
    usize,
    i32,
    i32,
    TempEdgeKind,
))
    requires
        tail_path.len() + head_path.len() <= 0x3fff_fffe,
    ensures
        res == classify_spec(tail_path@, head_path@, flat),
{
    if flat {
        return (0, 0, 0, TempEdgeKind::Flat);
    }
    let crossings = cluster_crossings_between(tail_path, head_path);
    if crossings == 0 {
        return (0, 0, 0, TempEdgeKind::Original);
    }
    let shared = shared_prefix_len(tail_path, head_path);
    let top_level_bridge_boost: i32 = if shared == 0 {
        2
    } else {
        0
    };
    let weight_penalty = (crossings as i32 * 2) + top_level_bridge_boost;
    let minlen_penalty = crossings as i32;
    (crossings, weight_penalty, minlen_penalty, TempEdgeKind::ClusterBridge)
}

/// The weight a segment carries when counting crossings.
pub open spec fn mincross_weight_spec(s: SegmentEdge) -> int {
    let bonus: int = match s.temp_kind {
        TempEdgeKind::ClusterBridge => 2,
        TempEdgeKind::Reversed => 1,
        _ => 0,
    };
    let w = s.weight + s.cluster_crossings * 2 + bonus;
    if w < 1 {
        1
    } else {
        w
    }
}

/// Segment weight used during crossing minimization: its own weight, two per
/// cluster boundary crossed, a bonus for cluster bridges (2) and reversed
/// edges (1), and never below one.
pub fn segment_mincross_weight(segment: &SegmentEdge) -> (w: i32)
    requires
        segment.cluster_crossings * 2 <= i32::MAX,
        segment.weight + segment.cluster_crossings * 2 + 2 <= i32::MAX,
    ensures
        w == mincross_weight_spec(*segment),
        w >= 1,
{
    let kind_bonus: i32 = match segment.temp_kind {
        TempEdgeKind::ClusterBridge => 2,
        TempEdgeKind::Reversed => 1,
        _ => 0,
    };
    let w = segment.weight + (segment.cluster_crossings as i32 * 2) + kind_bonus;
    if w < 1 {
        1
    } else {
        w
    }
}

} // verus!
