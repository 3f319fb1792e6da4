//! The edges of one connected component as the ranking phases see them:
//! local node indices, cluster penalties, the orientation the ranking asks
//! for, and the extra top rank that labelled flat edges need.
use std::collections::HashMap;

use vstd::prelude::*;

use crate::cluster_paths::{common_prefix_len, crossings_spec};
use crate::config::RankingType;
use crate::edges::{classify_cluster_edge, classify_spec, DirectedEdge, InputEdge, TempEdgeKind};

verus! {

broadcast use vstd::std_specs::hash::group_hash_axioms;

/// The local index of input node `g` among `nodes`: its last position.
pub open spec fn local_of(nodes: Seq<usize>, g: usize) -> Option<usize>
    decreases nodes.len(),
{
    if nodes.len() == 0 {
        None
    } else if nodes.last() == g {
        Some((nodes.len() - 1) as usize)
    } else {
        local_of(nodes.drop_last(), g)
    }
}

/// The map from input nodes to their local indices.
pub open spec fn local_map(nodes: Seq<usize>) -> Map<usize, usize> {
    Map::new(|g: usize| local_of(nodes, g) is Some, |g: usize| local_of(nodes, g)->0)
}

/// The local index of every node of the component, the last position
/// winning for a node listed twice.
fn local_indices(component_nodes: &[usize]) -> (local: HashMap<usize, usize>)
    ensures
        local@ == local_map(component_nodes@),
{
    let mut local: HashMap<usize, usize> = HashMap::new();
    let mut i: usize = 0;
    while i < component_nodes.len()
        invariant
            i <= component_nodes@.len(),
            local@ == local_map(component_nodes@.subrange(0, i as int)),
        decreases component_nodes.len() - i,
    {
        let ghost before = local@;
        local.insert(component_nodes[i], i);
        proof {
            let pre = component_nodes@.subrange(0, i as int);
            let post = component_nodes@.subrange(0, i + 1);
            assert(post.drop_last() =~= pre);
            assert(post.last() == component_nodes@[i as int]);
            assert(local@ =~= local_map(post));
        }
        i += 1;
    }
    proof {
        assert(component_nodes@.subrange(0, component_nodes@.len() as int) =~= component_nodes@);
    }
    local
}

/// The edge that input edge `e` becomes inside the component, or none when
/// an end lies outside it: local ends, a minimum length of at least one
/// (zero for a loop) plus one per cluster boundary crossed, and the cluster
/// weight penalty.
pub open spec fn component_edge(e: InputEdge, nodes: Seq<usize>, paths: Seq<Vec<usize>>) -> Option<DirectedEdge> {
    match (local_of(nodes, e.tail), local_of(nodes, e.head)) {
        (Some(tail), Some(head)) => {
            let flat = e.tail == e.head;
            let base: int = if flat {
                0
            } else if e.min_len < 1 {
                1
            } else {
                e.min_len as int
            };
            let c = classify_spec(paths[e.tail as int]@, paths[e.head as int]@, flat);
            Some(
                DirectedEdge {
                    index: e.index,
                    tail,
                    head,
                    min_len: (base + c.2) as i32,
                    base_min_len: base as i32,
                    weight: (if 1 + c.1 < 1 {
                        1
                    } else {
                        1 + c.1
                    }) as i32,
                    label: e.label,
                    original_tail: tail,
                    original_head: head,
                    flat,
                    cluster_crossings: c.0,
                    temp_kind: c.3,
                },
            )
        },
        _ => None,
    }
}

/// The component's edges, in input order.
pub open spec fn component_edges_upto(
    nodes: Seq<usize>,
    edges: Seq<InputEdge>,
    paths: Seq<Vec<usize>>,
    k: int,
) -> Seq<DirectedEdge>
    decreases k,
{
    if k <= 0 {
        Seq::empty()
    } else {
        let prev = component_edges_upto(nodes, edges, paths, k - 1);
        match component_edge(edges[k - 1], nodes, paths) {
            Some(d) => prev.push(d),
            None => prev,
        }
    }
}

/// An input edge inside the component names cluster paths that exist and
/// are short enough, and its minimum length plus its crossings fits `i32`.
pub open spec fn component_edges_fit(nodes: Seq<usize>, edges: Seq<InputEdge>, paths: Seq<Vec<usize>>) -> bool {
    forall|k: int|
        0 <= k < edges.len() && local_of(nodes, (#[trigger] edges[k]).tail) is Some && local_of(nodes, edges[k].head)
            is Some ==> {
            &&& edges[k].tail < paths.len()
            &&& edges[k].head < paths.len()
            &&& paths[edges[k].tail as int]@.len() + paths[edges[k].head as int]@.len() <= 0x3fff_fffe
            &&& edges[k].min_len + crossings_spec(paths[edges[k].tail as int]@, paths[edges[k].head as int]@) <= i32::MAX
        }
}

/// The edges of a component between its local node indices (a node's last
/// position in `component_nodes`), each with its cluster penalties; edges
/// with an end outside the component are left out.
pub fn build_component_edges(
    component_nodes: &[usize],
    component_edges: &[InputEdge],
    node_cluster_paths: &[Vec<usize>],
) -> (edges: Vec<DirectedEdge>)
    requires
        component_edges_fit(component_nodes@, component_edges@, node_cluster_paths@),
    ensures
        edges@ == component_edges_upto(
            component_nodes@,
            component_edges@,
            node_cluster_paths@,
            component_edges@.len() as int,
        ),
{
    let local = local_indices(component_nodes);
    let mut edges: Vec<DirectedEdge> = Vec::new();
    let mut k: usize = 0;
    while k < component_edges.len()
        invariant
            k <= component_edges@.len(),
            local@ == local_map(component_nodes@),
            component_edges_fit(component_nodes@, component_edges@, node_cluster_paths@),
            edges@ == component_edges_upto(component_nodes@, component_edges@, node_cluster_paths@, k as int),
        decreases component_edges.len() - k,
    {
        let edge = &component_edges[k];
        let ghost spec_edge = component_edge(*edge, component_nodes@, node_cluster_paths@);
        proof {
            assert(component_edges@[k as int] == *edge);
        }
        match local.get(&edge.tail) {
            Some(tail) => match local.get(&edge.head) {
                Some(head) => {
                    let tail = *tail;
                    let head = *head;
                    let flat = edge.tail == edge.head;
                    let base_min_len: i32 = if flat {
                        0
                    } else if edge.min_len < 1 {
                        1
                    } else {
                        edge.min_len
                    };
                    let tail_path = &node_cluster_paths[edge.tail];
                    let head_path = &node_cluster_paths[edge.head];
                    let (cluster_crossings, cluster_weight_penalty, cluster_len_penalty, temp_kind) =
                        classify_cluster_edge(tail_path.as_slice(), head_path.as_slice(), flat);
                    proof {
                        crate::cluster_paths::lemma_common_prefix_len(tail_path@, head_path@);
                    }
                    let weight: i32 = if 1 + cluster_weight_penalty < 1 {
                        1
                    } else {
                        1 + cluster_weight_penalty
                    };
                    let label: Option<String> = match &edge.label {
                        Some(l) => Some(l.clone()),
                        None => None,
                    };
                    edges.push(DirectedEdge {
                        index: edge.index,
                        tail,
                        head,
                        min_len: base_min_len + cluster_len_penalty,
                        base_min_len,
                        weight,
                        label,
                        original_tail: tail,
                        original_head: head,
                        flat,
                        cluster_crossings,
                        temp_kind,
                    });
                },
                None => {},
            },
            None => {},
        }
        k += 1;
    }
    edges
}

/// Edge `e` as the ranking reads it: turned around and marked reversed when
/// ranking upwards, unchanged otherwise.
pub open spec fn oriented_edge(e: DirectedEdge, ranking_type: RankingType) -> DirectedEdge {
    if ranking_type == RankingType::Up {
        DirectedEdge { tail: e.head, head: e.tail, temp_kind: TempEdgeKind::Reversed, ..e }
    } else {
        e
    }
}

/// A copy of `label`.
fn copy_label(label: &Option<String>) -> (copy: Option<String>)
    ensures
        copy == *label,
{
    match label {
        Some(l) => Some(l.clone()),
        None => None,
    }
}

/// The edges as the ranking reads them, in the same order.
pub fn orient_edges(edges: &[DirectedEdge], ranking_type: RankingType) -> (oriented: Vec<DirectedEdge>)
    ensures
        oriented@ == Seq::new(edges@.len(), |k: int| oriented_edge(edges@[k], ranking_type)),
{
    let up = ranking_type == RankingType::Up;
    let mut oriented: Vec<DirectedEdge> = Vec::new();
    let mut k: usize = 0;
    while k < edges.len()
        invariant
            k <= edges@.len(),
            up == (ranking_type == RankingType::Up),
            oriented@ == Seq::new(k as nat, |j: int| oriented_edge(edges@[j], ranking_type)),
        decreases edges.len() - k,
    {
        let e = &edges[k];
        let (tail, head, temp_kind) = if up {
            (e.head, e.tail, TempEdgeKind::Reversed)
        } else {
            (e.tail, e.head, e.temp_kind)
        };
        oriented.push(DirectedEdge {
            index: e.index,
            tail,
            head,
            min_len: e.min_len,
            base_min_len: e.base_min_len,
            weight: e.weight,
            label: copy_label(&e.label),
            original_tail: e.original_tail,
            original_head: e.original_head,
            flat: e.flat,
            cluster_crossings: e.cluster_crossings,
            temp_kind,
        });
        proof {
            assert(oriented@ =~= Seq::new((k + 1) as nat, |j: int| oriented_edge(edges@[j], ranking_type)));
        }
        k += 1;
    }
    oriented
}

/// Some labelled flat edge starts on rank 0.
pub open spec fn label_needs_rank_above(ranks: Seq<i32>, edges: Seq<DirectedEdge>) -> bool {
    exists|k: int|
        0 <= k < edges.len() && (#[trigger] edges[k]).flat && edges[k].label is Some && ranks[edges[k].tail as int] == 0
}

/// When a labelled flat edge starts on rank 0, moves every rank down by one
/// so that its label gets a rank above; otherwise leaves the ranks alone.
pub fn reserve_flat_label_rank(ranks: &mut Vec<i32>, edges: &[DirectedEdge])
    requires
        forall|k: int|
            0 <= k < edges@.len() && (#[trigger] edges@[k]).flat && edges@[k].label is Some ==> edges@[k].tail
                < old(ranks)@.len(),
        forall|v: int| 0 <= v < old(ranks)@.len() ==> #[trigger] old(ranks)@[v] < i32::MAX,
    ensures
        final(ranks)@ == (if label_needs_rank_above(old(ranks)@, edges@) {
            old(ranks)@.map_values(|r: i32| (r + 1) as i32)
        } else {
            old(ranks)@
        }),
{
    let mut needed = false;
    let mut k: usize = 0;
    while k < edges.len() && !needed
        invariant
            k <= edges@.len(),
            forall|j: int|
                0 <= j < edges@.len() && (#[trigger] edges@[j]).flat && edges@[j].label is Some ==> edges@[j].tail
                    < ranks@.len(),
            needed ==> label_needs_rank_above(ranks@, edges@),
            !needed ==> forall|j: int|
                0 <= j < k ==> !((#[trigger] edges@[j]).flat && edges@[j].label is Some && ranks@[edges@[j].tail as int] == 0),
        decreases edges.len() - k,
    {
        let e = &edges[k];
        if e.flat && e.label.is_some() && ranks[e.tail] == 0 {
            needed = true;
            assert(edges@[k as int] == *e);
        }
        k += 1;
    }
    if needed {
        let ghost before = ranks@;
        let mut v: usize = 0;
        while v < ranks.len()
            invariant
                v <= ranks@.len(),
                ranks@.len() == before.len(),
                forall|w: int| 0 <= w < before.len() ==> #[trigger] before[w] < i32::MAX,
                forall|w: int| 0 <= w < v ==> #[trigger] ranks@[w] == before[w] + 1,
                forall|w: int| v <= w < before.len() ==> #[trigger] ranks@[w] == before[w],
            decreases ranks.len() - v,
        {
            let r = ranks[v];
            ranks.set(v, r + 1);
            v += 1;
        }
        proof {
            assert(ranks@ =~= before.map_values(|r: i32| (r + 1) as i32));
        }
    }
}

} // verus!
