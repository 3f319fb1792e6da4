//! The integer half of ordering one connected component: its ranking, the
//! layered graph with dummy chains and label nodes built on those ranks,
//! the first order within each rank, and the order constraints of its flat
//! edges.
use vstd::prelude::*;

use crate::component_graph::component_edges_fit;
use crate::assign::satisfies_edges;
use crate::component_rank::{
    RankedComponent, lengths_positive, no_self_loops,
    component_ranks_spec, edges_shaped, rank_component, rank_component_fits, ranked_edges_spec,
};
use crate::config::RankingType;
use crate::crossings::{LayerNode, LayerNodeKind};
use crate::edges::{DirectedEdge, InputEdge};
use crate::layer_order::{collect_flat_order_constraints, flat_pairs, initialize_layer_orders, initially_sorted, refreshed_all};
use crate::layering::{
    build_layered_graph, law_layered_graph_joins_adjacent_ranks, layer_edge, layers_match, real_node_view,
    segments_adjacent, chains_view, edges_in_range, layered_upto, layering_fits, layers_view, nodes_view, rank_depth,
    rank_top, Layering,
};
use crate::ranking::{max_rank, min_of};

verus! {

/// A component ordered as far as integers take it: the ranked edges, the
/// ranks after the layered graph was built, the layered graph with each
/// rank in its first order, and the order constraints of the flat edges.
pub struct ComponentOrder {
    pub edges: Vec<DirectedEdge>,
    pub ranks: Vec<i32>,
    pub layering: Layering,
    pub flat_constraints: Vec<(usize, usize)>,
}

/// The cluster path of each local node: that of the input node it stands
/// for.
pub open spec fn local_paths(nodes: Seq<usize>, paths: Seq<Vec<usize>>) -> Seq<Vec<usize>> {
    Seq::new(nodes.len(), |l: int| paths[nodes[l] as int])
}

/// Every layer lists layer nodes that exist, and every input node has its
/// layer node.
pub open spec fn layering_complete(
    nodes: Seq<(usize, usize, Option<usize>, Seq<usize>, LayerNodeKind)>,
    layers: Seq<Seq<usize>>,
    n: int,
) -> bool {
    &&& n <= nodes.len()
    &&& forall|r: int, i: int| 0 <= r < layers.len() && 0 <= i < layers[r].len() ==> (#[trigger] layers[r][i]) < nodes.len()
}

/// The smallest rank.
fn lowest_rank(rank: &Vec<i32>) -> (lo: i32)
    requires
        rank@.len() > 0,
    ensures
        lo == min_of(rank@),
{
    let mut lo: i32 = rank[0];
    let mut i: usize = 1;
    while i < rank.len()
        invariant
            1 <= i <= rank@.len(),
            lo == min_of(rank@.subrange(0, i as int)),
        decreases rank.len() - i,
    {
        proof {
            assert(rank@.subrange(0, i + 1).drop_last() =~= rank@.subrange(0, i as int));
        }
        if rank[i] < lo {
            lo = rank[i];
        }
        i = i + 1;
    }
    assert(rank@.subrange(0, rank@.len() as int) =~= rank@);
    lo
}

/// Whether the layered graph can be built without overflow
/// (`layering_fits`).
fn layering_fits_check(ranks: &Vec<i32>, edges: &Vec<DirectedEdge>, paths: &Vec<Vec<usize>>) -> (ok: bool)
    requires
        paths@.len() == ranks@.len(),
        edges_in_range(ranks@.len() as int, edges@),
    ensures
        ok == layering_fits(ranks@, edges@, paths@),
{
    let top = max_rank(ranks.as_slice());
    let depth: u128 = if ranks.len() > 0 {
        let lo = lowest_rank(ranks);
        if lo < 0 {
            (-(lo as i64)) as u128
        } else {
            0
        }
    } else {
        0
    };
    assert(depth == rank_depth(ranks@));
    assert(top == rank_top(ranks@));
    let m = edges.len() as u128;
    let reach: u128 = top as u128 + m + depth + 3;
    if top as u128 + m >= 0x7fff_ffff {
        return false;
    }
    assert(reach <= 0x4_0000_0000);
    assert(m * reach <= 0x8000_0000 * 0x4_0000_0000) by (nonlinear_arith)
        requires
            0 <= m < 0x8000_0000,
            0 <= reach <= 0x4_0000_0000,
    ;
    if ranks.len() as u128 + m * reach > usize::MAX as u128 {
        return false;
    }
    let mut k: usize = 0;
    while k < edges.len()
        invariant
            k <= edges@.len(),
            paths@.len() == ranks@.len(),
            edges_in_range(ranks@.len() as int, edges@),
            reach == rank_top(ranks@) + edges@.len() + rank_depth(ranks@) + 3,
            reach <= 0x4_0000_0000,
            forall|j: int| 0 <= j < k ==> ((#[trigger] edges@[j]).label is Some ==> edges@[j].weight < i32::MAX),
            forall|j: int|
                0 <= j < k ==> reach * (paths@[(#[trigger] edges@[j]).tail as int]@.len() + paths@[edges@[j].head as int]@.len())
                    <= usize::MAX,
        decreases edges.len() - k,
    {
        let e = &edges[k];
        if e.label.is_some() && e.weight == i32::MAX {
            return false;
        }
        let width = paths[e.tail].len() as u128 + paths[e.head].len() as u128;
        proof {
            assert(reach * width <= 0x8_0000_0000_0000_0000_0000_0000) by (nonlinear_arith)
                requires
                    reach <= 0x4_0000_0000,
                    width <= 0x2_0000_0000_0000_0000,
                    0 <= reach,
                    0 <= width,
            ;
        }
        if reach * width > usize::MAX as u128 {
            return false;
        }
        k += 1;
    }
    true
}

/// Whether every layer lists layer nodes that exist and every input node
/// has its layer node.
fn layering_complete_check(layering: &Layering, n: usize) -> (ok: bool)
    ensures
        ok == layering_complete(nodes_view(layering.layer_nodes@), layers_view(layering.layers@), n as int),
{
    assert(nodes_view(layering.layer_nodes@).len() == layering.layer_nodes@.len());
    if n > layering.layer_nodes.len() {
        return false;
    }
    let count = layering.layer_nodes.len();
    let mut r: usize = 0;
    while r < layering.layers.len()
        invariant
            r <= layering.layers@.len(),
            count == layering.layer_nodes@.len(),
            forall|rr: int, i: int|
                0 <= rr < r && 0 <= i < layering.layers@[rr]@.len() ==> (#[trigger] layering.layers@[rr]@[i]) < count,
        decreases layering.layers.len() - r,
    {
        let layer = &layering.layers[r];
        let mut i: usize = 0;
        while i < layer.len()
            invariant
                i <= layer@.len(),
                layer@ == layering.layers@[r as int]@,
                r < layering.layers@.len(),
                count == layering.layer_nodes@.len(),
                forall|rr: int, ii: int|
                    0 <= rr < r && 0 <= ii < layering.layers@[rr]@.len() ==> (#[trigger] layering.layers@[rr]@[ii]) < count,
                forall|ii: int| 0 <= ii < i ==> #[trigger] layer@[ii] < count,
            decreases layer.len() - i,
        {
            if layer[i] >= count {
                assert(layers_view(layering.layers@)[r as int][i as int] == layer@[i as int]);
                return false;
            }
            i += 1;
        }
        r += 1;
    }
    assert(layers_view(layering.layers@).len() == layering.layers@.len());
    assert forall|rr: int, i: int|
        0 <= rr < layers_view(layering.layers@).len() && 0 <= i < layers_view(layering.layers@)[rr].len() implies (#[trigger] layers_view(
        layering.layers@,
    )[rr][i]) < nodes_view(layering.layer_nodes@).len() by {
        assert(layers_view(layering.layers@)[rr] == layering.layers@[rr]@);
    }
    true
}

proof fn lemma_refreshed_all_len(layers: Seq<Vec<usize>>, nodes: Seq<LayerNode>)
    ensures
        refreshed_all(layers, nodes).len() == nodes.len(),
    decreases layers.len(),
{
    if layers.len() > 0 {
        lemma_refreshed_all_len(layers.drop_last(), nodes);
    }
}

proof fn lemma_layered_paths_agree(
    ranks: Seq<i32>,
    edges: Seq<DirectedEdge>,
    p1: Seq<Vec<usize>>,
    p2: Seq<Vec<usize>>,
    k: int,
)
    requires
        0 <= k <= edges.len(),
        p1.len() == ranks.len(),
        p2.len() == ranks.len(),
        forall|l: int| 0 <= l < ranks.len() ==> (#[trigger] p1[l])@ == p2[l]@,
        edges_in_range(ranks.len() as int, edges),
    ensures
        layered_upto(ranks, edges, p1, k) == layered_upto(ranks, edges, p2, k),
    decreases k,
{
    if k <= 0 {
        assert(Seq::new(ranks.len(), |l: int| real_node_view(ranks, p1, l)) =~= Seq::new(
            ranks.len(),
            |l: int| real_node_view(ranks, p2, l),
        ));
    } else {
        lemma_layered_paths_agree(ranks, edges, p1, p2, k - 1);
        let e = edges[k - 1];
        assert(p1[e.tail as int]@ == p2[e.tail as int]@);
        assert(p1[e.head as int]@ == p2[e.head as int]@);
        let st = layered_upto(ranks, edges, p1, k - 1);
        assert(layer_edge(st, e, p1) == layer_edge(st, e, p2));
    }
}

/// The layered graph of a component built on its ranks and ranked edges.
pub open spec fn component_layered_spec(
    nodes: Seq<usize>,
    edges: Seq<InputEdge>,
    paths: Seq<Vec<usize>>,
    ranking_type: RankingType,
) -> (Seq<(usize, usize, Option<usize>, Seq<usize>, LayerNodeKind)>, Seq<Seq<usize>>, Seq<crate::edges::SegmentEdge>, Map<usize, Seq<usize>>, Seq<i32>) {
    let oriented = ranked_edges_spec(nodes, edges, paths, ranking_type);
    layered_upto(
        component_ranks_spec(nodes, edges, paths, ranking_type),
        oriented,
        local_paths(nodes, paths),
        oriented.len() as int,
    )
}

/// `order_component` runs within its arithmetic: the ranking fits
/// (`rank_component_fits`), the layered graph can be built
/// (`layering_fits`), and the graph built is complete
/// (`layering_complete`).
pub open spec fn order_component_fits(
    nodes: Seq<usize>,
    edges: Seq<InputEdge>,
    paths: Seq<Vec<usize>>,
    ranking_type: RankingType,
) -> bool {
    let built = component_layered_spec(nodes, edges, paths, ranking_type);
    &&& rank_component_fits(nodes, edges, paths, ranking_type)
    &&& layering_fits(
        component_ranks_spec(nodes, edges, paths, ranking_type),
        ranked_edges_spec(nodes, edges, paths, ranking_type),
        local_paths(nodes, paths),
    )
    &&& layering_complete(built.0, built.1, nodes.len() as int)
}

/// Orders one connected component as far as integers take it: ranks it
/// (`rank_component`), builds the layered graph on those ranks with the
/// cluster path of each node, sorts each rank into its first order, and
/// collects the order constraints of the flat edges. None when the ranking
/// or the layered graph would leave the range their arithmetic works in.
///
/// Without self-loops, building the layered graph raises no rank, every
/// layer holds only nodes of its rank, and every segment that is not flat
/// joins a node to a node on the next rank.
pub fn order_component(
    component_nodes: &[usize],
    component_edges: &[InputEdge],
    node_cluster_paths: &[Vec<usize>],
    ranking_type: RankingType,
) -> (res: Option<ComponentOrder>)
    requires
        component_edges_fit(component_nodes@, component_edges@, node_cluster_paths@),
        ranking_type != RankingType::Hybrid,
        forall|l: int| 0 <= l < component_nodes@.len() ==> #[trigger] component_nodes@[l] < node_cluster_paths@.len(),
    ensures
        (res is Some) == order_component_fits(component_nodes@, component_edges@, node_cluster_paths@, ranking_type),
        res is Some ==> ({
            let r = res->0;
            let built = component_layered_spec(component_nodes@, component_edges@, node_cluster_paths@, ranking_type);
            &&& r.edges@ == ranked_edges_spec(component_nodes@, component_edges@, node_cluster_paths@, ranking_type)
            &&& r.ranks@ == built.4
            &&& r.layering.segment_edges@ == built.2
            &&& chains_view(r.layering.chains@) == built.3
            &&& r.layering.real_layer_node@ == Seq::new(component_nodes@.len(), |l: int| l as usize)
            &&& r.layering.layers@.len() == built.1.len()
            &&& exists|start: Seq<LayerNode>|
                {
                    &&& nodes_view(start) == built.0
                    &&& r.layering.layer_nodes@ == refreshed_all(r.layering.layers@, start)
                    &&& forall|k: int|
                        0 <= k < built.1.len() ==> (#[trigger] r.layering.layers@[k])@.to_multiset() == built.1[k].to_multiset()
                            && initially_sorted(r.layering.layers@[k]@, start)
                }
            &&& r.flat_constraints@ == flat_pairs(r.edges@, r.layering.real_layer_node@, r.layering.layer_nodes@)
        }),
        res is Some && no_self_loops(component_nodes@, component_edges@, node_cluster_paths@) ==> ({
            let built = component_layered_spec(component_nodes@, component_edges@, node_cluster_paths@, ranking_type);
            &&& built.4 == component_ranks_spec(component_nodes@, component_edges@, node_cluster_paths@, ranking_type)
            &&& layers_match(built.0, built.1)
            &&& segments_adjacent(built.0, built.2)
        }),
{
    let n = component_nodes.len();
    let ranked = match rank_component(component_nodes, component_edges, node_cluster_paths, ranking_type) {
        Some(r) => r,
        None => {
            return None;
        },
    };
    let RankedComponent { edges, ranks } = ranked;
    let mut ranks = ranks;
    let mut paths: Vec<Vec<usize>> = Vec::new();
    let mut l: usize = 0;
    while l < n
        invariant
            l <= n,
            n == component_nodes@.len(),
            paths@.len() == l,
            forall|j: int| 0 <= j < component_nodes@.len() ==> #[trigger] component_nodes@[j] < node_cluster_paths@.len(),
            forall|j: int| 0 <= j < l ==> (#[trigger] paths@[j])@ == local_paths(component_nodes@, node_cluster_paths@)[j]@,
        decreases n - l,
    {
        paths.push(node_cluster_paths[component_nodes[l]].clone());
        l += 1;
    }
    let ghost lp = local_paths(component_nodes@, node_cluster_paths@);
    proof {
        assert(edges_in_range(n as int, edges@)) by {
            assert(edges_shaped(edges@, n as int));
        }
    }
    if !layering_fits_check(&ranks, &edges, &paths) {
        return None;
    }
    let ghost start_ranks = ranks@;
    proof {
        if no_self_loops(component_nodes@, component_edges@, node_cluster_paths@) {
            assert(satisfies_edges(start_ranks, edges@));
            assert(lengths_positive(edges@));
            assert forall|k: int| 0 <= k < edges@.len() && !(#[trigger] edges@[k]).flat implies start_ranks[edges@[k].head as int]
                >= start_ranks[edges@[k].tail as int] + 1 by {
                assert(start_ranks[edges@[k].head as int] >= start_ranks[edges@[k].tail as int] + edges@[k].min_len);
            }
            assert(layering_fits(start_ranks, edges@, lp));
            law_layered_graph_joins_adjacent_ranks(start_ranks, edges@, lp);
        }
    }
    let mut layering = build_layered_graph(&mut ranks, edges.as_slice(), paths.as_slice());
    proof {
        lemma_layered_paths_agree(start_ranks, edges@, paths@, lp, edges@.len() as int);
    }
    if !layering_complete_check(&layering, n) {
        return None;
    }
    let ghost start = layering.layer_nodes@;
    let ghost built_layers = layering.layers@;
    proof {
        assert forall|r: int, i: int| 0 <= r < built_layers.len() && 0 <= i < built_layers[r]@.len() implies (#[trigger] built_layers[r]@[i])
            < start.len() by {
            assert(layers_view(built_layers)[r] == built_layers[r]@);
        }
    }
    let ghost identity = layering.real_layer_node@;
    initialize_layer_orders(layering.layers.as_mut_slice(), layering.layer_nodes.as_mut_slice());
    proof {
        lemma_refreshed_all_len(layering.layers@, start);
        assert(nodes_view(start).len() == start.len());
        assert(layering.real_layer_node@ == identity);
        assert forall|e: int|
            0 <= e < edges@.len() && (#[trigger] edges@[e]).flat implies edges@[e].tail < layering.real_layer_node@.len()
                && edges@[e].head < layering.real_layer_node@.len() && layering.real_layer_node@[edges@[e].tail as int]
                < layering.layer_nodes@.len() && layering.real_layer_node@[edges@[e].head as int] < layering.layer_nodes@.len() by {
            assert(edges_shaped(edges@, n as int));
        }
    }
    let flat_constraints = collect_flat_order_constraints(
        edges.as_slice(),
        layering.real_layer_node.as_slice(),
        layering.layer_nodes.as_slice(),
    );
    proof {
        assert forall|k: int| 0 <= k < built_layers.len() implies (#[trigger] layering.layers@[k])@.to_multiset()
            == layers_view(built_layers)[k].to_multiset() && initially_sorted(layering.layers@[k]@, start) by {
            assert(layers_view(built_layers)[k] == built_layers[k]@);
        }
    }
    Some(ComponentOrder { edges, ranks, layering, flat_constraints })
}

} // verus!
