//! The ranking half of laying out one connected component: its edges
//! between local node indices with their cluster penalties, back edges
//! reversed so that no cycle is left, the orientation the ranking type asks
//! for, the ranks, shifted so that none is negative, and the extra top rank
//! that a labelled flat edge on rank zero needs.
use vstd::prelude::*;

use crate::acyclic::{acyclic_below, break_cycles_acyclic, break_cycles_spec, edges_well_formed, reversed_edge};
use crate::assign::{
    assign_fits, assign_spec, endpoints_in_range, grows_along_edges, layerable, satisfies_edges, try_assign_ranks,
};
use crate::component_graph::{
    build_component_edges, component_edge, component_edges_fit, component_edges_upto, label_needs_rank_above,
    local_of, orient_edges, oriented_edge, reserve_flat_label_rank,
};
use crate::config::RankingType;
use crate::edges::{DirectedEdge, InputEdge};
use crate::ranking::{lemma_max_min_of, max_of, min_of, normalize_ranks};

verus! {

/// The edges of a component as its ranking reads them: local node indices
/// and cluster penalties, back edges reversed so that no cycle is left,
/// then oriented for `ranking_type`.
pub open spec fn ranked_edges_spec(
    nodes: Seq<usize>,
    edges: Seq<InputEdge>,
    paths: Seq<Vec<usize>>,
    ranking_type: RankingType,
) -> Seq<DirectedEdge> {
    let local = component_edges_upto(nodes, edges, paths, edges.len() as int);
    let acyclic = break_cycles_spec(nodes.len() as int, local);
    Seq::new(acyclic.len(), |k: int| oriented_edge(acyclic[k], ranking_type))
}

/// `rank` shifted up so that the smallest rank is zero, when some rank is
/// negative.
pub open spec fn normalized(rank: Seq<i32>) -> Seq<i32> {
    if rank.len() == 0 || min_of(rank) >= 0 {
        rank
    } else {
        Seq::new(rank.len(), |i: int| (rank[i] - min_of(rank)) as i32)
    }
}

/// The ranks of a component: those `assign_spec` gives its ranked edges,
/// shifted so that none is negative, and moved one rank down when a
/// labelled flat edge starts on rank zero.
pub open spec fn component_ranks_spec(
    nodes: Seq<usize>,
    edges: Seq<InputEdge>,
    paths: Seq<Vec<usize>>,
    ranking_type: RankingType,
) -> Seq<i32> {
    let oriented = ranked_edges_spec(nodes, edges, paths, ranking_type);
    let r = normalized(assign_spec(nodes.len() as int, oriented, ranking_type));
    if label_needs_rank_above(r, oriented) {
        r.map_values(|x: i32| (x + 1) as i32)
    } else {
        r
    }
}

/// The ranking of the component runs within `i32`: `assign_fits` holds of
/// its ranked edges, and the ranks it gives, shifted so that none is
/// negative, stay below `i32::MAX`, so that one more rank fits above them.
pub open spec fn rank_component_fits(
    nodes: Seq<usize>,
    edges: Seq<InputEdge>,
    paths: Seq<Vec<usize>>,
    ranking_type: RankingType,
) -> bool {
    let oriented = ranked_edges_spec(nodes, edges, paths, ranking_type);
    let r = assign_spec(nodes.len() as int, oriented, ranking_type);
    &&& assign_fits(nodes.len() as int, oriented, ranking_type)
    &&& (r.len() == 0 || max_of(r) - low_end(r) < i32::MAX)
}

/// The smallest rank when it is negative, else zero.
pub open spec fn low_end(rank: Seq<i32>) -> int {
    if min_of(rank) < 0 {
        min_of(rank)
    } else {
        0
    }
}

/// No edge of the component is a loop on one node.
pub open spec fn no_self_loops(nodes: Seq<usize>, edges: Seq<InputEdge>, paths: Seq<Vec<usize>>) -> bool {
    let local = component_edges_upto(nodes, edges, paths, edges.len() as int);
    forall|k: int| 0 <= k < local.len() ==> !(#[trigger] local[k]).flat
}

/// Both ends lie among the `n` nodes, and an edge is flat exactly when it
/// is a loop.
pub open spec fn edges_shaped(edges: Seq<DirectedEdge>, n: int) -> bool {
    forall|k: int|
        0 <= k < edges.len() ==> (#[trigger] edges[k]).tail < n && edges[k].head < n && (edges[k].flat <==> edges[k].tail
            == edges[k].head)
}

/// Every edge that is not flat asks for a rank gap of at least one.
pub open spec fn lengths_positive(edges: Seq<DirectedEdge>) -> bool {
    forall|k: int| 0 <= k < edges.len() && !(#[trigger] edges[k]).flat ==> edges[k].min_len >= 1
}

proof fn lemma_component_lengths(nodes: Seq<usize>, edges: Seq<InputEdge>, paths: Seq<Vec<usize>>, k: int)
    requires
        0 <= k <= edges.len(),
        component_edges_fit(nodes, edges, paths),
    ensures
        lengths_positive(component_edges_upto(nodes, edges, paths, k)),
    decreases k,
{
    if k > 0 {
        lemma_component_lengths(nodes, edges, paths, k - 1);
        let e = edges[k - 1];
        let prev = component_edges_upto(nodes, edges, paths, k - 1);
        if let Some(d) = component_edge(e, nodes, paths) {
            let tp = paths[e.tail as int]@;
            let hp = paths[e.head as int]@;
            crate::cluster_paths::lemma_common_prefix_len(tp, hp);
            assert(edges[k - 1] == e);
            assert(0 <= crate::cluster_paths::crossings_spec(tp, hp) <= 0x3fff_fffe);
            assert forall|j: int| 0 <= j < prev.push(d).len() && !(#[trigger] prev.push(d)[j]).flat implies prev.push(d)[j].min_len
                >= 1 by {
                if j < prev.len() {
                    assert(prev.push(d)[j] == prev[j]);
                }
            }
        }
    }
}

proof fn lemma_local_of(nodes: Seq<usize>, g: usize)
    requires
        nodes.len() <= usize::MAX,
    ensures
        local_of(nodes, g) is Some ==> local_of(nodes, g)->0 < nodes.len() && nodes[local_of(nodes, g)->0 as int] == g,
    decreases nodes.len(),
{
    if nodes.len() > 0 {
        if nodes.last() != g {
            lemma_local_of(nodes.drop_last(), g);
            if local_of(nodes, g) is Some {
                assert(nodes.drop_last()[local_of(nodes, g)->0 as int] == nodes[local_of(nodes, g)->0 as int]);
            }
        } else {
            assert(nodes[nodes.len() - 1] == g);
        }
    }
}

proof fn lemma_component_edges_shaped(nodes: Seq<usize>, edges: Seq<InputEdge>, paths: Seq<Vec<usize>>, k: int)
    requires
        0 <= k <= edges.len(),
        nodes.len() <= usize::MAX,
    ensures
        edges_shaped(component_edges_upto(nodes, edges, paths, k), nodes.len() as int),
    decreases k,
{
    if k > 0 {
        lemma_component_edges_shaped(nodes, edges, paths, k - 1);
        let e = edges[k - 1];
        lemma_local_of(nodes, e.tail);
        lemma_local_of(nodes, e.head);
        let prev = component_edges_upto(nodes, edges, paths, k - 1);
        if let Some(d) = component_edge(e, nodes, paths) {
            assert forall|j: int| 0 <= j < prev.push(d).len() implies (#[trigger] prev.push(d)[j]).tail < nodes.len()
                && prev.push(d)[j].head < nodes.len() && (prev.push(d)[j].flat <==> prev.push(d)[j].tail
                == prev.push(d)[j].head) by {
                if j < prev.len() {
                    assert(prev.push(d)[j] == prev[j]);
                }
            }
        }
    }
}

proof fn lemma_oriented_layerable(acyclic: Seq<DirectedEdge>, n: int, ranking_type: RankingType)
    requires
        edges_shaped(acyclic, n),
        forall|k: int| 0 <= k < acyclic.len() ==> !(#[trigger] acyclic[k]).flat,
        n > 1 ==> acyclic_below(acyclic, n),
        n >= 0,
    ensures
        layerable(Seq::new(acyclic.len(), |k: int| oriented_edge(acyclic[k], ranking_type)), n),
{
    let oriented = Seq::new(acyclic.len(), |k: int| oriented_edge(acyclic[k], ranking_type));
    if n > 1 {
        let f = choose|f: Seq<int>| f.len() == n && crate::acyclic::ordered_by(acyclic, n, f);
        let g = if ranking_type == RankingType::Up {
            f
        } else {
            Seq::new(n as nat, |i: int| -f[i])
        };
        assert forall|e: int| 0 <= e < oriented.len() implies g[(#[trigger] oriented[e]).tail as int] < g[oriented[e].head as int] by {
            assert(!acyclic[e].flat);
        }
        assert(grows_along_edges(g, oriented, n));
    } else {
        assert(oriented.len() == 0) by {
            if oriented.len() > 0 {
                assert(!acyclic[0].flat);
            }
        }
        assert(grows_along_edges(Seq::new(n as nat, |i: int| 0int), oriented, n));
    }
}

/// A ranked component: the edges as its ranking read them, and the rank of
/// each local node.
pub struct RankedComponent {
    pub edges: Vec<DirectedEdge>,
    pub ranks: Vec<i32>,
}

/// Whether the ranks, shifted so that none is negative, stay below
/// `i32::MAX`.
fn span_below_limit(rank: &Vec<i32>) -> (ok: bool)
    ensures
        ok == (rank@.len() == 0 || max_of(rank@) - low_end(rank@) < i32::MAX),
{
    if rank.len() == 0 {
        return true;
    }
    let mut hi: i32 = rank[0];
    let mut lo: i32 = rank[0];
    let mut i: usize = 1;
    while i < rank.len()
        invariant
            1 <= i <= rank@.len(),
            hi == max_of(rank@.subrange(0, i as int)),
            lo == min_of(rank@.subrange(0, i as int)),
        decreases rank.len() - i,
    {
        proof {
            assert(rank@.subrange(0, i + 1).drop_last() =~= rank@.subrange(0, i as int));
        }
        if rank[i] > hi {
            hi = rank[i];
        }
        if rank[i] < lo {
            lo = rank[i];
        }
        i = i + 1;
    }
    assert(rank@.subrange(0, rank@.len() as int) =~= rank@);
    let low: i64 = if lo < 0 {
        lo as i64
    } else {
        0
    };
    (hi as i64) - low < 0x7fff_ffff
}

/// Ranks one connected component: builds its edges between local node
/// indices with their cluster penalties, reverses back edges so that no
/// cycle is left, orients them for `ranking_type`, assigns ranks, shifts
/// them so that none is negative, and moves every rank down by one when a
/// labelled flat edge starts on rank zero. Answers the ranked edges and the
/// ranks, or none when the ranking would leave the range its `i32`
/// arithmetic works in.
///
/// Without self-loops, every ranked edge ends at least its minimum length
/// above where it starts.
pub fn rank_component(
    component_nodes: &[usize],
    component_edges: &[InputEdge],
    node_cluster_paths: &[Vec<usize>],
    ranking_type: RankingType,
) -> (res: Option<RankedComponent>)
    requires
        component_edges_fit(component_nodes@, component_edges@, node_cluster_paths@),
        ranking_type != RankingType::Hybrid,
    ensures
        (res is Some) == rank_component_fits(component_nodes@, component_edges@, node_cluster_paths@, ranking_type),
        res is Some ==> res->0.edges@ == ranked_edges_spec(
            component_nodes@,
            component_edges@,
            node_cluster_paths@,
            ranking_type,
        ) && res->0.ranks@ == component_ranks_spec(component_nodes@, component_edges@, node_cluster_paths@, ranking_type),
        res is Some && no_self_loops(component_nodes@, component_edges@, node_cluster_paths@) ==> satisfies_edges(
            res->0.ranks@,
            res->0.edges@,
        ),
        res is Some ==> res->0.ranks@.len() == component_nodes@.len(),
        res is Some ==> edges_shaped(res->0.edges@, component_nodes@.len() as int),
        res is Some ==> lengths_positive(res->0.edges@),
        res is Some ==> forall|v: int| 0 <= v < res->0.ranks@.len() ==> #[trigger] res->0.ranks@[v] >= 0,
{
    let n = component_nodes.len();
    let mut local = build_component_edges(component_nodes, component_edges, node_cluster_paths);
    let ghost local0 = local@;
    proof {
        lemma_component_edges_shaped(component_nodes@, component_edges@, node_cluster_paths@, component_edges@.len() as int);
        lemma_component_lengths(component_nodes@, component_edges@, node_cluster_paths@, component_edges@.len() as int);
    }
    break_cycles_acyclic(n, local.as_mut_slice());
    let ghost acyclic = local@;
    proof {
        assert forall|k: int| 0 <= k < acyclic.len() implies (#[trigger] acyclic[k]).tail < n && acyclic[k].head < n
            && (acyclic[k].flat <==> acyclic[k].tail == acyclic[k].head) by {
            if acyclic[k] != local0[k] {
                assert(acyclic[k] == reversed_edge(local0[k]));
            }
        }
        assert forall|k: int| 0 <= k < acyclic.len() && !(#[trigger] acyclic[k]).flat implies acyclic[k].min_len >= 1 by {
            if acyclic[k] != local0[k] {
                assert(acyclic[k] == reversed_edge(local0[k]));
            }
        }
    }
    let oriented = orient_edges(&local, ranking_type);
    proof {
        assert(oriented@ =~= ranked_edges_spec(component_nodes@, component_edges@, node_cluster_paths@, ranking_type));
        assert(edges_shaped(oriented@, n as int));
    }
    let assigned = try_assign_ranks(n, &oriented, ranking_type);
    let mut rank = match assigned {
        Some(r) => r,
        None => {
            return None;
        },
    };
    let ghost r0 = rank@;
    if !span_below_limit(&rank) {
        return None;
    }
    proof {
        if r0.len() > 0 {
            lemma_max_min_of(r0);
        }
    }
    normalize_ranks(rank.as_mut_slice());
    let ghost r1 = rank@;
    proof {
        assert(r1 =~= normalized(r0));
        assert forall|v: int| 0 <= v < r1.len() implies 0 <= #[trigger] r1[v] < i32::MAX by {
            assert(r0[v] <= max_of(r0));
            assert(min_of(r0) <= r0[v]);
        }
    }
    reserve_flat_label_rank(&mut rank, &oriented);
    proof {
        if no_self_loops(component_nodes@, component_edges@, node_cluster_paths@) {
            assert forall|k: int| 0 <= k < acyclic.len() implies !(#[trigger] acyclic[k]).flat by {
                if acyclic[k] != local0[k] {
                    assert(acyclic[k] == reversed_edge(local0[k]));
                }
                assert(!local0[k].flat);
            }
            lemma_oriented_layerable(acyclic, n as int, ranking_type);
            assert(!label_needs_rank_above(r1, oriented@));
            assert(satisfies_edges(r0, oriented@));
            if r0.len() > 0 && min_of(r0) < 0 {
                assert forall|e: int| 0 <= e < oriented@.len() implies rank@[(#[trigger] oriented@[e]).head as int]
                    >= rank@[oriented@[e].tail as int] + oriented@[e].min_len by {
                    assert(r0[oriented@[e].head as int] >= r0[oriented@[e].tail as int] + oriented@[e].min_len);
                }
            }
        }
    }
    Some(RankedComponent { edges: oriented, ranks: rank })
}

} // verus!
