//! Rank assignment for every ranking type that needs no blending: the
//! passes of the ranking module run in the order each type asks for.
use vstd::prelude::*;

use crate::config::RankingType;
use crate::edges::DirectedEdge;
use crate::ranking::{
    relaxed_upto, adjacency_in_range, len_cap, lemma_len_cap, lemma_max_min_of, max_of, out_edge, relax_forward,
    relaxed_edges_feasible, topo_respects,
};
use crate::simplex::{
    balance_spec, compact_spec, refine_spec, abs_within, balance_rank_band, balance_sources, compact_passes, compact_ranks, degree_cap,
    degrees_within, is_listed_head, len_abs_cap, lemma_degree_cap, lemma_len_abs_cap,
    lemma_relax_fits, lemma_sources_min, lemma_weight_abs_cap, lists_in_range, max_abs,
    network_simplex_refine, refine_checked, compact_checked, ranks_within, refine_stays_within,
    compact_stays_within, pin_sources, refinement_settled, shifted_pinned,
    sources_min, sources_pinned, weight_abs_cap,
};
use crate::list_agree::{
    lemma_compact_within_agree, lemma_refine_within_agree, lemma_balance_agree, lemma_compact_agree, lemma_refine_agree, lemma_relaxed_agree, lists_agree,
    nodes_below,
};
use crate::topo::{
    topo_spec, is_node_permutation, kahn_prefix_ordered, kahn_split, law_topo_order_is_topological_when_acyclic,
    lemma_distinct_bounded, non_flat_in_range, topo_order,
};

verus! {

/// Both ends of every edge are nodes below `n`.
pub open spec fn endpoints_in_range(edges: Seq<DirectedEdge>, n: int) -> bool {
    forall|e: int| 0 <= e < edges.len() ==> (#[trigger] edges[e]).tail < n && edges[e].head < n
}

/// `outgoing[v]` lists, in increasing order, exactly the edges that leave
/// node `v`, and `incoming[v]` exactly those that enter it.
pub open spec fn edge_lists_exact(
    n: int,
    edges: Seq<DirectedEdge>,
    outgoing: Seq<Vec<usize>>,
    incoming: Seq<Vec<usize>>,
) -> bool {
    &&& outgoing.len() == n
    &&& incoming.len() == n
    &&& forall|v: int, k: int|
        0 <= v < n && 0 <= k < outgoing[v]@.len() ==> (#[trigger] outgoing[v]@[k]) < edges.len()
            && edges[outgoing[v]@[k] as int].tail == v
    &&& forall|v: int, k: int|
        0 <= v < n && 0 <= k < incoming[v]@.len() ==> (#[trigger] incoming[v]@[k]) < edges.len()
            && edges[incoming[v]@[k] as int].head == v
    &&& forall|v: int, a: int, b: int|
        0 <= v < n && 0 <= a < b < outgoing[v]@.len() ==> #[trigger] outgoing[v]@[a]
            < #[trigger] outgoing[v]@[b]
    &&& forall|v: int, a: int, b: int|
        0 <= v < n && 0 <= a < b < incoming[v]@.len() ==> #[trigger] incoming[v]@[a]
            < #[trigger] incoming[v]@[b]
    &&& forall|e: int|
        0 <= e < edges.len() ==> outgoing[(#[trigger] edges[e]).tail as int]@.contains(e as usize)
            && incoming[edges[e].head as int]@.contains(e as usize)
}

/// No edge enters node `v`.
pub open spec fn has_no_in_edge(edges: Seq<DirectedEdge>, v: int) -> bool {
    forall|e: int| 0 <= e < edges.len() ==> (#[trigger] edges[e]).head != v
}

/// No edge leaves node `v`.
pub open spec fn has_no_out_edge(edges: Seq<DirectedEdge>, v: int) -> bool {
    forall|e: int| 0 <= e < edges.len() ==> (#[trigger] edges[e]).tail != v
}

/// Every edge is satisfied: its head is ranked at least its minimum length
/// above its tail.
pub open spec fn satisfies_edges(rank: Seq<i32>, edges: Seq<DirectedEdge>) -> bool {
    forall|e: int|
        0 <= e < edges.len() ==> rank[(#[trigger] edges[e]).head as int] >= rank[edges[e].tail as int]
            + edges[e].min_len
}

/// `f` gives the `n` nodes values that strictly grow along every edge.
pub open spec fn grows_along_edges(f: Seq<int>, edges: Seq<DirectedEdge>, n: int) -> bool {
    &&& f.len() == n
    &&& forall|e: int|
        0 <= e < edges.len() ==> f[(#[trigger] edges[e]).tail as int] < f[edges[e].head as int]
}

/// The edges can be laid out in layers: none is flat and they form no
/// cycle (some value strictly grows along every edge).
pub open spec fn layerable(edges: Seq<DirectedEdge>, n: int) -> bool {
    &&& forall|e: int| 0 <= e < edges.len() ==> !(#[trigger] edges[e]).flat
    &&& exists|f: Seq<int>| #[trigger] grows_along_edges(f, edges, n)
}

/// Indices of the edges among the first `m` that leave `v`, in order.
pub open spec fn out_edge_ids(edges: Seq<DirectedEdge>, v: usize, m: int) -> Seq<usize>
    decreases m,
{
    if m <= 0 {
        Seq::empty()
    } else if edges[m - 1].tail == v {
        out_edge_ids(edges, v, m - 1).push((m - 1) as usize)
    } else {
        out_edge_ids(edges, v, m - 1)
    }
}

/// Indices of the edges among the first `m` that enter `v`, in order.
pub open spec fn in_edge_ids(edges: Seq<DirectedEdge>, v: usize, m: int) -> Seq<usize>
    decreases m,
{
    if m <= 0 {
        Seq::empty()
    } else if edges[m - 1].head == v {
        in_edge_ids(edges, v, m - 1).push((m - 1) as usize)
    } else {
        in_edge_ids(edges, v, m - 1)
    }
}

/// `lists` holds, for each node below `n`, the indices of the edges that
/// enter it (`entering`) or leave it, in order.
pub open spec fn lists_of(n: int, edges: Seq<DirectedEdge>, lists: Seq<Vec<usize>>, entering: bool) -> bool {
    &&& lists.len() == n
    &&& forall|v: int|
        0 <= v < n ==> (#[trigger] lists[v])@ == (if entering {
            in_edge_ids(edges, v as usize, edges.len() as int)
        } else {
            out_edge_ids(edges, v as usize, edges.len() as int)
        })
}

/// The outgoing edge lists of the nodes below `n`.
pub open spec fn out_lists(n: int, edges: Seq<DirectedEdge>) -> Seq<Vec<usize>> {
    choose|o: Seq<Vec<usize>>| lists_of(n, edges, o, false)
}

/// The incoming edge lists of the nodes below `n`.
pub open spec fn in_lists(n: int, edges: Seq<DirectedEdge>) -> Seq<Vec<usize>> {
    choose|i: Seq<Vec<usize>>| lists_of(n, edges, i, true)
}

/// The nodes below `v` whose list is empty, in increasing order.
pub open spec fn empty_list_nodes(lists: Seq<Vec<usize>>, v: int) -> Seq<usize>
    decreases v,
{
    if v <= 0 {
        Seq::empty()
    } else {
        let r = empty_list_nodes(lists, v - 1);
        if lists[v - 1]@.len() == 0 {
            r.push((v - 1) as usize)
        } else {
            r
        }
    }
}

/// `n` ranks where the node at position `p < k` of `topo` has rank `p` and
/// every other node rank zero.
pub open spec fn position_ranks(topo: Seq<usize>, n: int, k: int) -> Seq<i32>
    decreases k,
{
    if k <= 0 {
        Seq::new(n as nat, |v: int| 0i32)
    } else {
        position_ranks(topo, n, k - 1).update(topo[k - 1] as int, (k - 1) as i32)
    }
}

/// The highest rank among the listed sinks, or zero when none is listed.
pub open spec fn sinks_max(rank: Seq<i32>, sinks: Seq<usize>) -> int
    decreases sinks.len(),
{
    if sinks.len() == 0 {
        0
    } else if sinks.len() == 1 {
        rank[sinks[0] as int] as int
    } else {
        let m = sinks_max(rank, sinks.drop_last());
        let x = rank[sinks.last() as int] as int;
        if x > m {
            x
        } else {
            m
        }
    }
}

/// `rank` with every listed sink at the highest rank among them.
pub open spec fn leveled(rank: Seq<i32>, sinks: Seq<usize>) -> Seq<i32> {
    Seq::new(rank.len(), |v: int| if sinks.contains(v as usize) { sinks_max(rank, sinks) as i32 } else { rank[v] })
}

/// Zero ranks with the sources at zero, relaxed forward, then moved so that
/// the lowest source sits at zero (when it is not there yet), the sources
/// put at zero and relaxed forward again.
pub open spec fn start_ranks(
    n: int,
    topo: Seq<usize>,
    sources: Seq<usize>,
    outgoing: Seq<Vec<usize>>,
    edges: Seq<DirectedEdge>,
) -> Seq<i32> {
    let zeros = Seq::new(n as nat, |v: int| 0i32);
    let r = relaxed_upto(crate::simplex::pinned_at_zero(zeros, sources), topo, outgoing, edges, topo.len() as int);
    if sources.len() == 0 || sources_min(r, sources) == 0 {
        r
    } else {
        relaxed_upto(shifted_pinned(r, sources, sources_min(r, sources)), topo, outgoing, edges, topo.len() as int)
    }
}

/// `refine_spec` for `MinimizeEdgeLength`, `compact_spec` for the other
/// types.
pub open spec fn refined_ranks(
    start: Seq<i32>,
    ranking_type: RankingType,
    topo: Seq<usize>,
    sources: Seq<usize>,
    sinks: Seq<usize>,
    incoming: Seq<Vec<usize>>,
    outgoing: Seq<Vec<usize>>,
    edges: Seq<DirectedEdge>,
) -> Seq<i32> {
    if ranking_type == RankingType::MinimizeEdgeLength {
        refine_spec(start, topo, sources, edges, incoming, outgoing)
    } else {
        compact_spec(start, topo, sources, sinks, edges, outgoing)
    }
}

/// The passes after the start for a ranking type other than `Original`:
/// `refine_spec` for `MinimizeEdgeLength`, `compact_spec` for the others,
/// then `balance_spec`, under `Up` and `Down` the sinks levelled, and a last
/// forward relaxation.
pub open spec fn finish_ranks(
    start: Seq<i32>,
    ranking_type: RankingType,
    topo: Seq<usize>,
    sources: Seq<usize>,
    sinks: Seq<usize>,
    incoming: Seq<Vec<usize>>,
    outgoing: Seq<Vec<usize>>,
    edges: Seq<DirectedEdge>,
) -> Seq<i32> {
    let refined = refined_ranks(start, ranking_type, topo, sources, sinks, incoming, outgoing, edges);
    let balanced = balance_spec(refined, topo, sources, incoming, outgoing, edges);
    let level = if (ranking_type == RankingType::Up || ranking_type == RankingType::Down) && sinks.len() > 0 {
        leveled(balanced, sinks)
    } else {
        balanced
    };
    relaxed_upto(level, topo, outgoing, edges, topo.len() as int)
}

/// What `assign_ranks` returns for `n` nodes, `edges` and `ranking_type`.
/// `Original`: each node ranked by its position in `topo_spec`, then all
/// edges relaxed forward. The other types: `start_ranks` from the nodes
/// without incoming edges, then `finish_ranks`.
pub open spec fn assign_spec(n: int, edges: Seq<DirectedEdge>, ranking_type: RankingType) -> Seq<i32> {
    if n <= 0 {
        Seq::empty()
    } else {
        let topo = topo_spec(n, edges);
        let outgoing = out_lists(n, edges);
        let incoming = in_lists(n, edges);
        if ranking_type == RankingType::Original {
            relaxed_upto(position_ranks(topo, n, topo.len() as int), topo, outgoing, edges, topo.len() as int)
        } else {
            let sources = empty_list_nodes(incoming, n);
            let sinks = empty_list_nodes(outgoing, n);
            finish_ranks(start_ranks(n, topo, sources, outgoing, edges), ranking_type, topo, sources, sinks, incoming, outgoing, edges)
        }
    }
}

proof fn lemma_empty_list_nodes_agree(a: Seq<Vec<usize>>, b: Seq<Vec<usize>>, v: int)
    requires
        lists_agree(a, b),
        v <= a.len(),
    ensures
        empty_list_nodes(a, v) == empty_list_nodes(b, v),
    decreases v,
{
    if v > 0 {
        lemma_empty_list_nodes_agree(a, b, v - 1);
        assert(a[v - 1]@ == b[v - 1]@);
    }
}

proof fn lemma_start_agree(
    n: int,
    topo: Seq<usize>,
    sources: Seq<usize>,
    a: Seq<Vec<usize>>,
    b: Seq<Vec<usize>>,
    edges: Seq<DirectedEdge>,
)
    requires
        lists_agree(a, b),
        nodes_below(topo, a.len() as int),
    ensures
        start_ranks(n, topo, sources, a, edges) == start_ranks(n, topo, sources, b, edges),
{
    let zeros = Seq::new(n as nat, |v: int| 0i32);
    let p = crate::simplex::pinned_at_zero(zeros, sources);
    lemma_relaxed_agree(p, topo, a, b, edges, topo.len() as int);
    let r = relaxed_upto(p, topo, a, edges, topo.len() as int);
    lemma_relaxed_agree(shifted_pinned(r, sources, sources_min(r, sources)), topo, a, b, edges, topo.len() as int);
}

proof fn lemma_finish_agree(
    start: Seq<i32>,
    ranking_type: RankingType,
    topo: Seq<usize>,
    sources: Seq<usize>,
    sinks: Seq<usize>,
    ia: Seq<Vec<usize>>,
    ib: Seq<Vec<usize>>,
    oa: Seq<Vec<usize>>,
    ob: Seq<Vec<usize>>,
    edges: Seq<DirectedEdge>,
)
    requires
        lists_agree(ia, ib),
        lists_agree(oa, ob),
        ia.len() == oa.len(),
        refined_ranks(start, ranking_type, topo, sources, sinks, ia, oa, edges).len() == ia.len(),
        nodes_below(topo, ia.len() as int),
    ensures
        finish_ranks(start, ranking_type, topo, sources, sinks, ia, oa, edges) == finish_ranks(
            start,
            ranking_type,
            topo,
            sources,
            sinks,
            ib,
            ob,
            edges,
        ),
{
    lemma_refine_agree(start, topo, sources, edges, ia, ib, oa, ob);
    lemma_compact_agree(start, topo, sources, sinks, edges, oa, ob);
    let refined = refined_ranks(start, ranking_type, topo, sources, sinks, ia, oa, edges);
    lemma_balance_agree(refined, topo, sources, ia, ib, oa, ob, edges);
    let balanced = balance_spec(refined, topo, sources, ia, oa, edges);
    let level = if (ranking_type == RankingType::Up || ranking_type == RankingType::Down) && sinks.len() > 0 {
        leveled(balanced, sinks)
    } else {
        balanced
    };
    lemma_relaxed_agree(level, topo, oa, ob, edges, topo.len() as int);
}

proof fn lemma_stage_fits_agree(
    start: Seq<i32>,
    ranking_type: RankingType,
    topo: Seq<usize>,
    sources: Seq<usize>,
    sinks: Seq<usize>,
    ia: Seq<Vec<usize>>,
    ib: Seq<Vec<usize>>,
    oa: Seq<Vec<usize>>,
    ob: Seq<Vec<usize>>,
    edges: Seq<DirectedEdge>,
)
    requires
        lists_agree(ia, ib),
        lists_agree(oa, ob),
        ia.len() == oa.len(),
        nodes_below(topo, ia.len() as int),
    ensures
        stage_fits(start, ranking_type, topo, sources, sinks, ia, oa, edges) == stage_fits(
            start,
            ranking_type,
            topo,
            sources,
            sinks,
            ib,
            ob,
            edges,
        ),
{
    lemma_refine_within_agree(start, topo, sources, edges, ia, ib, oa, ob);
    lemma_compact_within_agree(start, topo, sources, sinks, edges, oa, ob);
    lemma_refine_agree(start, topo, sources, edges, ia, ib, oa, ob);
    lemma_compact_agree(start, topo, sources, sinks, edges, oa, ob);
}

/// The largest absolute minimum length (current or original) over `edges`.
fn len_cap_of(edges: &[DirectedEdge]) -> (l: i64)
    ensures
        l == len_abs_cap(edges@),
{
    let mut best: i64 = 0;
    let mut i: usize = 0;
    while i < edges.len()
        invariant
            i <= edges@.len(),
            best == len_abs_cap(edges@.subrange(0, i as int)),
        decreases edges.len() - i,
    {
        proof {
            let pre = edges@.subrange(0, i + 1);
            assert(pre.drop_last() =~= edges@.subrange(0, i as int));
            assert(pre.last() == edges@[i as int]);
        }
        let e = &edges[i];
        let a: i64 = if e.min_len < 0 {
            -(e.min_len as i64)
        } else {
            e.min_len as i64
        };
        let b: i64 = if e.base_min_len < 0 {
            -(e.base_min_len as i64)
        } else {
            e.base_min_len as i64
        };
        let x = if a > b {
            a
        } else {
            b
        };
        if x > best {
            best = x;
        }
        i += 1;
    }
    assert(edges@.subrange(0, edges@.len() as int) =~= edges@);
    best
}

/// The largest absolute weight over `edges`.
fn weight_cap_of(edges: &[DirectedEdge]) -> (w: i64)
    ensures
        w == weight_abs_cap(edges@),
{
    let mut best: i64 = 0;
    let mut i: usize = 0;
    while i < edges.len()
        invariant
            i <= edges@.len(),
            best == weight_abs_cap(edges@.subrange(0, i as int)),
        decreases edges.len() - i,
    {
        proof {
            let pre = edges@.subrange(0, i + 1);
            assert(pre.drop_last() =~= edges@.subrange(0, i as int));
            assert(pre.last() == edges@[i as int]);
        }
        let e = &edges[i];
        let a: i64 = if e.weight < 0 {
            -(e.weight as i64)
        } else {
            e.weight as i64
        };
        if a > best {
            best = a;
        }
        i += 1;
    }
    assert(edges@.subrange(0, edges@.len() as int) =~= edges@);
    best
}

/// Whether `ranking_fits` holds.
fn ranking_fits_check(node_count: usize, edges: &[DirectedEdge], ranking_type: RankingType) -> (r: bool)
    ensures
        r == ranking_fits(node_count as int, edges@, ranking_type),
{
    let l = len_cap_of(edges) as i128;
    let n = node_count as i128;
    proof {
        lemma_len_abs_cap(edges@);
        assert(len_abs_cap(edges@) <= 0x8000_0000) by {
            lemma_len_cap_small(edges@);
        }
    }
    if ranking_type == RankingType::Original {
        proof {
            assert(0 <= n * l <= 0x1_0000_0000_0000_0000 * 0x8000_0000) by (nonlinear_arith)
                requires
                    0 <= n <= 0x1_0000_0000_0000_0000,
                    0 <= l <= 0x8000_0000,
            ;
            assert((n + 1) * l == n * l + l) by (nonlinear_arith);
        }
        return n + (n + 1) * l <= 0x4000_0000;
    }
    if node_count > usize::MAX / 4 {
        return false;
    }
    proof {
        assert(0 <= n * l <= 0x1_0000_0000_0000_0000 * 0x8000_0000) by (nonlinear_arith)
            requires
                0 <= n <= 0x1_0000_0000_0000_0000,
                0 <= l <= 0x8000_0000,
        ;
        assert((n + 1) * (l + 1) == n * l + n + l + 1) by (nonlinear_arith);
    }
    if 2 * (n * l) + 2 * ((n + 1) * (l + 1)) > 0x0800_0000 {
        return false;
    }
    if ranking_type == RankingType::MinimizeEdgeLength {
        let w = weight_cap_of(edges) as i128;
        let m = edges.len() as i128;
        proof {
            lemma_weight_abs_cap(edges@);
            assert(weight_abs_cap(edges@) <= 0x8000_0000) by {
                lemma_weight_cap_small(edges@);
            }
            assert(0 <= m * (w + 1) <= 0x1_0000_0000_0000_0000 * 0x8000_0001) by (nonlinear_arith)
                requires
                    0 <= m <= 0x1_0000_0000_0000_0000,
                    0 <= w <= 0x8000_0000,
            ;
            assert(2 * m * (w + 1) == 2 * (m * (w + 1))) by (nonlinear_arith);
        }
        return 2 * (m * (w + 1)) <= 0x8000_0000;
    }
    true
}

proof fn lemma_len_cap_small(edges: Seq<DirectedEdge>)
    ensures
        len_abs_cap(edges) <= 0x8000_0000,
    decreases edges.len(),
{
    if edges.len() > 0 {
        lemma_len_cap_small(edges.drop_last());
    }
}

proof fn lemma_weight_cap_small(edges: Seq<DirectedEdge>)
    ensures
        weight_abs_cap(edges) <= 0x8000_0000,
    decreases edges.len(),
{
    if edges.len() > 0 {
        lemma_weight_cap_small(edges.drop_last());
    }
}

/// The lists of the nodes whose edges leave and enter them.
fn edge_lists(node_count: usize, edges: &[DirectedEdge]) -> (res: (Vec<Vec<usize>>, Vec<Vec<usize>>))
    requires
        endpoints_in_range(edges@, node_count as int),
    ensures
        edge_lists_exact(node_count as int, edges@, res.0@, res.1@),
        lists_of(node_count as int, edges@, res.0@, false),
        lists_of(node_count as int, edges@, res.1@, true),
{
    let mut outgoing: Vec<Vec<usize>> = Vec::new();
    let mut incoming: Vec<Vec<usize>> = Vec::new();
    let mut v: usize = 0;
    while v < node_count
        invariant
            v <= node_count,
            outgoing@.len() == v,
            incoming@.len() == v,
            forall|w: int| 0 <= w < v ==> outgoing@[w]@ == Seq::<usize>::empty() && incoming@[w]@ == Seq::<usize>::empty(),
        decreases node_count - v,
    {
        outgoing.push(Vec::new());
        incoming.push(Vec::new());
        v = v + 1;
    }
    let ghost n = node_count as int;
    let mut m: usize = 0;
    while m < edges.len()
        invariant
            m <= edges@.len(),
            n == node_count,
            endpoints_in_range(edges@, n),
            outgoing@.len() == n,
            incoming@.len() == n,
            forall|v: int, k: int|
                0 <= v < n && 0 <= k < outgoing@[v]@.len() ==> (#[trigger] outgoing@[v]@[k]) < m
                    && edges@[outgoing@[v]@[k] as int].tail == v,
            forall|v: int, k: int|
                0 <= v < n && 0 <= k < incoming@[v]@.len() ==> (#[trigger] incoming@[v]@[k]) < m
                    && edges@[incoming@[v]@[k] as int].head == v,
            forall|v: int, a: int, b: int|
                0 <= v < n && 0 <= a < b < outgoing@[v]@.len() ==> #[trigger] outgoing@[v]@[a]
                    < #[trigger] outgoing@[v]@[b],
            forall|v: int, a: int, b: int|
                0 <= v < n && 0 <= a < b < incoming@[v]@.len() ==> #[trigger] incoming@[v]@[a]
                    < #[trigger] incoming@[v]@[b],
            forall|e: int|
                0 <= e < m ==> outgoing@[(#[trigger] edges@[e]).tail as int]@.contains(e as usize)
                    && incoming@[edges@[e].head as int]@.contains(e as usize),
            forall|v: int| 0 <= v < n ==> (#[trigger] outgoing@[v])@ == out_edge_ids(edges@, v as usize, m as int),
            forall|v: int| 0 <= v < n ==> (#[trigger] incoming@[v])@ == in_edge_ids(edges@, v as usize, m as int),
        decreases edges.len() - m,
    {
        let tail = edges[m].tail;
        let head = edges[m].head;
        proof {
            assert(edges@[m as int].tail < n && edges@[m as int].head < n);
        }
        let ghost out_before = outgoing@;
        let ghost in_before = incoming@;
        outgoing[tail].push(m);
        incoming[head].push(m);
        proof {
            assert forall|e: int|
                0 <= e < m + 1 implies outgoing@[(#[trigger] edges@[e]).tail as int]@.contains(e as usize)
                && incoming@[edges@[e].head as int]@.contains(e as usize) by {
                if e < m {
                    let t = edges@[e].tail as int;
                    let h = edges@[e].head as int;
                    let i = choose|i: int| 0 <= i < out_before[t]@.len() && out_before[t]@[i] == e as usize;
                    assert(outgoing@[t]@[i] == e as usize);
                    let j = choose|j: int| 0 <= j < in_before[h]@.len() && in_before[h]@[j] == e as usize;
                    assert(incoming@[h]@[j] == e as usize);
                } else {
                    assert(outgoing@[tail as int]@[outgoing@[tail as int]@.len() - 1] == m);
                    assert(incoming@[head as int]@[incoming@[head as int]@.len() - 1] == m);
                }
            }
        }
        m = m + 1;
    }
    (outgoing, incoming)
}

/// The nodes whose list is empty, in increasing order.
fn nodes_with_empty_list(lists: &Vec<Vec<usize>>) -> (res: Vec<usize>)
    ensures
        res@ == empty_list_nodes(lists@, lists@.len() as int),
        forall|i: int| 0 <= i < res@.len() ==> res@[i] < lists@.len() && lists@[res@[i] as int]@.len() == 0,
        forall|v: int| 0 <= v < lists@.len() && (#[trigger] lists@[v])@.len() == 0 ==> res@.contains(v as usize),
{
    let mut res: Vec<usize> = Vec::new();
    let mut v: usize = 0;
    while v < lists.len()
        invariant
            v <= lists@.len(),
            forall|i: int| 0 <= i < res@.len() ==> res@[i] < v && lists@[res@[i] as int]@.len() == 0,
            forall|w: int| 0 <= w < v && (#[trigger] lists@[w])@.len() == 0 ==> res@.contains(w as usize),
            res@ == empty_list_nodes(lists@, v as int),
        decreases lists.len() - v,
    {
        if lists[v].len() == 0 {
            let ghost before = res@;
            res.push(v);
            proof {
                assert forall|w: int| 0 <= w < v + 1 && (#[trigger] lists@[w])@.len() == 0 implies res@.contains(
                    w as usize,
                ) by {
                    if w < v {
                        let i = choose|i: int| 0 <= i < before.len() && before[i] == w as usize;
                        assert(res@[i] == w as usize);
                    } else {
                        assert(res@[res@.len() - 1] == v);
                    }
                }
            }
        }
        v = v + 1;
    }
    res
}

/// A sequence with every entry within `b` of zero has its largest absolute
/// entry within `b`.
proof fn lemma_max_abs_le(s: Seq<i32>, b: int)
    requires
        abs_within(s, b),
        b >= 0,
    ensures
        max_abs(s) <= b,
    decreases s.len(),
{
    if s.len() > 0 {
        assert(abs_within(s.drop_last(), b)) by {
            assert forall|i: int| 0 <= i < s.drop_last().len() implies -b <= #[trigger] s.drop_last()[i] <= b by {
                assert(s.drop_last()[i] == s[i]);
            }
        }
        lemma_max_abs_le(s.drop_last(), b);
        assert(-b <= s[s.len() - 1] <= b);
    }
}

/// When every node lists at most `d` edges, so does the busiest node.
proof fn lemma_degree_cap_le(incoming: Seq<Vec<usize>>, outgoing: Seq<Vec<usize>>, d: int)
    requires
        degrees_within(incoming, outgoing, d),
        d >= 0,
    ensures
        degree_cap(incoming, outgoing) <= d,
    decreases incoming.len(),
{
    if incoming.len() > 0 {
        assert(degrees_within(incoming.drop_last(), outgoing, d)) by {
            assert forall|v: int| 0 <= v < incoming.drop_last().len() implies (#[trigger] incoming.drop_last()[v])@.len()
                + outgoing[v]@.len() <= d by {
                assert(incoming.drop_last()[v] == incoming[v]);
                assert(incoming[v]@.len() + outgoing[v]@.len() <= d);
            }
        }
        lemma_degree_cap_le(incoming.drop_last(), outgoing, d);
        assert(incoming[incoming.len() - 1]@.len() + outgoing[incoming.len() - 1]@.len() <= d);
    }
}

/// A node permutation of `0..n` lists every node.
proof fn lemma_permutation_covers(order: Seq<usize>, n: int, v: int)
    requires
        is_node_permutation(order, n),
        0 <= v < n,
    ensures
        exists|i: int| 0 <= i < order.len() && order[i] == v,
{
    if !(exists|i: int| 0 <= i < order.len() && order[i] == v) {
        let squeezed = order.map_values(|w: usize| if w > v { (w - 1) as usize } else { w });
        assert forall|i: int| 0 <= i < squeezed.len() implies squeezed[i] < n - 1 by {
            assert(order[i] != v);
        }
        assert forall|a: int, b: int| 0 <= a < b < squeezed.len() implies squeezed[a] != squeezed[b] by {
            assert(order[a] != order[b]);
            assert(order[a] != v && order[b] != v);
        }
        lemma_distinct_bounded(squeezed, n - 1);
    }
}

/// A list of distinct edge indices in increasing order has at most as many
/// entries as there are edges.
proof fn lemma_list_len(list: Seq<usize>, m: int)
    requires
        forall|k: int| 0 <= k < list.len() ==> list[k] < m,
        forall|a: int, b: int| 0 <= a < b < list.len() ==> list[a] < list[b],
        m >= 0,
    ensures
        list.len() <= m,
{
    assert forall|a: int, b: int| 0 <= a < b < list.len() implies list[a] != list[b] by {
        assert(list[a] < list[b]);
    }
    lemma_distinct_bounded(list, m);
}

/// With exact edge lists, no node has more than twice the number of edges
/// listed at it.
proof fn lemma_degrees_bounded(n: int, edges: Seq<DirectedEdge>, outgoing: Seq<Vec<usize>>, incoming: Seq<Vec<usize>>)
    requires
        edge_lists_exact(n, edges, outgoing, incoming),
    ensures
        degree_cap(incoming, outgoing) <= 2 * edges.len(),
{
    assert forall|v: int| 0 <= v < incoming.len() implies (#[trigger] incoming[v])@.len() + outgoing[v]@.len() <= 2
        * edges.len() by {
        assert forall|k: int| 0 <= k < incoming[v]@.len() implies incoming[v]@[k] < edges.len() by {
            assert(incoming[v]@[k] < edges.len());
        }
        assert forall|a: int, b: int| 0 <= a < b < incoming[v]@.len() implies incoming[v]@[a] < incoming[v]@[b] by {
            assert(incoming[v]@[a] < incoming[v]@[b]);
        }
        lemma_list_len(incoming[v]@, edges.len() as int);
        assert forall|k: int| 0 <= k < outgoing[v]@.len() implies outgoing[v]@[k] < edges.len() by {
            assert(outgoing[v]@[k] < edges.len());
        }
        assert forall|a: int, b: int| 0 <= a < b < outgoing[v]@.len() implies outgoing[v]@[a] < outgoing[v]@[b] by {
            assert(outgoing[v]@[a] < outgoing[v]@[b]);
        }
        lemma_list_len(outgoing[v]@, edges.len() as int);
    }
    lemma_degree_cap_le(incoming, outgoing, 2 * edges.len() as int);
}

/// Layerable edges with exact lists: the order `topo_order` returns lists
/// no edge backwards.
proof fn lemma_layerable_respects(
    n: int,
    edges: Seq<DirectedEdge>,
    topo: Seq<usize>,
    outgoing: Seq<Vec<usize>>,
    incoming: Seq<Vec<usize>>,
)
    requires
        layerable(edges, n),
        endpoints_in_range(edges, n),
        edge_lists_exact(n, edges, outgoing, incoming),
        is_node_permutation(topo, n),
        exists|k: int| kahn_split(topo, edges, k),
    ensures
        topo_respects(topo, outgoing, edges),
{
    let f = choose|f: Seq<int>| #[trigger] grows_along_edges(f, edges, n);
    assert(non_flat_in_range(edges, n)) by {
        assert forall|e: int| 0 <= e < edges.len() && !edges[e].flat implies edges[e].tail < n && edges[e].head < n by {
            assert(endpoints_in_range(edges, n));
            assert(edges[e].tail < n);
        }
    }
    assert forall|e: int| 0 <= e < edges.len() && !edges[e].flat implies f[edges[e].tail as int] < f[
        edges[e].head as int
    ] by {
        assert(grows_along_edges(f, edges, n));
        assert(f[edges[e].tail as int] < f[edges[e].head as int]);
    }
    law_topo_order_is_topological_when_acyclic(topo, edges, n, f);
    assert(kahn_prefix_ordered(topo, edges, n));
    reveal(topo_respects);
    assert forall|p: int, q: int, k: int|
        0 <= p <= q < topo.len() && 0 <= k < outgoing[topo[q] as int]@.len() && out_edge(
            outgoing,
            edges,
            topo[q] as int,
            k,
        ).head == topo[p] implies p == q && out_edge(outgoing, edges, topo[q] as int, k).min_len <= 0 by {
        let t = topo[q] as int;
        let e = outgoing[t]@[k] as int;
        assert(outgoing[t]@[k] < edges.len() && edges[e].tail == t);
        assert(!edges[e].flat);
        assert(edges[e].head == topo[p]);
        let i = choose|i: int| 0 <= i < p && topo[i] == edges[e].tail;
        assert(topo[i] == topo[q]);
        assert(false);
    }
}

/// Under exact lists, ranks that satisfy every listed edge out of the nodes
/// of a permutation satisfy every edge.
proof fn lemma_listed_feasible_all(
    n: int,
    rank: Seq<i32>,
    edges: Seq<DirectedEdge>,
    topo: Seq<usize>,
    outgoing: Seq<Vec<usize>>,
    incoming: Seq<Vec<usize>>,
)
    requires
        relaxed_edges_feasible(rank, topo, outgoing, edges),
        edge_lists_exact(n, edges, outgoing, incoming),
        endpoints_in_range(edges, n),
        is_node_permutation(topo, n),
        rank.len() == n,
        edges.len() <= usize::MAX,
    ensures
        satisfies_edges(rank, edges),
{
    reveal(relaxed_edges_feasible);
    assert forall|e: int| 0 <= e < edges.len() implies rank[(#[trigger] edges[e]).head as int] >= rank[
        edges[e].tail as int
    ] + edges[e].min_len by {
        let t = edges[e].tail as int;
        assert(t < n);
        lemma_permutation_covers(topo, n, t);
        let p = choose|p: int| 0 <= p < topo.len() && topo[p] == t;
        assert(outgoing[t]@.contains(e as usize));
        let k = choose|k: int| 0 <= k < outgoing[t]@.len() && outgoing[t]@[k] == e as usize;
        assert(outgoing[topo[p] as int]@[k] as int == e);
        assert(out_edge(outgoing, edges, topo[p] as int, k) == edges[e]);
    }
}

/// A node no edge enters is not the head of any listed edge.
proof fn lemma_no_in_edge_unlisted(
    n: int,
    edges: Seq<DirectedEdge>,
    topo: Seq<usize>,
    outgoing: Seq<Vec<usize>>,
    incoming: Seq<Vec<usize>>,
    v: int,
)
    requires
        edge_lists_exact(n, edges, outgoing, incoming),
        forall|p: int| 0 <= p < topo.len() ==> topo[p] < n,
        has_no_in_edge(edges, v),
    ensures
        !is_listed_head(topo, outgoing, edges, v),
{
    if is_listed_head(topo, outgoing, edges, v) {
        let (p, k) = choose|p: int, k: int|
            0 <= p < topo.len() && 0 <= k < outgoing[topo[p] as int]@.len() && out_edge(
                outgoing,
                edges,
                topo[p] as int,
                k,
            ).head == v;
        let t = topo[p] as int;
        assert(outgoing[t]@[k] < edges.len());
        assert(edges[outgoing[t]@[k] as int].head != v);
    }
}

/// Whether the lengths, weights and node count are small enough that no
/// pass `assign_ranks` runs for `ranking_type` can overflow.
pub open spec fn ranking_fits(n: int, edges: Seq<DirectedEdge>, ranking_type: RankingType) -> bool {
    let l = len_abs_cap(edges);
    if ranking_type == RankingType::Original {
        n + (n + 1) * l <= 0x4000_0000
    } else {
        &&& n <= usize::MAX / 4
        &&& 2 * (n * l) + 2 * ((n + 1) * (l + 1)) <= 0x0800_0000
        &&& ranking_type == RankingType::MinimizeEdgeLength ==> 2 * edges.len() * (weight_abs_cap(edges) + 1)
            <= 0x8000_0000
    }
}

/// The refinement for `ranking_type` keeps every rank it sweeps within
/// `2^29`, and the refined ranks lie within `2^28`, so that
/// the band balancing after it keeps within `2^29` as well.
pub open spec fn stage_fits(
    start: Seq<i32>,
    ranking_type: RankingType,
    topo: Seq<usize>,
    sources: Seq<usize>,
    sinks: Seq<usize>,
    incoming: Seq<Vec<usize>>,
    outgoing: Seq<Vec<usize>>,
    edges: Seq<DirectedEdge>,
) -> bool {
    &&& if ranking_type == RankingType::MinimizeEdgeLength {
        refine_stays_within(start, topo, sources, edges, incoming, outgoing)
    } else {
        compact_stays_within(start, topo, sources, sinks, edges, outgoing)
    }
    &&& abs_within(refined_ranks(start, ranking_type, topo, sources, sinks, incoming, outgoing, edges), 0x1000_0000)
}

/// `assign_ranks` runs without overflow: the lengths, weights and node
/// count fit (`ranking_fits`) and, for the ranking types that refine, the
/// refinement stays within range (`stage_fits`).
pub open spec fn assign_fits(n: int, edges: Seq<DirectedEdge>, ranking_type: RankingType) -> bool {
    &&& ranking_fits(n, edges, ranking_type)
    &&& (n <= 0 || ranking_type == RankingType::Original || {
        let topo = topo_spec(n, edges);
        let outgoing = out_lists(n, edges);
        let incoming = in_lists(n, edges);
        let sources = empty_list_nodes(incoming, n);
        let sinks = empty_list_nodes(outgoing, n);
        stage_fits(
            start_ranks(n, topo, sources, outgoing, edges),
            ranking_type,
            topo,
            sources,
            sinks,
            incoming,
            outgoing,
            edges,
        )
    })
}

/// `n` ranks of zero.
fn zero_ranks(n: usize) -> (rank: Vec<i32>)
    ensures
        rank@.len() == n,
        forall|v: int| 0 <= v < n ==> rank@[v] == 0,
{
    let mut rank: Vec<i32> = Vec::new();
    let mut v: usize = 0;
    while v < n
        invariant
            v <= n,
            rank@.len() == v,
            forall|w: int| 0 <= w < v ==> rank@[w] == 0,
        decreases n - v,
    {
        rank.push(0);
        v = v + 1;
    }
    rank
}

/// Puts every listed sink at the highest rank among them and returns that
/// rank.
fn level_sinks(rank: &mut [i32], sinks: &[usize]) -> (top: i32)
    requires
        sinks@.len() > 0,
        forall|i: int| 0 <= i < sinks@.len() ==> sinks@[i] < old(rank)@.len(),
    ensures
        final(rank)@.len() == old(rank)@.len(),
        top == sinks_max(old(rank)@, sinks@),
        final(rank)@ == leveled(old(rank)@, sinks@),
        exists|j: int| 0 <= j < sinks@.len() && top == old(rank)@[sinks@[j] as int],
        forall|j: int| 0 <= j < sinks@.len() ==> old(rank)@[#[trigger] sinks@[j] as int] <= top,
        forall|v: int|
            0 <= v < old(rank)@.len() ==> final(rank)@[v] == (if sinks@.contains(v as usize) {
                top
            } else {
                old(rank)@[v]
            }),
{
    let ghost start = rank@;
    let mut top = rank[sinks[0]];
    let mut i: usize = 1;
    while i < sinks.len()
        invariant
            1 <= i <= sinks@.len(),
            rank@ == start,
            forall|j: int| 0 <= j < sinks@.len() ==> sinks@[j] < start.len(),
            exists|j: int| 0 <= j < i && top == start[sinks@[j] as int],
            forall|j: int| 0 <= j < i ==> start[#[trigger] sinks@[j] as int] <= top,
            top == sinks_max(start, sinks@.subrange(0, i as int)),
        decreases sinks.len() - i,
    {
        proof {
            let pre = sinks@.subrange(0, i + 1);
            assert(pre.drop_last() =~= sinks@.subrange(0, i as int));
            assert(pre.last() == sinks@[i as int]);
        }
        if rank[sinks[i]] > top {
            top = rank[sinks[i]];
        }
        i = i + 1;
    }
    assert(sinks@.subrange(0, sinks@.len() as int) =~= sinks@);
    let mut i: usize = 0;
    while i < sinks.len()
        invariant
            i <= sinks@.len(),
            top == sinks_max(start, sinks@),
            rank@.len() == start.len(),
            forall|j: int| 0 <= j < sinks@.len() ==> sinks@[j] < start.len(),
            forall|v: int|
                0 <= v < start.len() ==> rank@[v] == (if sinks@.subrange(0, i as int).contains(v as usize) {
                    top
                } else {
                    start[v]
                }),
        decreases sinks.len() - i,
    {
        let ghost s0 = sinks@.subrange(0, i as int);
        let ghost s1 = sinks@.subrange(0, i as int + 1);
        rank[sinks[i]] = top;
        proof {
            assert(s1 =~= s0.push(sinks@[i as int]));
            assert forall|v: int| 0 <= v < start.len() implies rank@[v] == (if s1.contains(v as usize) {
                top
            } else {
                start[v]
            }) by {
                if s1.contains(v as usize) && !s0.contains(v as usize) {
                    let j = choose|j: int| 0 <= j < s1.len() && s1[j] == v as usize;
                    if j < i {
                        assert(s0[j] == v as usize);
                    }
                }
                if s0.contains(v as usize) {
                    let j = choose|j: int| 0 <= j < s0.len() && s0[j] == v as usize;
                    assert(s1[j] == v as usize);
                }
                if v == sinks@[i as int] {
                    assert(s1[i as int] == v as usize);
                }
            }
        }
        i = i + 1;
    }
    assert(sinks@.subrange(0, sinks@.len() as int) =~= sinks@);
    assert(rank@ =~= leveled(start, sinks@));
    top
}

/// Raising only nodes that no listed edge leaves keeps every listed edge
/// satisfied.
proof fn lemma_raise_sinks_feasible(
    old_rank: Seq<i32>,
    rank: Seq<i32>,
    topo: Seq<usize>,
    outgoing: Seq<Vec<usize>>,
    edges: Seq<DirectedEdge>,
    sinks: Seq<usize>,
)
    requires
        relaxed_edges_feasible(old_rank, topo, outgoing, edges),
        rank.len() == old_rank.len(),
        adjacency_in_range(old_rank.len() as int, topo, outgoing, edges),
        forall|i: int| 0 <= i < sinks.len() ==> sinks[i] < outgoing.len() && outgoing[sinks[i] as int]@.len() == 0,
        forall|v: int| 0 <= v < rank.len() ==> old_rank[v] <= #[trigger] rank[v],
        forall|v: int| 0 <= v < rank.len() && !sinks.contains(v as usize) ==> rank[v] == old_rank[v],
    ensures
        relaxed_edges_feasible(rank, topo, outgoing, edges),
{
    reveal(relaxed_edges_feasible);
    assert forall|p: int, k: int| 0 <= p < topo.len() && 0 <= k < outgoing[topo[p] as int]@.len() implies rank[out_edge(
        outgoing,
        edges,
        topo[p] as int,
        k,
    ).head as int] >= rank[topo[p] as int] + out_edge(outgoing, edges, topo[p] as int, k).min_len by {
        let t = topo[p] as int;
        if sinks.contains(t as usize) {
            let i = choose|i: int| 0 <= i < sinks.len() && sinks[i] == t as usize;
            assert(outgoing[sinks[i] as int]@.len() == 0);
        }
        assert(rank[t] == old_rank[t]);
        let h = out_edge(outgoing, edges, t, k).head as int;
        assert(h < old_rank.len());
        assert(old_rank[h] <= rank[h]);
    }
}

/// What the closing passes of `assign_ranks` leave when the edges are
/// layerable: the balanced ranks satisfy every edge and put the sources at
/// zero; levelling the sinks keeps that, and the last relaxation changes
/// nothing.
proof fn lemma_final_laws(
    n: int,
    edges: Seq<DirectedEdge>,
    topo: Seq<usize>,
    outgoing: Seq<Vec<usize>>,
    incoming: Seq<Vec<usize>>,
    sources: Seq<usize>,
    sinks: Seq<usize>,
    settled: Seq<i32>,
    pre: Seq<i32>,
    fin: Seq<i32>,
    leveled: bool,
    top: int,
    ranking_type: RankingType,
)
    requires
        1 <= n <= usize::MAX,
        edges.len() <= usize::MAX,
        endpoints_in_range(edges, n),
        edge_lists_exact(n, edges, outgoing, incoming),
        is_node_permutation(topo, n),
        topo_respects(topo, outgoing, edges),
        adjacency_in_range(n, topo, outgoing, edges),
        settled.len() == n,
        pre.len() == n,
        fin.len() == n,
        refinement_settled(settled, topo, outgoing, edges, sources),
        forall|i: int| 0 <= i < sources.len() ==> sources[i] < n && incoming[sources[i] as int]@.len() == 0,
        forall|v: int| 0 <= v < n && (#[trigger] incoming[v])@.len() == 0 ==> sources.contains(v as usize),
        forall|i: int| 0 <= i < sinks.len() ==> sinks[i] < n && outgoing[sinks[i] as int]@.len() == 0,
        forall|v: int| 0 <= v < n && (#[trigger] outgoing[v])@.len() == 0 ==> sinks.contains(v as usize),
        leveled ==> forall|v: int|
            0 <= v < n ==> pre[v] == (if sinks.contains(v as usize) {
                top
            } else {
                settled[v] as int
            }),
        leveled ==> forall|j: int| 0 <= j < sinks.len() ==> settled[#[trigger] sinks[j] as int] <= top,
        !leveled ==> pre == settled,
        leveled == ((ranking_type == RankingType::Down || ranking_type == RankingType::Up) && sinks.len() > 0),
        relaxed_edges_feasible(pre, topo, outgoing, edges) ==> fin == pre,
    ensures
        satisfies_edges(fin, edges),
        ranking_type != RankingType::Original ==> forall|v: int|
            0 <= v < n && has_no_in_edge(edges, v) && (ranking_type == RankingType::MinimizeEdgeLength
                || !has_no_out_edge(edges, v)) ==> #[trigger] fin[v] == 0,
        (ranking_type == RankingType::Up || ranking_type == RankingType::Down) ==> forall|v: int, w: int|
            0 <= v < n && 0 <= w < n && has_no_out_edge(edges, v) && has_no_out_edge(edges, w) ==> #[trigger] fin[v]
                == #[trigger] fin[w],
{
    assert(relaxed_edges_feasible(settled, topo, outgoing, edges));
    if leveled {
        assert forall|v: int| 0 <= v < pre.len() implies settled[v] <= #[trigger] pre[v] by {
            if sinks.contains(v as usize) {
                let j = choose|j: int| 0 <= j < sinks.len() && sinks[j] == v as usize;
                assert(settled[sinks[j] as int] <= top);
            }
        }
        lemma_raise_sinks_feasible(settled, pre, topo, outgoing, edges, sinks);
    }
    assert(fin == pre);
    lemma_listed_feasible_all(n, fin, edges, topo, outgoing, incoming);
    assert forall|v: int|
        0 <= v < n && has_no_in_edge(edges, v) && (ranking_type == RankingType::MinimizeEdgeLength
            || !has_no_out_edge(edges, v)) && ranking_type != RankingType::Original implies #[trigger] fin[v] == 0 by {
        if incoming[v]@.len() > 0 {
            assert(incoming[v]@[0] < edges.len());
            assert(edges[incoming[v]@[0] as int].head == v);
        }
        assert(sources.contains(v as usize));
        let i = choose|i: int| 0 <= i < sources.len() && sources[i] == v as usize;
        lemma_no_in_edge_unlisted(n, edges, topo, outgoing, incoming, v);
        assert(settled[sources[i] as int] == 0);
        if leveled {
            if ranking_type != RankingType::MinimizeEdgeLength {
                let e = choose|e: int| 0 <= e < edges.len() && edges[e].tail == v;
                assert(outgoing[edges[e].tail as int]@.contains(e as usize));
                if sinks.contains(v as usize) {
                    let j = choose|j: int| 0 <= j < sinks.len() && sinks[j] == v as usize;
                    assert(outgoing[sinks[j] as int]@.len() == 0);
                }
            }
        }
    }
    assert forall|v: int, w: int|
        0 <= v < n && 0 <= w < n && has_no_out_edge(edges, v) && has_no_out_edge(edges, w) && (ranking_type
            == RankingType::Up || ranking_type == RankingType::Down) implies #[trigger] fin[v] == #[trigger] fin[w] by {
        if outgoing[v]@.len() > 0 {
            assert(outgoing[v]@[0] < edges.len());
            assert(edges[outgoing[v]@[0] as int].tail == v);
        }
        if outgoing[w]@.len() > 0 {
            assert(outgoing[w]@[0] < edges.len());
            assert(edges[outgoing[w]@[0] as int].tail == w);
        }
        assert(sinks.contains(v as usize));
        assert(sinks.contains(w as usize));
        assert(sinks.len() > 0);
    }
}

/// Zero ranks, the sources put at zero, all edges relaxed forward, then
/// everything moved so that the lowest source sits at zero.
fn start_from_zero(
    node_count: usize,
    edges: &[DirectedEdge],
    topo: &Vec<usize>,
    outgoing: &Vec<Vec<usize>>,
    incoming: &Vec<Vec<usize>>,
    sources: &Vec<usize>,
) -> (rank: Vec<i32>)
    requires
        node_count >= 1,
        endpoints_in_range(edges@, node_count as int),
        edge_lists_exact(node_count as int, edges@, outgoing@, incoming@),
        adjacency_in_range(node_count as int, topo@, outgoing@, edges@),
        topo@.len() == node_count,
        forall|i: int| 0 <= i < sources@.len() ==> sources@[i] < node_count,
        2 * (node_count * len_abs_cap(edges@)) + 2 * ((node_count + 1) * (len_abs_cap(edges@) + 1)) <= 0x0800_0000,
    ensures
        rank@.len() == node_count,
        abs_within(rank@, 2 * (node_count * len_abs_cap(edges@))),
        rank@ == start_ranks(node_count as int, topo@, sources@, outgoing@, edges@),
{
    let ghost n = node_count as int;
    let ghost l = len_abs_cap(edges@);
    let ghost nl = n * l;
    proof {
        lemma_len_abs_cap(edges@);
        assert(nl >= 0 && (n + 1) * l <= (n + 1) * (l + 1)) by (nonlinear_arith)
            requires
                n >= 1,
                l >= 0,
                nl == n * l,
        ;
        assert((n + 1) * l >= 0) by (nonlinear_arith)
            requires
                n >= 1,
                l >= 0,
        ;
    }
    let mut rank = zero_ranks(node_count);
    let ghost zero_seq = rank@;
    pin_sources(rank.as_mut_slice(), sources);
    proof {
        assert(zero_seq =~= Seq::new(n as nat, |v: int| 0i32));
        assert(rank@ =~= crate::simplex::pinned_at_zero(zero_seq, sources@));
        assert(abs_within(rank@, 0));
        lemma_relax_fits(rank@, n, edges@, 0, l);
    }
    let ghost zeros = rank@;
    relax_forward(rank.as_mut_slice(), topo, outgoing, edges);
    proof {
        lemma_max_min_of(zeros);
        lemma_len_cap(edges@);
        let lc = len_cap(edges@);
        assert(lc <= l) by {
            if lc != 0 {
                let e = choose|e: int| 0 <= e < edges@.len() && edges@[e].min_len == lc;
                assert(-l <= edges@[e].min_len <= l);
            }
        }
        assert(n * lc <= nl) by (nonlinear_arith)
            requires
                n >= 0,
                lc <= l,
                nl == n * l,
        ;
        assert(max_of(zeros) == 0);
        assert(abs_within(rank@, nl));
    }
    let ghost r1 = rank@;
    proof {
        if sources@.len() > 0 {
            lemma_sources_min(r1, sources@);
            let sm = sources_min(r1, sources@);
            if sm != 0 {
                let sp = shifted_pinned(r1, sources@, sm);
                assert(abs_within(sp, nl));
                lemma_relax_fits(sp, n, edges@, nl, l);
            }
        }
    }
    balance_sources(rank.as_mut_slice(), sources, topo, outgoing, edges);
    proof {
        if sources@.len() > 0 && sources_min(r1, sources@) != 0 {
            let sp = shifted_pinned(r1, sources@, sources_min(r1, sources@));
            lemma_max_min_of(sp);
            let lc = len_cap(edges@);
            assert(n * lc <= nl) by (nonlinear_arith)
                requires
                    n >= 0,
                    lc <= l,
                    nl == n * l,
            ;
            assert(abs_within(sp, nl));
            assert(max_of(sp) <= nl) by {
                let i = choose|i: int| 0 <= i < sp.len() && sp[i] == max_of(sp);
                assert(-nl <= sp[i] <= nl);
            }
            assert(topo@.len() * len_cap(edges@) == n * lc);
            assert forall|v: int| 0 <= v < rank@.len() implies -2 * nl <= #[trigger] rank@[v] <= 2 * nl by {
                assert(rank@[v] >= sp[v]);
                assert(-nl <= sp[v] <= nl);
                assert(rank@[v] <= max_of(sp) + topo@.len() * len_cap(edges@));
            }
        }
        assert(abs_within(rank@, 2 * nl));
        lemma_max_abs_le(rank@, 2 * nl);
    }
    rank
}

/// The refinement each ranking type asks for, the band balancing, the
/// levelling of the sinks under `Up` and `Down`, and a last forward
/// relaxation.
#[verifier::rlimit(30)]
fn refine_and_balance(
    rank: Vec<i32>,
    node_count: usize,
    edges: &[DirectedEdge],
    ranking_type: RankingType,
    topo: &Vec<usize>,
    outgoing: &Vec<Vec<usize>>,
    incoming: &Vec<Vec<usize>>,
    sources: &Vec<usize>,
    sinks: &Vec<usize>,
) -> (res: Option<Vec<i32>>)
    requires
        node_count >= 1,
        ranking_type != RankingType::Original,
        ranking_type != RankingType::Hybrid,
        rank@.len() == node_count,
        abs_within(rank@, 2 * (node_count * len_abs_cap(edges@))),
        ranking_fits(node_count as int, edges@, ranking_type),
        edges@.len() <= usize::MAX,
        endpoints_in_range(edges@, node_count as int),
        edge_lists_exact(node_count as int, edges@, outgoing@, incoming@),
        adjacency_in_range(node_count as int, topo@, outgoing@, edges@),
        lists_in_range(node_count as int, edges@, incoming@, outgoing@),
        is_node_permutation(topo@, node_count as int),
        forall|i: int| 0 <= i < sources@.len() ==> sources@[i] < node_count && incoming@[sources@[i] as int]@.len() == 0,
        forall|v: int| 0 <= v < node_count && (#[trigger] incoming@[v])@.len() == 0 ==> sources@.contains(v as usize),
        forall|i: int| 0 <= i < sinks@.len() ==> sinks@[i] < node_count && outgoing@[sinks@[i] as int]@.len() == 0,
        forall|v: int| 0 <= v < node_count && (#[trigger] outgoing@[v])@.len() == 0 ==> sinks@.contains(v as usize),
    ensures
        (res is Some) == stage_fits(rank@, ranking_type, topo@, sources@, sinks@, incoming@, outgoing@, edges@),
        res is Some ==> res->0@ == finish_ranks(rank@, ranking_type, topo@, sources@, sinks@, incoming@, outgoing@, edges@),
        res is Some ==> refined_ranks(rank@, ranking_type, topo@, sources@, sinks@, incoming@, outgoing@, edges@).len() == node_count,
        res is Some ==> res->0@.len() == node_count,
        res is Some && topo_respects(topo@, outgoing@, edges@) ==> satisfies_edges(res->0@, edges@),
        res is Some && topo_respects(topo@, outgoing@, edges@) ==> forall|v: int|
            0 <= v < node_count && has_no_in_edge(edges@, v) && (ranking_type == RankingType::MinimizeEdgeLength
                || !has_no_out_edge(edges@, v)) ==> #[trigger] res->0@[v] == 0,
        res is Some && topo_respects(topo@, outgoing@, edges@) && (ranking_type == RankingType::Up || ranking_type
            == RankingType::Down) ==> forall|v: int, w: int|
            0 <= v < node_count && 0 <= w < node_count && has_no_out_edge(edges@, v) && has_no_out_edge(
                edges@,
                w,
            ) ==> #[trigger] res->0@[v] == #[trigger] res->0@[w],
{
    let mut rank = rank;
    let ghost n = node_count as int;
    let ghost l = len_abs_cap(edges@);
    let ghost nl = n * l;
    let ghost kk = (2 * n + 2) * (l + 1);
    let ghost m4: int = 0x1000_0000;
    let ghost b5 = 2 * (m4 + nl) + nl;
    let ghost start = rank@;
    proof {
        lemma_len_abs_cap(edges@);
        assert(nl >= 0 && kk >= 0 && (n + 1) * l <= (n + 1) * (l + 1)) by (nonlinear_arith)
            requires
                n >= 1,
                l >= 0,
                nl == n * l,
                kk == (2 * n + 2) * (l + 1),
        ;
        assert(2 * ((n + 1) * (l + 1)) == kk) by (nonlinear_arith)
            requires
                kk == (2 * n + 2) * (l + 1),
        ;
        assert((n + 1) * l >= 0) by (nonlinear_arith)
            requires
                n >= 1,
                l >= 0,
        ;
        lemma_max_abs_le(rank@, 2 * nl);
    }
    if ranking_type == RankingType::MinimizeEdgeLength {
        proof {
            lemma_degrees_bounded(n, edges@, outgoing@, incoming@);
            lemma_weight_abs_cap(edges@);
            lemma_degree_cap(incoming@, outgoing@);
            let d = degree_cap(incoming@, outgoing@);
            let w = weight_abs_cap(edges@);
            let m = edges@.len() as int;
            assert(d * (w + 1) <= 2 * m * (w + 1)) by (nonlinear_arith)
                requires
                    0 <= d <= 2 * m,
                    w >= 0,
            ;
            assert(sources_pinned(incoming@, sources@));
        }
        let ok = refine_checked(rank.as_mut_slice(), edges, topo, sources, incoming, outgoing);
        if !ok {
            return None;
        }
    } else {
        let ok = compact_checked(rank.as_mut_slice(), topo, sources, sinks, outgoing, edges);
        if !ok {
            return None;
        }
    }
    if !ranks_within(rank.as_slice(), 0x1000_0000) {
        return None;
    }
    proof {
        assert(abs_within(rank@, m4));
        lemma_max_abs_le(rank@, m4);
    }
    balance_rank_band(rank.as_mut_slice(), topo, sources, sinks, incoming, outgoing, edges);
    let ghost settled = rank@;
    proof {
        assert(abs_within(rank@, b5));
    }
    let ghost mut leveled = false;
    let ghost mut top_rank: int = 0;
    if (ranking_type == RankingType::Down || ranking_type == RankingType::Up) && sinks.len() > 0 {
        let top = level_sinks(rank.as_mut_slice(), sinks);
        proof {
            leveled = true;
            top_rank = top as int;
            assert(abs_within(rank@, b5));
        }
    }
    let ghost pre = rank@;
    proof {
        lemma_relax_fits(rank@, n, edges@, b5, l);
    }
    relax_forward(rank.as_mut_slice(), topo, outgoing, edges);
    proof {
        if topo_respects(topo@, outgoing@, edges@) {
            lemma_final_laws(n, edges@, topo@, outgoing@, incoming@, sources@, sinks@, settled, pre, rank@, leveled, top_rank, ranking_type);
        }
    }
    Some(rank)
}

/// Assigns a rank to every node for a ranking type that needs no blending.
///
/// `Original` ranks each node by its position in `topo_order` and relaxes all
/// edges forward. The other types start from zero, relax all edges forward
/// and move the sources to zero (`balance_sources`); `MinimizeEdgeLength` then
/// refines with `network_simplex_refine`, `Up` and `Down` with
/// `compact_ranks`; all balance with `balance_rank_band`; `Up` and `Down`
/// then put every node without outgoing edges at the highest rank among
/// them; finally all edges are relaxed forward once more.
///
/// When the edges are layerable, every edge is satisfied; for the types
/// other than `Original` every node that no edge enters is at rank zero
/// (under `Up` and `Down`, when some edge leaves it), and under `Up` and
/// `Down` all nodes that no edge leaves share one rank.
fn assign_checked(node_count: usize, edges: &[DirectedEdge], ranking_type: RankingType) -> (res: Option<Vec<i32>>)
    requires
        ranking_type != RankingType::Hybrid,
        endpoints_in_range(edges@, node_count as int),
        ranking_fits(node_count as int, edges@, ranking_type),
    ensures
        (res is Some) == assign_fits(node_count as int, edges@, ranking_type),
        res is Some ==> res->0@ == assign_spec(node_count as int, edges@, ranking_type),
        res is Some ==> res->0@.len() == node_count,
        res is Some && layerable(edges@, node_count as int) ==> satisfies_edges(res->0@, edges@),
        res is Some && layerable(edges@, node_count as int) && ranking_type != RankingType::Original ==> forall|v: int|
            0 <= v < node_count && has_no_in_edge(edges@, v) && (ranking_type == RankingType::MinimizeEdgeLength
                || !has_no_out_edge(edges@, v)) ==> #[trigger] res->0@[v] == 0,
        res is Some && layerable(edges@, node_count as int) && (ranking_type == RankingType::Up || ranking_type
            == RankingType::Down) ==> forall|v: int, w: int|
            0 <= v < node_count && 0 <= w < node_count && has_no_out_edge(edges@, v) && has_no_out_edge(
                edges@,
                w,
            ) ==> #[trigger] res->0@[v] == #[trigger] res->0@[w],
        res is Some && ranking_type == RankingType::Original ==> forall|v: int| 0 <= v < node_count ==> #[trigger] res->0@[v] >= 0,
{
    if node_count == 0 {
        return Some(Vec::new());
    }
    let ghost n = node_count as int;
    let ghost l = len_abs_cap(edges@);
    let edge_count = edges.len();
    proof {
        assert(edges@.len() == edge_count);
        lemma_len_abs_cap(edges@);
        assert(n <= n + (n + 1) * l) by (nonlinear_arith)
            requires
                n >= 0,
                l >= 0,
        ;
        assert(non_flat_in_range(edges@, n)) by {
            assert forall|e: int| 0 <= e < edges@.len() && !edges@[e].flat implies edges@[e].tail < n
                && edges@[e].head < n by {
                assert(edges@[e].tail < n);
            }
        }
    }
    let topo = topo_order(node_count, edges);
    let (outgoing, incoming) = edge_lists(node_count, edges);
    let ghost respects = layerable(edges@, n);
    let ghost out_spec = out_lists(n, edges@);
    let ghost in_spec = in_lists(n, edges@);
    proof {
        assert(lists_of(n, edges@, outgoing@, false));
        assert(lists_of(n, edges@, incoming@, true));
        assert(lists_agree(outgoing@, out_spec)) by {
            assert forall|v: int| 0 <= v < outgoing@.len() implies (#[trigger] outgoing@[v])@ == out_spec[v]@ by {
                assert(outgoing@[v]@ == out_edge_ids(edges@, v as usize, edges@.len() as int));
                assert(out_spec[v]@ == out_edge_ids(edges@, v as usize, edges@.len() as int));
            }
        }
        assert(lists_agree(incoming@, in_spec)) by {
            assert forall|v: int| 0 <= v < incoming@.len() implies (#[trigger] incoming@[v])@ == in_spec[v]@ by {
                assert(incoming@[v]@ == in_edge_ids(edges@, v as usize, edges@.len() as int));
                assert(in_spec[v]@ == in_edge_ids(edges@, v as usize, edges@.len() as int));
            }
        }
        assert(nodes_below(topo@, n));
        assert(adjacency_in_range(n, topo@, outgoing@, edges@));
        assert(lists_in_range(n, edges@, incoming@, outgoing@));
        if respects {
            lemma_layerable_respects(n, edges@, topo@, outgoing@, incoming@);
        }
    }
    if ranking_type == RankingType::Original {
        let mut rank = zero_ranks(node_count);
        assert(rank@ =~= position_ranks(topo@, n, 0));
        let mut idx: usize = 0;
        while idx < topo.len()
            invariant
                idx <= topo@.len(),
                topo@.len() == n,
                n == node_count,
                rank@.len() == n,
                n + (n + 1) * l <= 0x4000_0000,
                l >= 0,
                n <= 0x4000_0000,
                forall|p: int| 0 <= p < topo@.len() ==> topo@[p] < n,
                forall|v: int| 0 <= v < n ==> 0 <= #[trigger] rank@[v] < n,
                rank@ == position_ranks(topo@, n, idx as int),
            decreases topo.len() - idx,
        {
            rank[topo[idx]] = idx as i32;
            idx = idx + 1;
        }
        proof {
            assert(n * l >= 0) by (nonlinear_arith)
                requires
                    n >= 0,
                    l >= 0,
            ;
            assert(abs_within(rank@, n));
            lemma_relax_fits(rank@, n, edges@, n, l);
        }
        let ghost before = rank@;
        relax_forward(rank.as_mut_slice(), &topo, &outgoing, edges);
        proof {
            lemma_relaxed_agree(before, topo@, outgoing@, out_spec, edges@, topo@.len() as int);
            if respects {
                lemma_listed_feasible_all(n, rank@, edges@, topo@, outgoing@, incoming@);
            }
            assert forall|v: int| 0 <= v < node_count implies #[trigger] rank@[v] >= 0 by {
                assert(before[v] >= 0);
            }
        }
        return Some(rank);
    }
    let sources = nodes_with_empty_list(&incoming);
    let sinks = nodes_with_empty_list(&outgoing);
    let rank = start_from_zero(node_count, edges, &topo, &outgoing, &incoming, &sources);
    let ghost start = rank@;
    let res = refine_and_balance(rank, node_count, edges, ranking_type, &topo, &outgoing, &incoming, &sources, &sinks);
    proof {
        lemma_empty_list_nodes_agree(incoming@, in_spec, n);
        lemma_empty_list_nodes_agree(outgoing@, out_spec, n);
        lemma_start_agree(n, topo@, sources@, outgoing@, out_spec, edges@);
        lemma_stage_fits_agree(start, ranking_type, topo@, sources@, sinks@, incoming@, in_spec, outgoing@, out_spec, edges@);
        if res is Some {
            lemma_finish_agree(start, ranking_type, topo@, sources@, sinks@, incoming@, in_spec, outgoing@, out_spec, edges@);
        }
        if respects {
            assert(topo_respects(topo@, outgoing@, edges@));
        }
    }
    res
}

pub fn assign_ranks(node_count: usize, edges: &[DirectedEdge], ranking_type: RankingType) -> (rank: Vec<i32>)
    requires
        ranking_type != RankingType::Hybrid,
        endpoints_in_range(edges@, node_count as int),
        assign_fits(node_count as int, edges@, ranking_type),
    ensures
        rank@ == assign_spec(node_count as int, edges@, ranking_type),
        rank@.len() == node_count,
        layerable(edges@, node_count as int) ==> satisfies_edges(rank@, edges@),
        layerable(edges@, node_count as int) && ranking_type != RankingType::Original ==> forall|v: int|
            0 <= v < node_count && has_no_in_edge(edges@, v) && (ranking_type == RankingType::MinimizeEdgeLength
                || !has_no_out_edge(edges@, v)) ==> #[trigger] rank@[v] == 0,
        layerable(edges@, node_count as int) && (ranking_type == RankingType::Up || ranking_type
            == RankingType::Down) ==> forall|v: int, w: int|
            0 <= v < node_count && 0 <= w < node_count && has_no_out_edge(edges@, v) && has_no_out_edge(
                edges@,
                w,
            ) ==> #[trigger] rank@[v] == #[trigger] rank@[w],
        ranking_type == RankingType::Original ==> forall|v: int| 0 <= v < node_count ==> #[trigger] rank@[v] >= 0,
{
    match assign_checked(node_count, edges, ranking_type) {
        Some(rank) => rank,
        None => {
            proof {
                assert(false);
            }
            Vec::new()
        },
    }
}

/// `assign_ranks` for inputs that may not fit: none when the lengths,
/// weights or node count are too large (`ranking_fits`) or the refinement
/// would leave the range its arithmetic works in (`stage_fits`); otherwise
/// the ranks `assign_ranks` gives.
pub fn try_assign_ranks(node_count: usize, edges: &[DirectedEdge], ranking_type: RankingType) -> (res: Option<
    Vec<i32>,
>)
    requires
        ranking_type != RankingType::Hybrid,
        endpoints_in_range(edges@, node_count as int),
    ensures
        (res is Some) == assign_fits(node_count as int, edges@, ranking_type),
        res is Some ==> res->0@ == assign_spec(node_count as int, edges@, ranking_type),
        res is Some ==> res->0@.len() == node_count,
        res is Some && layerable(edges@, node_count as int) ==> satisfies_edges(res->0@, edges@),
{
    if !ranking_fits_check(node_count, edges, ranking_type) {
        return None;
    }
    assign_checked(node_count, edges, ranking_type)
}

} // verus!
