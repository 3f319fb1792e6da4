//! Rank assignment: topological order, longest-path relaxation and the
//! balancing passes that pull ranks together while keeping every edge
//! feasible.
use vstd::prelude::*;

use crate::edges::DirectedEdge;

verus! {

/// Every listed node index and every listed edge index is in range.
pub open spec fn adjacency_in_range(
    n: int,
    topo: Seq<usize>,
    outgoing: Seq<Vec<usize>>,
    edges: Seq<DirectedEdge>,
) -> bool {
    &&& forall|p: int| 0 <= p < topo.len() ==> topo[p] < n && topo[p] < outgoing.len()
    &&& forall|t: int, k: int|
        0 <= t < outgoing.len() && 0 <= k < outgoing[t]@.len() ==> outgoing[t]@[k]
            < edges.len()
    &&& forall|t: int, k: int|
        0 <= t < outgoing.len() && 0 <= k < outgoing[t]@.len() ==> edges[outgoing[t]@[k] as int].head
            < n
}

/// The edge that is `k`-th in the outgoing list of node `t`.
pub open spec fn out_edge(outgoing: Seq<Vec<usize>>, edges: Seq<DirectedEdge>, t: int, k: int) -> DirectedEdge {
    edges[outgoing[t]@[k] as int]
}

/// No edge leaves a node of `topo` towards a node at the same or an earlier
/// position, except self-loops that ask for no rank gap.
#[verifier::opaque]
pub open spec fn topo_respects(
    topo: Seq<usize>,
    outgoing: Seq<Vec<usize>>,
    edges: Seq<DirectedEdge>,
) -> bool {
    forall|p: int, q: int, k: int|
        0 <= p <= q < topo.len() && 0 <= k < outgoing[topo[q] as int]@.len() && out_edge(
            outgoing,
            edges,
            topo[q] as int,
            k,
        ).head == topo[p] ==> p == q && out_edge(outgoing, edges, topo[q] as int, k).min_len <= 0
}

/// Every edge listed out of a node of `topo` is satisfied by `rank`.
#[verifier::opaque]
pub open spec fn relaxed_edges_feasible(
    rank: Seq<i32>,
    topo: Seq<usize>,
    outgoing: Seq<Vec<usize>>,
    edges: Seq<DirectedEdge>,
) -> bool {
    forall|p: int, k: int|
        0 <= p < topo.len() && 0 <= k < outgoing[topo[p] as int]@.len() ==> rank[out_edge(
            outgoing,
            edges,
            topo[p] as int,
            k,
        ).head as int] >= rank[topo[p] as int] + out_edge(outgoing, edges, topo[p] as int, k).min_len
}

/// Every rank that differs from `old` is forced: it equals the rank of some
/// listed edge's tail plus that edge's minimum length.
#[verifier::opaque]
pub open spec fn raised_only_when_forced(
    old_rank: Seq<i32>,
    rank: Seq<i32>,
    topo: Seq<usize>,
    outgoing: Seq<Vec<usize>>,
    edges: Seq<DirectedEdge>,
) -> bool {
    forall|v: int|
        0 <= v < rank.len() ==> rank[v] == old_rank[v] || exists|p: int, k: int|
            0 <= p < topo.len() && 0 <= k < outgoing[topo[p] as int]@.len() && out_edge(
                outgoing,
                edges,
                topo[p] as int,
                k,
            ).head == v && rank[v] == rank[topo[p] as int] + out_edge(
                outgoing,
                edges,
                topo[p] as int,
                k,
            ).min_len
}

/// The additions that relaxation performs cannot overflow.
#[verifier::opaque]
pub open spec fn relax_fits(rank: Seq<i32>, steps: int, edges: Seq<DirectedEdge>) -> bool {
    &&& forall|i: int, e: int|
        0 <= i < rank.len() && 0 <= e < edges.len() ==> rank[i] + edges[e].min_len >= i32::MIN
    &&& forall|i: int, e: int|
        0 <= i < rank.len() && 0 <= e < edges.len() ==> rank[i] + (steps + 1) * edges[e].min_len
            <= i32::MAX
}

proof fn lemma_rank_max(s: Seq<i32>) -> (m: int)
    ensures
        forall|i: int| 0 <= i < s.len() ==> s[i] <= m,
        s.len() > 0 ==> exists|i: int| 0 <= i < s.len() && s[i] == m,
        s.len() == 0 ==> m == i32::MIN,
    decreases s.len(),
{
    if s.len() == 0 {
        i32::MIN as int
    } else {
        let m0 = lemma_rank_max(s.drop_last());
        let last = s[s.len() - 1] as int;
        if s.len() == 1 || last >= m0 {
            assert(forall|i: int| 0 <= i < s.len() - 1 ==> s[i] == s.drop_last()[i]);
            last
        } else {
            assert(forall|i: int| 0 <= i < s.len() - 1 ==> s[i] == s.drop_last()[i]);
            let w = choose|i: int| 0 <= i < s.drop_last().len() && s.drop_last()[i] == m0;
            assert(s[w] == m0);
            m0
        }
    }
}

proof fn lemma_len_max(edges: Seq<DirectedEdge>) -> (l: int)
    ensures
        l >= 0,
        forall|e: int| 0 <= e < edges.len() ==> edges[e].min_len <= l,
        l == 0 || exists|e: int| 0 <= e < edges.len() && edges[e].min_len == l,
    decreases edges.len(),
{
    if edges.len() == 0 {
        0
    } else {
        let l0 = lemma_len_max(edges.drop_last());
        assert(forall|e: int| 0 <= e < edges.len() - 1 ==> edges[e] == edges.drop_last()[e]);
        let last = edges[edges.len() - 1].min_len as int;
        if last > l0 {
            last
        } else {
            if l0 != 0 {
                let w = choose|e: int| 0 <= e < edges.drop_last().len() && edges.drop_last()[e].min_len == l0;
                assert(edges[w].min_len == l0);
            }
            l0
        }
    }
}

/// Bounds derived from `relax_fits`: every rank stays at most `m + (steps + 1) * l`.
proof fn lemma_relax_bounds(rank: Seq<i32>, steps: int, edges: Seq<DirectedEdge>) -> (ml: (int, int))
    requires
        relax_fits(rank, steps, edges),
        steps >= 0,
    ensures
        forall|i: int| 0 <= i < rank.len() ==> rank[i] <= ml.0,
        forall|i: int, e: int|
            0 <= i < rank.len() && 0 <= e < edges.len() ==> rank[i] + edges[e].min_len >= i32::MIN,
        ml.1 >= 0,
        forall|e: int| 0 <= e < edges.len() ==> edges[e].min_len <= ml.1,
        ml.0 + (steps + 1) * ml.1 <= i32::MAX,
        rank.len() > 0 ==> exists|i: int| 0 <= i < rank.len() && rank[i] == ml.0,
        ml.1 == 0 || exists|e: int| 0 <= e < edges.len() && edges[e].min_len == ml.1,
{
    reveal(relax_fits);
    let m = lemma_rank_max(rank);
    let l = lemma_len_max(edges);
    if l == 0 {
        assert((steps + 1) * l == 0) by (nonlinear_arith) requires l == 0;
    } else if rank.len() == 0 {
        return (i32::MAX - (steps + 1) * l, l);
    } else {
        let i = choose|i: int| 0 <= i < rank.len() && rank[i] == m;
        let e = choose|e: int| 0 <= e < edges.len() && edges[e].min_len == l;
        assert(rank[i] + (steps + 1) * edges[e].min_len <= i32::MAX);
    }
    (m, l)
}


/// `rank` after raising, for each of the first `k` edges listed in `outs` in
/// turn, the edge's head to `base` plus the edge's minimum length where that
/// is higher.
pub open spec fn raise_heads(rank: Seq<i32>, base: int, outs: Seq<usize>, edges: Seq<DirectedEdge>, k: int) -> Seq<i32>
    decreases k,
{
    if k <= 0 {
        rank
    } else {
        let r = raise_heads(rank, base, outs, edges, k - 1);
        let e = edges[outs[k - 1] as int];
        if base + e.min_len > r[e.head as int] {
            r.update(e.head as int, (base + e.min_len) as i32)
        } else {
            r
        }
    }
}

/// `rank` after the edges out of the first `p` nodes of `topo` were relaxed,
/// node after node, each from the node's rank when its turn comes.
pub open spec fn relaxed_upto(
    rank: Seq<i32>,
    topo: Seq<usize>,
    outgoing: Seq<Vec<usize>>,
    edges: Seq<DirectedEdge>,
    p: int,
) -> Seq<i32>
    decreases p,
{
    if p <= 0 {
        rank
    } else {
        let r = relaxed_upto(rank, topo, outgoing, edges, p - 1);
        let node = topo[p - 1] as int;
        raise_heads(r, r[node] as int, outgoing[node]@, edges, outgoing[node]@.len() as int)
    }
}

/// Raises the head of every edge listed in `outs` to at least
/// `rank[node]` (as it was on entry) plus the edge's minimum length.
fn relax_out_edges(rank: &mut [i32], node: usize, outs: &Vec<usize>, edges: &[DirectedEdge], Ghost(cap): Ghost<int>)
    requires
        node < old(rank)@.len(),
        cap <= i32::MAX,
        forall|k: int| 0 <= k < outs@.len() ==> outs@[k] < edges@.len(),
        forall|k: int| 0 <= k < outs@.len() ==> edges@[outs@[k] as int].head < old(rank)@.len(),
        forall|k: int| 0 <= k < outs@.len() ==> old(rank)@[node as int] + edges@[outs@[k] as int].min_len >= i32::MIN,
        forall|k: int| 0 <= k < outs@.len() ==> old(rank)@[node as int] + edges@[outs@[k] as int].min_len <= cap,
    ensures
        final(rank)@.len() == old(rank)@.len(),
        forall|v: int| 0 <= v < old(rank)@.len() ==> old(rank)@[v] <= #[trigger] final(rank)@[v],
        forall|v: int| 0 <= v < old(rank)@.len() ==> final(rank)@[v] == old(rank)@[v] || final(rank)@[v] <= cap,
        forall|k: int| 0 <= k < outs@.len() ==> final(rank)@[edges@[outs@[k] as int].head as int]
            >= old(rank)@[node as int] + edges@[outs@[k] as int].min_len,
        forall|v: int| 0 <= v < old(rank)@.len() && final(rank)@[v] != old(rank)@[v] ==> exists|k: int|
            0 <= k < outs@.len() && edges@[outs@[k] as int].head == v && final(rank)@[v]
                == old(rank)@[node as int] + edges@[outs@[k] as int].min_len,
        final(rank)@ == raise_heads(old(rank)@, old(rank)@[node as int] as int, outs@, edges@, outs@.len() as int),
{
    let base = rank[node];
    let ghost start = rank@;
    let mut k: usize = 0;
    while k < outs.len()
        invariant
            k <= outs@.len(),
            base == start[node as int],
            node < start.len(),
            cap <= i32::MAX,
            forall|kk: int| 0 <= kk < outs@.len() ==> outs@[kk] < edges@.len(),
            forall|kk: int| 0 <= kk < outs@.len() ==> edges@[outs@[kk] as int].head < start.len(),
            forall|kk: int| 0 <= kk < outs@.len() ==> start[node as int] + edges@[outs@[kk] as int].min_len >= i32::MIN,
            forall|kk: int| 0 <= kk < outs@.len() ==> start[node as int] + edges@[outs@[kk] as int].min_len <= cap,
            rank@.len() == start.len(),
            forall|v: int| 0 <= v < rank@.len() ==> start[v] <= #[trigger] rank@[v],
            forall|v: int| 0 <= v < rank@.len() ==> rank@[v] == start[v] || rank@[v] <= cap,
            forall|kk: int| 0 <= kk < k ==> rank@[edges@[outs@[kk] as int].head as int]
                >= base + edges@[outs@[kk] as int].min_len,
            forall|v: int| 0 <= v < rank@.len() && rank@[v] != start[v] ==> exists|kk: int|
                0 <= kk < k && edges@[outs@[kk] as int].head == v && rank@[v]
                    == base + edges@[outs@[kk] as int].min_len,
            rank@ == raise_heads(start, base as int, outs@, edges@, k as int),
        decreases outs.len() - k,
    {
        let edge = &edges[outs[k]];
        let candidate = base + edge.min_len;
        if candidate > rank[edge.head] {
            let ghost prev = rank@;
            rank[edge.head] = candidate;
            assert forall|v: int| 0 <= v < rank@.len() && rank@[v] != start[v] implies exists|kk: int|
                0 <= kk < k + 1 && edges@[outs@[kk] as int].head == v && rank@[v]
                    == base + edges@[outs@[kk] as int].min_len by {
                if v != edge.head as int {
                    assert(prev[v] != start[v]);
                } else {
                    assert(edges@[outs@[k as int] as int].head == v);
                }
            }
        }
        k = k + 1;
    }
}

/// Longest-path relaxation in `topo` order: every edge out of a node raises its
/// head to at least the node's rank plus the edge's minimum length.
///
/// Ranks only grow. When `topo` has no edge pointing back to an earlier (or the
/// same) node, every listed edge ends up feasible and every raised rank is
/// exactly what some edge forces.
#[verifier::spinoff_prover]
pub fn relax_forward(rank: &mut [i32], topo: &[usize], outgoing: &[Vec<usize>], edges: &[DirectedEdge])
    requires
        adjacency_in_range(old(rank)@.len() as int, topo@, outgoing@, edges@),
        relax_fits(old(rank)@, topo@.len() as int, edges@),
    ensures
        final(rank)@.len() == old(rank)@.len(),
        forall|v: int| 0 <= v < old(rank)@.len() ==> final(rank)@[v] >= old(rank)@[v],
        topo_respects(topo@, outgoing@, edges@) ==> relaxed_edges_feasible(
            final(rank)@,
            topo@,
            outgoing@,
            edges@,
        ),
        topo_respects(topo@, outgoing@, edges@) ==> raised_only_when_forced(
            old(rank)@,
            final(rank)@,
            topo@,
            outgoing@,
            edges@,
        ),
        old(rank)@.len() > 0 ==> forall|v: int|
            0 <= v < old(rank)@.len() ==> final(rank)@[v] <= max_of(old(rank)@) + topo@.len() * len_cap(
                edges@,
            ),
        relaxed_edges_feasible(old(rank)@, topo@, outgoing@, edges@) ==> final(rank)@ == old(rank)@,
        final(rank)@ == relaxed_upto(old(rank)@, topo@, outgoing@, edges@, topo@.len() as int),
{
    let ghost old_rank = rank@;
    let ghost feas = relaxed_edges_feasible(old_rank, topo@, outgoing@, edges@);
    let ghost (m, l) = lemma_relax_bounds(rank@, topo@.len() as int, edges@);
    let ghost mut cur_cap: int = m;
    let ghost cond = topo_respects(topo@, outgoing@, edges@);
    proof {
        lemma_relax_init(old_rank, topo@, outgoing@, edges@);
    }
    let mut p: usize = 0;
    while p < topo.len()
        invariant
            p <= topo.len(),
            cond == topo_respects(topo@, outgoing@, edges@),
            cond ==> relaxed_prefix_feasible(rank@, topo@, outgoing@, edges@, p as int),
            cond ==> raised_by_prefix(old_rank, rank@, topo@, outgoing@, edges@, p as int),
            feas == relaxed_edges_feasible(old_rank, topo@, outgoing@, edges@),
            feas ==> rank@ == old_rank,
            adjacency_in_range(old_rank.len() as int, topo@, outgoing@, edges@),
            forall|i: int, e: int|
                0 <= i < old_rank.len() && 0 <= e < edges@.len() ==> old_rank[i] + edges@[e].min_len >= i32::MIN,
            l >= 0,
            forall|e: int| 0 <= e < edges@.len() ==> edges@[e].min_len <= l,
            cur_cap + (topo@.len() - p + 1) * l <= i32::MAX,
            cur_cap == m + p * l,
            rank@.len() == old_rank.len(),
            forall|v: int| 0 <= v < rank@.len() ==> old_rank[v] <= #[trigger] rank@[v] <= cur_cap,
            rank@ == relaxed_upto(old_rank, topo@, outgoing@, edges@, p as int),
        decreases topo.len() - p,
    {
        let node = topo[p];
        let ghost start = rank@;
        proof {
            lemma_step_bound(cur_cap, l, p as int, topo@.len() as int);
        }
        relax_out_edges(rank, node, &outgoing[node], edges, Ghost(cur_cap + l));
        proof {
            if feas {
                assert(rank@ =~= start) by {
                    reveal(relaxed_edges_feasible);
                    assert forall|v: int| 0 <= v < rank@.len() implies rank@[v] == start[v] by {
                        if rank@[v] != start[v] {
                            let kk = choose|kk: int|
                                0 <= kk < outgoing@[node as int]@.len() && edges@[outgoing@[node as int]@[kk] as int].head
                                    == v && rank@[v] == start[node as int] + edges@[outgoing@[node as int]@[kk] as int].min_len;
                            assert(old_rank[out_edge(outgoing@, edges@, topo@[p as int] as int, kk).head as int]
                                >= old_rank[topo@[p as int] as int] + out_edge(outgoing@, edges@, topo@[p as int] as int, kk).min_len);
                        }
                    }
                }
            }
            if cond {
                lemma_relax_step(old_rank, start, rank@, topo@, outgoing@, edges@, p as int);
            }
            assert(m + p * l + l == m + (p + 1) * l) by (nonlinear_arith);
            cur_cap = cur_cap + l;
        }
        p = p + 1;
    }
    proof {
        if cond {
            lemma_relax_done(old_rank, rank@, topo@, outgoing@, edges@);
        }
        if old_rank.len() > 0 {
            lemma_max_min_of(old_rank);
            lemma_len_cap(edges@);
            assert(m <= max_of(old_rank)) by {
                let i = choose|i: int| 0 <= i < old_rank.len() && old_rank[i] == m;
                assert(old_rank[i] <= max_of(old_rank));
            }
            assert(l <= len_cap(edges@)) by {
                if l != 0 {
                    let e = choose|e: int| 0 <= e < edges@.len() && edges@[e].min_len == l;
                }
            }
            let tl = topo@.len() as int;
            let lc = len_cap(edges@);
            assert(tl * l <= tl * lc) by (nonlinear_arith)
                requires
                    tl >= 0,
                    l <= lc,
            ;
        }
    }
}

/// The largest minimum length of an edge, or zero.
pub open spec fn len_cap(edges: Seq<DirectedEdge>) -> int
    decreases edges.len(),
{
    if edges.len() == 0 {
        0
    } else {
        let c = len_cap(edges.drop_last());
        if edges.last().min_len > c {
            edges.last().min_len as int
        } else {
            c
        }
    }
}

pub proof fn lemma_len_cap(edges: Seq<DirectedEdge>)
    ensures
        len_cap(edges) >= 0,
        forall|e: int| 0 <= e < edges.len() ==> #[trigger] edges[e].min_len <= len_cap(edges),
        len_cap(edges) == 0 || exists|e: int| 0 <= e < edges.len() && edges[e].min_len == len_cap(edges),
    decreases edges.len(),
{
    if edges.len() > 0 {
        lemma_len_cap(edges.drop_last());
        assert(forall|e: int| 0 <= e < edges.len() - 1 ==> edges[e] == edges.drop_last()[e]);
        if len_cap(edges) != 0 && len_cap(edges) == len_cap(edges.drop_last()) {
            let e = choose|e: int| 0 <= e < edges.drop_last().len() && edges.drop_last()[e].min_len == len_cap(edges.drop_last());
            assert(edges[e].min_len == len_cap(edges));
        }
    }
}

pub(crate) proof fn lemma_relax_init(rank: Seq<i32>, topo: Seq<usize>, outgoing: Seq<Vec<usize>>, edges: Seq<DirectedEdge>)
    ensures
        relaxed_prefix_feasible(rank, topo, outgoing, edges, 0),
        raised_by_prefix(rank, rank, topo, outgoing, edges, 0),
{
    reveal(relaxed_prefix_feasible);
    reveal(raised_by_prefix);
}

pub(crate) proof fn lemma_relax_done(
    old_rank: Seq<i32>,
    rank: Seq<i32>,
    topo: Seq<usize>,
    outgoing: Seq<Vec<usize>>,
    edges: Seq<DirectedEdge>,
)
    requires
        relaxed_prefix_feasible(rank, topo, outgoing, edges, topo.len() as int),
        raised_by_prefix(old_rank, rank, topo, outgoing, edges, topo.len() as int),
    ensures
        relaxed_edges_feasible(rank, topo, outgoing, edges),
        raised_only_when_forced(old_rank, rank, topo, outgoing, edges),
{
    reveal(relaxed_prefix_feasible);
    reveal(raised_by_prefix);
    reveal(relaxed_edges_feasible);
    reveal(raised_only_when_forced);
}

/// Edges out of the first `p` nodes of `topo` are satisfied.
#[verifier::opaque]
pub open spec fn relaxed_prefix_feasible(
    rank: Seq<i32>,
    topo: Seq<usize>,
    outgoing: Seq<Vec<usize>>,
    edges: Seq<DirectedEdge>,
    p: int,
) -> bool {
    forall|pp: int, k: int|
        0 <= pp < p && 0 <= k < outgoing[topo[pp] as int]@.len() ==> rank[out_edge(
            outgoing,
            edges,
            topo[pp] as int,
            k,
        ).head as int] >= rank[topo[pp] as int] + out_edge(outgoing, edges, topo[pp] as int, k).min_len
}

/// Every rank that moved away from `old_rank` is forced by an edge out of one
/// of the first `p` nodes of `topo`.
#[verifier::opaque]
pub open spec fn raised_by_prefix(
    old_rank: Seq<i32>,
    rank: Seq<i32>,
    topo: Seq<usize>,
    outgoing: Seq<Vec<usize>>,
    edges: Seq<DirectedEdge>,
    p: int,
) -> bool {
    forall|v: int|
        0 <= v < rank.len() ==> rank[v] == old_rank[v] || exists|pp: int, k: int|
            0 <= pp < p && 0 <= k < outgoing[topo[pp] as int]@.len() && out_edge(
                outgoing,
                edges,
                topo[pp] as int,
                k,
            ).head == v && rank[v] == rank[topo[pp] as int] + out_edge(
                outgoing,
                edges,
                topo[pp] as int,
                k,
            ).min_len
}

proof fn lemma_step_bound(c: int, l: int, p: int, n: int)
    requires
        0 <= p < n,
        l >= 0,
        c + (n - p + 1) * l <= i32::MAX,
    ensures
        c + l <= i32::MAX,
        (c + l) + (n - (p + 1) + 1) * l <= i32::MAX,
{
    assert((n - p + 1) * l == (n - (p + 1) + 1) * l + l) by (nonlinear_arith);
    assert((n - (p + 1) + 1) * l >= 0) by (nonlinear_arith)
        requires p < n, l >= 0;
}

#[verifier::spinoff_prover]
pub(crate) proof fn lemma_relax_step(
    old_rank: Seq<i32>,
    start: Seq<i32>,
    rank: Seq<i32>,
    topo: Seq<usize>,
    outgoing: Seq<Vec<usize>>,
    edges: Seq<DirectedEdge>,
    p: int,
)
    requires
        0 <= p < topo.len(),
        topo_respects(topo, outgoing, edges),
        adjacency_in_range(old_rank.len() as int, topo, outgoing, edges),
        start.len() == old_rank.len(),
        rank.len() == old_rank.len(),
        forall|v: int| 0 <= v < start.len() ==> old_rank[v] <= #[trigger] start[v],
        forall|v: int| 0 <= v < start.len() ==> start[v] <= #[trigger] rank[v],
        relaxed_prefix_feasible(start, topo, outgoing, edges, p),
        raised_by_prefix(old_rank, start, topo, outgoing, edges, p),
        forall|k: int| 0 <= k < outgoing[topo[p] as int]@.len() ==> rank[edges[outgoing[topo[p] as int]@[k] as int].head as int]
            >= start[topo[p] as int] + edges[outgoing[topo[p] as int]@[k] as int].min_len,
        forall|v: int| 0 <= v < start.len() && rank[v] != start[v] ==> exists|k: int|
            0 <= k < outgoing[topo[p] as int]@.len() && edges[outgoing[topo[p] as int]@[k] as int].head == v
                && rank[v] == start[topo[p] as int] + edges[outgoing[topo[p] as int]@[k] as int].min_len,
    ensures
        relaxed_prefix_feasible(rank, topo, outgoing, edges, p + 1),
        raised_by_prefix(old_rank, rank, topo, outgoing, edges, p + 1),
{
    let node = topo[p] as int;
    lemma_relax_frozen(start, rank, topo, outgoing, edges, p);
    lemma_relax_feasible_step(start, rank, topo, outgoing, edges, p);
    lemma_relax_forced_step(old_rank, start, rank, topo, outgoing, edges, p);
}

#[verifier::spinoff_prover]
proof fn lemma_relax_frozen(
    start: Seq<i32>,
    rank: Seq<i32>,
    topo: Seq<usize>,
    outgoing: Seq<Vec<usize>>,
    edges: Seq<DirectedEdge>,
    p: int,
)
    requires
        0 <= p < topo.len(),
        topo_respects(topo, outgoing, edges),
        adjacency_in_range(start.len() as int, topo, outgoing, edges),
        rank.len() == start.len(),
        forall|v: int| 0 <= v < start.len() ==> start[v] <= #[trigger] rank[v],
        forall|v: int| 0 <= v < start.len() && rank[v] != start[v] ==> exists|k: int|
            0 <= k < outgoing[topo[p] as int]@.len() && edges[outgoing[topo[p] as int]@[k] as int].head == v
                && rank[v] == start[topo[p] as int] + edges[outgoing[topo[p] as int]@[k] as int].min_len,
    ensures
        forall|pp: int| 0 <= pp <= p ==> rank[#[trigger] topo[pp] as int] == start[topo[pp] as int],
{
    assert forall|pp: int| 0 <= pp <= p implies rank[#[trigger] topo[pp] as int] == start[topo[pp] as int] by {
        let v = topo[pp] as int;
        if rank[v] != start[v] {
            let k = choose|k: int|
                0 <= k < outgoing[topo[p] as int]@.len() && edges[outgoing[topo[p] as int]@[k] as int].head == v
                    && rank[v] == start[topo[p] as int] + edges[outgoing[topo[p] as int]@[k] as int].min_len;
            reveal(topo_respects);
            assert(out_edge(outgoing, edges, topo[p] as int, k).head == topo[pp]);
            assert(pp == p);
            assert(out_edge(outgoing, edges, topo[p] as int, k).min_len <= 0);
        }
    }
}

#[verifier::spinoff_prover]
proof fn lemma_relax_feasible_step(
    start: Seq<i32>,
    rank: Seq<i32>,
    topo: Seq<usize>,
    outgoing: Seq<Vec<usize>>,
    edges: Seq<DirectedEdge>,
    p: int,
)
    requires
        0 <= p < topo.len(),
        adjacency_in_range(start.len() as int, topo, outgoing, edges),
        rank.len() == start.len(),
        forall|v: int| 0 <= v < start.len() ==> start[v] <= #[trigger] rank[v],
        forall|pp: int| 0 <= pp <= p ==> rank[#[trigger] topo[pp] as int] == start[topo[pp] as int],
        relaxed_prefix_feasible(start, topo, outgoing, edges, p),
        forall|k: int| 0 <= k < outgoing[topo[p] as int]@.len() ==> rank[edges[outgoing[topo[p] as int]@[k] as int].head as int]
            >= start[topo[p] as int] + edges[outgoing[topo[p] as int]@[k] as int].min_len,
    ensures
        relaxed_prefix_feasible(rank, topo, outgoing, edges, p + 1),
{
    reveal(relaxed_prefix_feasible);
    assert forall|pp: int, k: int|
        0 <= pp < p + 1 && 0 <= k < outgoing[topo[pp] as int]@.len() implies rank[out_edge(
            outgoing,
            edges,
            topo[pp] as int,
            k,
        ).head as int] >= rank[topo[pp] as int] + out_edge(outgoing, edges, topo[pp] as int, k).min_len by {
        let t = topo[pp] as int;
        let h = out_edge(outgoing, edges, t, k).head as int;
        assert(rank[topo[pp] as int] == start[topo[pp] as int]);
        if pp < p {
            assert(start[h] >= start[t] + out_edge(outgoing, edges, t, k).min_len);
            assert(start[h] <= rank[h]);
        } else {
            assert(rank[edges[outgoing[topo[p] as int]@[k] as int].head as int]
                >= start[topo[p] as int] + edges[outgoing[topo[p] as int]@[k] as int].min_len);
        }
    }
}

#[verifier::spinoff_prover]
proof fn lemma_relax_forced_step(
    old_rank: Seq<i32>,
    start: Seq<i32>,
    rank: Seq<i32>,
    topo: Seq<usize>,
    outgoing: Seq<Vec<usize>>,
    edges: Seq<DirectedEdge>,
    p: int,
)
    requires
        0 <= p < topo.len(),
        adjacency_in_range(start.len() as int, topo, outgoing, edges),
        start.len() == old_rank.len(),
        rank.len() == start.len(),
        forall|pp: int| 0 <= pp <= p ==> rank[#[trigger] topo[pp] as int] == start[topo[pp] as int],
        raised_by_prefix(old_rank, start, topo, outgoing, edges, p),
        forall|v: int| 0 <= v < start.len() && rank[v] != start[v] ==> exists|k: int|
            0 <= k < outgoing[topo[p] as int]@.len() && edges[outgoing[topo[p] as int]@[k] as int].head == v
                && rank[v] == start[topo[p] as int] + edges[outgoing[topo[p] as int]@[k] as int].min_len,
    ensures
        raised_by_prefix(old_rank, rank, topo, outgoing, edges, p + 1),
{
    reveal(raised_by_prefix);
    assert forall|v: int| 0 <= v < rank.len() implies rank[v] == old_rank[v] || exists|pp: int, k: int|
        0 <= pp < p + 1 && 0 <= k < outgoing[topo[pp] as int]@.len() && out_edge(
            outgoing,
            edges,
            topo[pp] as int,
            k,
        ).head == v && rank[v] == rank[topo[pp] as int] + out_edge(outgoing, edges, topo[pp] as int, k).min_len by {
        if rank[v] != start[v] {
            let k = choose|k: int|
                0 <= k < outgoing[topo[p] as int]@.len() && edges[outgoing[topo[p] as int]@[k] as int].head == v
                    && rank[v] == start[topo[p] as int] + edges[outgoing[topo[p] as int]@[k] as int].min_len;
            assert(rank[topo[p] as int] == start[topo[p] as int]);
            assert(out_edge(outgoing, edges, topo[p] as int, k).head == v);
        } else if rank[v] != old_rank[v] {
            let (pp, k) = choose|pp: int, k: int|
                0 <= pp < p && 0 <= k < outgoing[topo[pp] as int]@.len() && out_edge(
                    outgoing,
                    edges,
                    topo[pp] as int,
                    k,
                ).head == v && start[v] == start[topo[pp] as int] + out_edge(
                    outgoing,
                    edges,
                    topo[pp] as int,
                    k,
                ).min_len;
            assert(rank[topo[pp] as int] == start[topo[pp] as int]);
        }
    }
}


/// Largest entry of a non-empty rank sequence.
pub open spec fn max_of(s: Seq<i32>) -> int
    decreases s.len(),
{
    if s.len() <= 1 {
        if s.len() == 1 {
            s[0] as int
        } else {
            0
        }
    } else {
        let m = max_of(s.drop_last());
        if s.last() > m {
            s.last() as int
        } else {
            m
        }
    }
}

/// Smallest entry of a non-empty rank sequence.
pub open spec fn min_of(s: Seq<i32>) -> int
    decreases s.len(),
{
    if s.len() <= 1 {
        if s.len() == 1 {
            s[0] as int
        } else {
            0
        }
    } else {
        let m = min_of(s.drop_last());
        if s.last() < m {
            s.last() as int
        } else {
            m
        }
    }
}

pub proof fn lemma_max_min_of(s: Seq<i32>)
    requires
        s.len() > 0,
    ensures
        forall|i: int| 0 <= i < s.len() ==> min_of(s) <= #[trigger] s[i] <= max_of(s),
        exists|i: int| 0 <= i < s.len() && s[i] == max_of(s),
        exists|i: int| 0 <= i < s.len() && s[i] == min_of(s),
    decreases s.len(),
{
    if s.len() > 1 {
        lemma_max_min_of(s.drop_last());
        assert(forall|i: int| 0 <= i < s.len() - 1 ==> s[i] == s.drop_last()[i]);
        let a = choose|i: int| 0 <= i < s.drop_last().len() && s.drop_last()[i] == max_of(s.drop_last());
        let b = choose|i: int| 0 <= i < s.drop_last().len() && s.drop_last()[i] == min_of(s.drop_last());
        assert(s[a] == max_of(s.drop_last()));
        assert(s[b] == min_of(s.drop_last()));
    } else {
        assert(s[0] == max_of(s));
    }
}

/// The highest rank as a layer index: the largest rank, but at least zero.
pub fn max_rank(rank: &[i32]) -> (top: usize)
    ensures
        rank@.len() == 0 ==> top == 0,
        rank@.len() > 0 ==> top == (if max_of(rank@) > 0 {
            max_of(rank@)
        } else {
            0
        }),
{
    if rank.len() == 0 {
        return 0;
    }
    let mut best: i32 = rank[0];
    let mut i: usize = 1;
    while i < rank.len()
        invariant
            1 <= i <= rank@.len(),
            best == max_of(rank@.subrange(0, i as int)),
        decreases rank.len() - i,
    {
        proof {
            assert(rank@.subrange(0, i + 1).drop_last() =~= rank@.subrange(0, i as int));
        }
        if rank[i] > best {
            best = rank[i];
        }
        i = i + 1;
    }
    assert(rank@.subrange(0, rank@.len() as int) =~= rank@);
    if best > 0 {
        best as usize
    } else {
        0
    }
}

/// Shifts all ranks up so that the smallest one is zero, when some rank is
/// negative; otherwise leaves them alone.
pub fn normalize_ranks(rank: &mut [i32])
    requires
        old(rank)@.len() > 0 ==> max_of(old(rank)@) - min_of(old(rank)@) <= i32::MAX,
    ensures
        final(rank)@.len() == old(rank)@.len(),
        old(rank)@.len() == 0 || min_of(old(rank)@) >= 0 ==> final(rank)@ == old(rank)@,
        old(rank)@.len() > 0 && min_of(old(rank)@) < 0 ==> forall|i: int|
            0 <= i < old(rank)@.len() ==> final(rank)@[i] == old(rank)@[i] - min_of(old(rank)@),
{
    if rank.len() == 0 {
        return;
    }
    let ghost orig = rank@;
    proof {
        lemma_max_min_of(orig);
    }
    let mut lo: i32 = rank[0];
    let mut i: usize = 1;
    while i < rank.len()
        invariant
            1 <= i <= rank@.len(),
            rank@ == orig,
            lo == min_of(rank@.subrange(0, i as int)),
        decreases rank.len() - i,
    {
        proof {
            assert(rank@.subrange(0, i + 1).drop_last() =~= rank@.subrange(0, i as int));
        }
        if rank[i] < lo {
            lo = rank[i];
        }
        i = i + 1;
    }
    assert(rank@.subrange(0, rank@.len() as int) =~= rank@);
    if lo < 0 {
        let mut k: usize = 0;
        while k < rank.len()
            invariant
                k <= rank@.len(),
                rank@.len() == orig.len(),
                lo == min_of(orig),
                lo < 0,
                forall|j: int| 0 <= j < orig.len() ==> min_of(orig) <= #[trigger] orig[j] <= max_of(orig),
                max_of(orig) - min_of(orig) <= i32::MAX,
                forall|j: int| 0 <= j < k ==> rank@[j] == orig[j] - lo,
                forall|j: int| k <= j < orig.len() ==> rank@[j] == orig[j],
            decreases rank.len() - k,
        {
            assert(orig[k as int] <= max_of(orig));
            rank[k] = rank[k] - lo;
            k = k + 1;
        }
    }
}

} // verus!
