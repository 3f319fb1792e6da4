//! How far refinement and compaction can move ranks. With lengths that are
//! not negative, every sweep keeps each rank between the two sentinels that
//! stand for a missing bound; the first pass leaves every edge feasible; and
//! from then on every settle keeps each rank below what it was or below the
//! longest chain of lengths.
use vstd::prelude::*;

use crate::assign::{edge_lists_exact, endpoints_in_range};
use crate::edges::DirectedEdge;
use crate::ranking::{
    adjacency_in_range, len_cap, lemma_len_cap, lemma_relax_done, lemma_relax_init, lemma_relax_step, out_edge, raise_heads,
    raised_by_prefix, relaxed_edges_feasible, relaxed_prefix_feasible, relaxed_upto, topo_respects,
};
use crate::simplex::{
    abs_within, in_center_num, lemma_max_abs, max_abs, round_half_away, unit_weight, weight_count, backward_sweep_spec, compact_passes, compact_phase, compact_stays_within, sweep_limit, ceiling_from, center_passes, center_phase, center_states_within, center_sweep_spec, center_target,
    floor_from, pinned_at_zero, pivot_phase, pivot_rounds, pivot_states_within, pivot_sweep_spec, pivot_target,
    refine_stays_within, settle_spec,
};

verus! {

/// Every minimum length lies between zero and `l`.
pub open spec fn lens_between(edges: Seq<DirectedEdge>, l: int) -> bool {
    forall|e: int| 0 <= e < edges.len() ==> 0 <= (#[trigger] edges[e]).min_len <= l
}

proof fn lemma_floor_member(ids: Seq<usize>, edges: Seq<DirectedEdge>, rank: Seq<i32>, k: int)
    requires
        0 <= k < ids.len(),
    ensures
        floor_from(ids, edges, rank) >= rank[edges[ids[k] as int].tail as int] + edges[ids[k] as int].min_len,
    decreases ids.len(),
{
    if k < ids.len() - 1 {
        lemma_floor_member(ids.drop_last(), edges, rank, k);
        assert(ids.drop_last()[k] == ids[k]);
    }
}

proof fn lemma_ceiling_member(ids: Seq<usize>, edges: Seq<DirectedEdge>, rank: Seq<i32>, k: int)
    requires
        0 <= k < ids.len(),
    ensures
        ceiling_from(ids, edges, rank) <= rank[edges[ids[k] as int].head as int] - edges[ids[k] as int].min_len,
    decreases ids.len(),
{
    if k < ids.len() - 1 {
        lemma_ceiling_member(ids.drop_last(), edges, rank, k);
        assert(ids.drop_last()[k] == ids[k]);
    }
}

/// What raising the heads of the first `k` listed edges does: no rank goes
/// down, each head ends at least at `base` plus the edge's length, and each
/// rank that moved equals `base` plus the length of a listed edge into it.
proof fn lemma_raise_heads(rank: Seq<i32>, base: int, outs: Seq<usize>, edges: Seq<DirectedEdge>, k: int)
    requires
        0 <= k <= outs.len(),
        forall|j: int| 0 <= j < k ==> edges[#[trigger] outs[j] as int].head < rank.len(),
        forall|j: int| 0 <= j < k ==> i32::MIN <= base + edges[#[trigger] outs[j] as int].min_len <= i32::MAX,
    ensures
        raise_heads(rank, base, outs, edges, k).len() == rank.len(),
        forall|v: int| 0 <= v < rank.len() ==> rank[v] <= #[trigger] raise_heads(rank, base, outs, edges, k)[v],
        forall|j: int| 0 <= j < k ==> raise_heads(rank, base, outs, edges, k)[edges[#[trigger] outs[j] as int].head as int]
            >= base + edges[outs[j] as int].min_len,
        forall|v: int| 0 <= v < rank.len() && #[trigger] raise_heads(rank, base, outs, edges, k)[v] != rank[v] ==> exists|j: int|
            0 <= j < k && edges[outs[j] as int].head == v && raise_heads(rank, base, outs, edges, k)[v]
                == base + edges[outs[j] as int].min_len,
    decreases k,
{
    if k > 0 {
        lemma_raise_heads(rank, base, outs, edges, k - 1);
        let r = raise_heads(rank, base, outs, edges, k - 1);
        let res = raise_heads(rank, base, outs, edges, k);
        let e = edges[outs[k - 1] as int];
        assert forall|v: int| 0 <= v < rank.len() && #[trigger] res[v] != rank[v] implies exists|j: int|
            0 <= j < k && edges[outs[j] as int].head == v && res[v] == base + edges[outs[j] as int].min_len by {
            if res[v] != r[v] {
                assert(v == e.head);
                assert(edges[outs[k - 1] as int].head == v);
            } else {
                let j = choose|j: int|
                    0 <= j < k - 1 && edges[outs[j] as int].head == v && r[v] == base + edges[outs[j] as int].min_len;
            }
        }
    }
}

/// Relaxing the first `p` nodes of `topo`, from `rank` with some nodes put
/// at zero, raises no rank above both its value in the feasible `rank` and
/// `p` times the longest length; when `topo` lists no edge backwards the
/// edges out of those nodes end feasible.
proof fn lemma_relax_bounded(
    rank: Seq<i32>,
    start: Seq<i32>,
    topo: Seq<usize>,
    outgoing: Seq<Vec<usize>>,
    edges: Seq<DirectedEdge>,
    l: int,
    p: int,
)
    requires
        0 <= p <= topo.len(),
        start.len() == rank.len(),
        forall|v: int| 0 <= v < rank.len() ==> #[trigger] start[v] == rank[v] || start[v] == 0,
        adjacency_in_range(rank.len() as int, topo, outgoing, edges),
        relaxed_edges_feasible(rank, topo, outgoing, edges),
        abs_within(rank, 0x2000_0000),
        lens_between(edges, l),
        0 <= l,
        topo.len() * l <= 0x2000_0000,
    ensures
        relaxed_upto(start, topo, outgoing, edges, p).len() == rank.len(),
        forall|v: int| 0 <= v < rank.len() ==> start[v] <= #[trigger] relaxed_upto(start, topo, outgoing, edges, p)[v],
        forall|v: int|
            0 <= v < rank.len() ==> #[trigger] relaxed_upto(start, topo, outgoing, edges, p)[v] <= rank[v]
                || relaxed_upto(start, topo, outgoing, edges, p)[v] <= p * l,
        topo_respects(topo, outgoing, edges) ==> relaxed_prefix_feasible(
            relaxed_upto(start, topo, outgoing, edges, p),
            topo,
            outgoing,
            edges,
            p,
        ) && raised_by_prefix(start, relaxed_upto(start, topo, outgoing, edges, p), topo, outgoing, edges, p),
    decreases p,
{
    if p == 0 {
        lemma_relax_init(start, topo, outgoing, edges);
    } else {
        lemma_relax_bounded(rank, start, topo, outgoing, edges, l, p - 1);
        let cur = relaxed_upto(start, topo, outgoing, edges, p - 1);
        let u = topo[p - 1] as int;
        let outs = outgoing[u]@;
        let base = cur[u] as int;
        let res = relaxed_upto(start, topo, outgoing, edges, p);
        assert((p - 1) * l + l == p * l) by (nonlinear_arith);
        assert(0 <= (p - 1) * l <= p * l <= topo.len() * l) by (nonlinear_arith)
            requires
                1 <= p <= topo.len(),
                0 <= l,
        ;
        assert(-0x2000_0000 <= base <= 0x2000_0000) by {
            assert(start[u] <= cur[u]);
            assert(start[u] == rank[u] || start[u] == 0);
        }
        assert forall|j: int| 0 <= j < outs.len() implies i32::MIN <= base + edges[#[trigger] outs[j] as int].min_len
            <= i32::MAX by {
            assert(outs[j] < edges.len());
            assert(0 <= edges[outs[j] as int].min_len <= l);
        }
        lemma_raise_heads(cur, base, outs, edges, outs.len() as int);
        assert(res == raise_heads(cur, base, outs, edges, outs.len() as int));
        assert forall|v: int| 0 <= v < rank.len() implies #[trigger] res[v] <= rank[v] || res[v] <= p * l by {
            if res[v] != cur[v] {
                let j = choose|j: int|
                    0 <= j < outs.len() && edges[outs[j] as int].head == v && res[v] == base + edges[outs[j] as int].min_len;
                assert(0 <= edges[outs[j] as int].min_len <= l);
                reveal(relaxed_edges_feasible);
                assert(rank[out_edge(outgoing, edges, topo[p - 1] as int, j).head as int] >= rank[topo[p - 1] as int]
                    + out_edge(outgoing, edges, topo[p - 1] as int, j).min_len);
            }
        }
        if topo_respects(topo, outgoing, edges) {
            lemma_relax_step(start, cur, res, topo, outgoing, edges, p - 1);
        }
    }
}

/// The lists, the order and the lengths that the refinement lemmas work in.
pub open spec fn refine_frame(
    n: int,
    topo: Seq<usize>,
    edges: Seq<DirectedEdge>,
    incoming: Seq<Vec<usize>>,
    outgoing: Seq<Vec<usize>>,
    l: int,
) -> bool {
    &&& edge_lists_exact(n, edges, outgoing, incoming)
    &&& endpoints_in_range(edges, n)
    &&& forall|p: int| 0 <= p < topo.len() ==> topo[p] < n
    &&& topo_respects(topo, outgoing, edges)
    &&& lens_between(edges, l)
    &&& 0 <= l
    &&& topo.len() * l <= 0x2000_0000
}

/// The lists, the order and the lengths that settling works in.
pub open spec fn settle_frame(n: int, topo: Seq<usize>, edges: Seq<DirectedEdge>, outgoing: Seq<Vec<usize>>, l: int) -> bool {
    &&& adjacency_in_range(n, topo, outgoing, edges)
    &&& topo_respects(topo, outgoing, edges)
    &&& lens_between(edges, l)
    &&& 0 <= l
    &&& topo.len() * l <= 0x2000_0000
}

/// Every rank lies between the sentinels and every listed edge is feasible.
pub open spec fn steady(rank: Seq<i32>, topo: Seq<usize>, outgoing: Seq<Vec<usize>>, edges: Seq<DirectedEdge>) -> bool {
    abs_within(rank, 0x2000_0000) && relaxed_edges_feasible(rank, topo, outgoing, edges)
}

proof fn lemma_frame_adjacency(
    n: int,
    topo: Seq<usize>,
    edges: Seq<DirectedEdge>,
    incoming: Seq<Vec<usize>>,
    outgoing: Seq<Vec<usize>>,
    l: int,
)
    requires
        refine_frame(n, topo, edges, incoming, outgoing, l),
    ensures
        settle_frame(n, topo, edges, outgoing, l),
{
    assert forall|t: int, k: int| 0 <= t < outgoing.len() && 0 <= k < outgoing[t]@.len() implies edges[outgoing[t]@[k] as int].head
        < n by {
        assert(outgoing[t]@[k] < edges.len());
        assert(edges[outgoing[t]@[k] as int].head < n);
    }
}

/// Moving one node anywhere between the floor and the ceiling of its edges
/// keeps the ranks steady.
proof fn lemma_move_keeps(
    rank: Seq<i32>,
    v: int,
    t: int,
    topo: Seq<usize>,
    edges: Seq<DirectedEdge>,
    incoming: Seq<Vec<usize>>,
    outgoing: Seq<Vec<usize>>,
    l: int,
)
    requires
        0 <= v < rank.len(),
        refine_frame(rank.len() as int, topo, edges, incoming, outgoing, l),
        steady(rank, topo, outgoing, edges),
        floor_from(incoming[v]@, edges, rank) <= t <= ceiling_from(outgoing[v]@, edges, rank),
    ensures
        -0x2000_0000 <= t <= 0x2000_0000,
        steady(rank.update(v, t as i32), topo, outgoing, edges),
{
    let n = rank.len() as int;
    if incoming[v]@.len() > 0 {
        lemma_floor_member(incoming[v]@, edges, rank, 0);
        assert(incoming[v]@[0] < edges.len());
        assert(edges[incoming[v]@[0] as int].tail < n);
        assert(0 <= edges[incoming[v]@[0] as int].min_len);
    }
    if outgoing[v]@.len() > 0 {
        lemma_ceiling_member(outgoing[v]@, edges, rank, 0);
        assert(outgoing[v]@[0] < edges.len());
        assert(edges[outgoing[v]@[0] as int].head < n);
        assert(0 <= edges[outgoing[v]@[0] as int].min_len);
    }
    let nr = rank.update(v, t as i32);
    assert(nr[v] == t);
    reveal(relaxed_edges_feasible);
    assert forall|p: int, k: int| 0 <= p < topo.len() && 0 <= k < outgoing[topo[p] as int]@.len() implies nr[out_edge(
        outgoing,
        edges,
        topo[p] as int,
        k,
    ).head as int] >= nr[topo[p] as int] + out_edge(outgoing, edges, topo[p] as int, k).min_len by {
        let u = topo[p] as int;
        let id = outgoing[u]@[k];
        let e = edges[id as int];
        let h = e.head as int;
        assert(id < edges.len() && e.tail == u);
        assert(h < n);
        assert(rank[h] >= rank[u] + e.min_len);
        if u == v && h == v {
            reveal(topo_respects);
            assert(out_edge(outgoing, edges, topo[p] as int, k).head == topo[p]);
        } else if u == v {
            lemma_ceiling_member(outgoing[v]@, edges, rank, k);
        } else if h == v {
            assert(incoming[h]@.contains(id));
            let j = choose|j: int| 0 <= j < incoming[h]@.len() && incoming[h]@[j] == id;
            lemma_floor_member(incoming[v]@, edges, rank, j);
        }
    }
}

proof fn lemma_center_sweep_keeps(
    rank: Seq<i32>,
    scan: Seq<usize>,
    pinned: Seq<usize>,
    topo: Seq<usize>,
    edges: Seq<DirectedEdge>,
    incoming: Seq<Vec<usize>>,
    outgoing: Seq<Vec<usize>>,
    l: int,
)
    requires
        refine_frame(rank.len() as int, topo, edges, incoming, outgoing, l),
        steady(rank, topo, outgoing, edges),
        forall|i: int| 0 <= i < scan.len() ==> scan[i] < rank.len(),
    ensures
        center_sweep_spec(rank, scan, pinned, edges, incoming, outgoing).0.len() == rank.len(),
        steady(center_sweep_spec(rank, scan, pinned, edges, incoming, outgoing).0, topo, outgoing, edges),
    decreases scan.len(),
{
    if scan.len() > 0 {
        assert(forall|i: int| 0 <= i < scan.len() - 1 ==> scan.drop_last()[i] == scan[i]);
        lemma_center_sweep_keeps(rank, scan.drop_last(), pinned, topo, edges, incoming, outgoing, l);
        let r = center_sweep_spec(rank, scan.drop_last(), pinned, edges, incoming, outgoing).0;
        let node = scan.last() as int;
        if !(pinned.contains(scan.last()) || floor_from(incoming[node]@, edges, r) > ceiling_from(outgoing[node]@, edges, r)) {
            let t = center_target(node, r, edges, incoming, outgoing);
            lemma_move_keeps(r, node, t, topo, edges, incoming, outgoing, l);
        }
    }
}

proof fn lemma_pivot_sweep_keeps(
    rank: Seq<i32>,
    pinned: Seq<usize>,
    topo: Seq<usize>,
    scan: Seq<usize>,
    edges: Seq<DirectedEdge>,
    incoming: Seq<Vec<usize>>,
    outgoing: Seq<Vec<usize>>,
    l: int,
)
    requires
        refine_frame(rank.len() as int, topo, edges, incoming, outgoing, l),
        steady(rank, topo, outgoing, edges),
        forall|i: int| 0 <= i < scan.len() ==> scan[i] < rank.len(),
    ensures
        pivot_sweep_spec(rank, scan, pinned, edges, incoming, outgoing).0.len() == rank.len(),
        steady(pivot_sweep_spec(rank, scan, pinned, edges, incoming, outgoing).0, topo, outgoing, edges),
    decreases scan.len(),
{
    if scan.len() > 0 {
        assert(forall|i: int| 0 <= i < scan.len() - 1 ==> scan.drop_last()[i] == scan[i]);
        lemma_pivot_sweep_keeps(rank, pinned, topo, scan.drop_last(), edges, incoming, outgoing, l);
        let r = pivot_sweep_spec(rank, scan.drop_last(), pinned, edges, incoming, outgoing).0;
        let node = scan.last() as int;
        if !(pinned.contains(scan.last()) || floor_from(incoming[node]@, edges, r) > ceiling_from(outgoing[node]@, edges, r)) {
            let t = pivot_target(node, r, edges, incoming, outgoing);
            lemma_move_keeps(r, node, t, topo, edges, incoming, outgoing, l);
        }
    }
}

proof fn lemma_settle_keeps(
    rank: Seq<i32>,
    pinned: Seq<usize>,
    topo: Seq<usize>,
    edges: Seq<DirectedEdge>,
    outgoing: Seq<Vec<usize>>,
    l: int,
)
    requires
        settle_frame(rank.len() as int, topo, edges, outgoing, l),
        steady(rank, topo, outgoing, edges),
    ensures
        settle_spec(rank, topo, pinned, outgoing, edges).len() == rank.len(),
        steady(settle_spec(rank, topo, pinned, outgoing, edges), topo, outgoing, edges),
{
    let start = pinned_at_zero(rank, pinned);
    lemma_relax_bounded(rank, start, topo, outgoing, edges, l, topo.len() as int);
    let res = relaxed_upto(start, topo, outgoing, edges, topo.len() as int);
    lemma_relax_done(start, res, topo, outgoing, edges);
    assert forall|v: int| 0 <= v < res.len() implies -0x2000_0000 <= #[trigger] res[v] <= 0x2000_0000 by {
        assert(start[v] <= res[v]);
        assert(start[v] == rank[v] || start[v] == 0);
    }
}

proof fn lemma_center_phase_keeps(
    rank: Seq<i32>,
    topo: Seq<usize>,
    pinned: Seq<usize>,
    edges: Seq<DirectedEdge>,
    incoming: Seq<Vec<usize>>,
    outgoing: Seq<Vec<usize>>,
    l: int,
    passes: nat,
)
    requires
        refine_frame(rank.len() as int, topo, edges, incoming, outgoing, l),
        steady(rank, topo, outgoing, edges),
    ensures
        center_phase(rank, topo, pinned, edges, incoming, outgoing, passes).0.len() == rank.len(),
        steady(center_phase(rank, topo, pinned, edges, incoming, outgoing, passes).0, topo, outgoing, edges),
    decreases passes,
{
    if passes > 0 {
        lemma_center_phase_keeps(rank, topo, pinned, edges, incoming, outgoing, l, (passes - 1) as nat);
        let (r, stopped) = center_phase(rank, topo, pinned, edges, incoming, outgoing, (passes - 1) as nat);
        if !stopped {
            lemma_center_pass_keeps(r, topo, pinned, edges, incoming, outgoing, l, passes - 1);
        }
    }
}

/// One center pass (a sweep over `topo`, reversed on odd passes, then
/// settling) keeps the ranks steady.
proof fn lemma_center_pass_keeps(
    r: Seq<i32>,
    topo: Seq<usize>,
    pinned: Seq<usize>,
    edges: Seq<DirectedEdge>,
    incoming: Seq<Vec<usize>>,
    outgoing: Seq<Vec<usize>>,
    l: int,
    pass: int,
)
    requires
        refine_frame(r.len() as int, topo, edges, incoming, outgoing, l),
        steady(r, topo, outgoing, edges),
    ensures
        ({
            let scan = if pass % 2 == 0 {
                topo
            } else {
                topo.reverse()
            };
            let r2 = settle_spec(center_sweep_spec(r, scan, pinned, edges, incoming, outgoing).0, topo, pinned, outgoing, edges);
            r2.len() == r.len() && steady(r2, topo, outgoing, edges)
        }),
{
    let scan = if pass % 2 == 0 {
        topo
    } else {
        topo.reverse()
    };
    assert forall|i: int| 0 <= i < scan.len() implies scan[i] < r.len() by {
        if pass % 2 != 0 {
            assert(scan[i] == topo[topo.len() - 1 - i]);
        }
    }
    lemma_center_sweep_keeps(r, scan, pinned, topo, edges, incoming, outgoing, l);
    let r1 = center_sweep_spec(r, scan, pinned, edges, incoming, outgoing).0;
    lemma_frame_adjacency(r.len() as int, topo, edges, incoming, outgoing, l);
    lemma_settle_keeps(r1, pinned, topo, edges, outgoing, l);
}

proof fn lemma_pivot_phase_keeps(
    rank: Seq<i32>,
    topo: Seq<usize>,
    pinned: Seq<usize>,
    edges: Seq<DirectedEdge>,
    incoming: Seq<Vec<usize>>,
    outgoing: Seq<Vec<usize>>,
    l: int,
    rounds: nat,
)
    requires
        refine_frame(rank.len() as int, topo, edges, incoming, outgoing, l),
        steady(rank, topo, outgoing, edges),
    ensures
        pivot_phase(rank, topo, pinned, edges, incoming, outgoing, rounds).0.len() == rank.len(),
        steady(pivot_phase(rank, topo, pinned, edges, incoming, outgoing, rounds).0, topo, outgoing, edges),
    decreases rounds,
{
    if rounds > 0 {
        lemma_pivot_phase_keeps(rank, topo, pinned, edges, incoming, outgoing, l, (rounds - 1) as nat);
        let (r, stopped) = pivot_phase(rank, topo, pinned, edges, incoming, outgoing, (rounds - 1) as nat);
        if !stopped {
            lemma_pivot_sweep_keeps(r, pinned, topo, topo, edges, incoming, outgoing, l);
            let r1 = pivot_sweep_spec(r, topo, pinned, edges, incoming, outgoing).0;
            lemma_frame_adjacency(rank.len() as int, topo, edges, incoming, outgoing, l);
            lemma_settle_keeps(r1, pinned, topo, edges, outgoing, l);
        }
    }
}

proof fn lemma_floor_below(ids: Seq<usize>, edges: Seq<DirectedEdge>, rank: Seq<i32>, x: int)
    requires
        ids.len() > 0,
        forall|k: int| 0 <= k < ids.len() ==> rank[edges[#[trigger] ids[k] as int].tail as int] + edges[ids[k] as int].min_len <= x,
    ensures
        floor_from(ids, edges, rank) <= x,
    decreases ids.len(),
{
    if ids.len() > 1 {
        assert forall|k: int| 0 <= k < ids.len() - 1 implies rank[edges[#[trigger] ids.drop_last()[k] as int].tail as int]
            + edges[ids.drop_last()[k] as int].min_len <= x by {
            assert(ids.drop_last()[k] == ids[k]);
        }
        lemma_floor_below(ids.drop_last(), edges, rank, x);
    }
    assert(ids[ids.len() - 1] == ids.last());
}

proof fn lemma_in_center_num_le(ids: Seq<usize>, edges: Seq<DirectedEdge>, rank: Seq<i32>, m: int)
    requires
        forall|k: int| 0 <= k < ids.len() ==> rank[edges[#[trigger] ids[k] as int].tail as int] + edges[ids[k] as int].min_len <= m,
    ensures
        in_center_num(ids, edges, rank) <= m * weight_count(ids, edges),
        weight_count(ids, edges) >= ids.len(),
    decreases ids.len(),
{
    if ids.len() > 0 {
        assert forall|k: int| 0 <= k < ids.len() - 1 implies rank[edges[#[trigger] ids.drop_last()[k] as int].tail as int]
            + edges[ids.drop_last()[k] as int].min_len <= m by {
            assert(ids.drop_last()[k] == ids[k]);
        }
        lemma_in_center_num_le(ids.drop_last(), edges, rank, m);
        let e = edges[ids.last() as int];
        let x = rank[e.tail as int] + e.min_len;
        let w = unit_weight(e);
        assert(ids[ids.len() - 1] == ids.last());
        assert(x * w <= m * w) by (nonlinear_arith)
            requires
                x <= m,
                w >= 1,
        ;
        let c = weight_count(ids.drop_last(), edges);
        assert(m * c + m * w == m * (c + w)) by (nonlinear_arith);
    }
}

proof fn lemma_round_le(num: int, den: int, m: int)
    requires
        den > 0,
        num <= m * den,
    ensures
        round_half_away(num, den) <= m,
{
    if num >= 0 {
        assert(m >= 0) by (nonlinear_arith)
            requires
                0 <= num <= m * den,
                den > 0,
        ;
        let q = num / den;
        let r = num % den;
        vstd::arithmetic::div_mod::lemma_fundamental_div_mod(num, den);
        vstd::arithmetic::div_mod::lemma_mod_bound(num, den);
        assert(q <= m) by (nonlinear_arith)
            requires
                num == den * q + r,
                0 <= r < den,
                num <= m * den,
                den > 0,
        ;
        assert(q == m ==> r == 0) by (nonlinear_arith)
            requires
                num == den * q + r,
                0 <= r < den,
                num <= m * den,
        ;
    } else if m < 0 {
        let a = -num;
        assert(-m * den == -(m * den)) by (nonlinear_arith);
        let q = a / den;
        let r = a % den;
        vstd::arithmetic::div_mod::lemma_fundamental_div_mod(a, den);
        vstd::arithmetic::div_mod::lemma_mod_bound(a, den);
        assert(q >= -m) by (nonlinear_arith)
            requires
                a == den * q + r,
                0 <= r < den,
                a >= -m * den,
                den > 0,
        ;
    }
}

/// A first center sweep from ranks between `i32::MIN / 4` and `b` keeps
/// them above the lower sentinel and raises none above `b` plus the
/// longest length for each node swept.
proof fn lemma_first_sweep(
    rank: Seq<i32>,
    scan: Seq<usize>,
    pinned: Seq<usize>,
    topo: Seq<usize>,
    edges: Seq<DirectedEdge>,
    incoming: Seq<Vec<usize>>,
    outgoing: Seq<Vec<usize>>,
    l: int,
    b: int,
)
    requires
        refine_frame(rank.len() as int, topo, edges, incoming, outgoing, l),
        forall|i: int| 0 <= i < scan.len() ==> scan[i] < rank.len(),
        forall|v: int| 0 <= v < rank.len() ==> -0x2000_0000 <= #[trigger] rank[v] <= b,
        0 <= b,
        b + scan.len() * l <= 0x2000_0000,
    ensures
        center_sweep_spec(rank, scan, pinned, edges, incoming, outgoing).0.len() == rank.len(),
        forall|v: int|
            0 <= v < rank.len() ==> -0x2000_0000 <= #[trigger] center_sweep_spec(rank, scan, pinned, edges, incoming, outgoing).0[v]
                <= b + scan.len() * l,
    decreases scan.len(),
{
    if scan.len() > 0 {
        let k = scan.len() - 1;
        assert(forall|i: int| 0 <= i < k ==> scan.drop_last()[i] == scan[i]);
        assert(0 <= k * l <= scan.len() * l) by (nonlinear_arith)
            requires
                k == scan.len() - 1,
                0 <= k,
                0 <= l,
        ;
        assert(k * l + l == scan.len() * l) by (nonlinear_arith)
            requires
                k == scan.len() - 1,
        ;
        lemma_first_sweep(rank, scan.drop_last(), pinned, topo, edges, incoming, outgoing, l, b);
        let r = center_sweep_spec(rank, scan.drop_last(), pinned, edges, incoming, outgoing).0;
        let u = b + k * l;
        let node = scan.last() as int;
        let n = rank.len() as int;
        let lo = floor_from(incoming[node]@, edges, r);
        let hi = ceiling_from(outgoing[node]@, edges, r);
        if !(pinned.contains(scan.last()) || lo > hi) {
            let t = center_target(node, r, edges, incoming, outgoing);
            if incoming[node]@.len() > 0 {
                lemma_floor_member(incoming[node]@, edges, r, 0);
                assert(incoming[node]@[0] < edges.len());
                assert(edges[incoming[node]@[0] as int].tail < n);
                assert forall|j: int| 0 <= j < incoming[node]@.len() implies r[edges[#[trigger] incoming[node]@[j] as int].tail as int]
                    + edges[incoming[node]@[j] as int].min_len <= u + l by {
                    assert(incoming[node]@[j] < edges.len());
                    assert(edges[incoming[node]@[j] as int].tail < n);
                }
                lemma_floor_below(incoming[node]@, edges, r, u + l);
            }
            assert(lo >= -0x2000_0000);
            if outgoing[node]@.len() > 0 {
                lemma_ceiling_member(outgoing[node]@, edges, r, 0);
                assert(outgoing[node]@[0] < edges.len());
                assert(edges[outgoing[node]@[0] as int].head < n);
                assert(t <= u);
            } else if incoming[node]@.len() > 0 {
                assert forall|j: int| 0 <= j < incoming[node]@.len() implies r[edges[#[trigger] incoming[node]@[j] as int].tail as int]
                    + edges[incoming[node]@[j] as int].min_len <= lo by {
                    lemma_floor_member(incoming[node]@, edges, r, j);
                }
                lemma_in_center_num_le(incoming[node]@, edges, r, lo);
                let den = weight_count(incoming[node]@, edges) + weight_count(outgoing[node]@, edges);
                assert(weight_count(outgoing[node]@, edges) == 0);
                lemma_round_le(in_center_num(incoming[node]@, edges, r) + 0, den, lo);
                assert(t == lo);
            }
            assert(t <= u + l);
        }
    }
}

/// Relaxing the first `p` nodes of `topo` from ranks at most `m` raises
/// none above `m` plus `p` times the longest length.
proof fn lemma_relax_rough(
    start: Seq<i32>,
    topo: Seq<usize>,
    outgoing: Seq<Vec<usize>>,
    edges: Seq<DirectedEdge>,
    l: int,
    m: int,
    p: int,
)
    requires
        0 <= p <= topo.len(),
        adjacency_in_range(start.len() as int, topo, outgoing, edges),
        lens_between(edges, l),
        0 <= l,
        forall|v: int| 0 <= v < start.len() ==> -0x2000_0000 <= #[trigger] start[v] <= m,
        m + topo.len() * l <= 0x2000_0000,
    ensures
        relaxed_upto(start, topo, outgoing, edges, p).len() == start.len(),
        forall|v: int|
            0 <= v < start.len() ==> start[v] <= #[trigger] relaxed_upto(start, topo, outgoing, edges, p)[v] <= m + p * l,
        topo_respects(topo, outgoing, edges) ==> relaxed_prefix_feasible(
            relaxed_upto(start, topo, outgoing, edges, p),
            topo,
            outgoing,
            edges,
            p,
        ) && raised_by_prefix(start, relaxed_upto(start, topo, outgoing, edges, p), topo, outgoing, edges, p),
    decreases p,
{
    if p == 0 {
        lemma_relax_init(start, topo, outgoing, edges);
    } else {
        lemma_relax_rough(start, topo, outgoing, edges, l, m, p - 1);
        let cur = relaxed_upto(start, topo, outgoing, edges, p - 1);
        let u = topo[p - 1] as int;
        let outs = outgoing[u]@;
        let base = cur[u] as int;
        let res = relaxed_upto(start, topo, outgoing, edges, p);
        assert((p - 1) * l + l == p * l) by (nonlinear_arith);
        assert(0 <= (p - 1) * l <= p * l <= topo.len() * l) by (nonlinear_arith)
            requires
                1 <= p <= topo.len(),
                0 <= l,
        ;
        assert(start[u] <= cur[u]);
        assert forall|j: int| 0 <= j < outs.len() implies i32::MIN <= base + edges[#[trigger] outs[j] as int].min_len
            <= i32::MAX by {
            assert(outs[j] < edges.len());
            assert(0 <= edges[outs[j] as int].min_len <= l);
        }
        lemma_raise_heads(cur, base, outs, edges, outs.len() as int);
        assert(res == raise_heads(cur, base, outs, edges, outs.len() as int));
        assert forall|v: int| 0 <= v < start.len() implies #[trigger] res[v] <= m + p * l by {
            if res[v] != cur[v] {
                let j = choose|j: int|
                    0 <= j < outs.len() && edges[outs[j] as int].head == v && res[v] == base + edges[outs[j] as int].min_len;
                assert(outs[j] < edges.len());
                assert(0 <= edges[outs[j] as int].min_len <= l);
            }
        }
        if topo_respects(topo, outgoing, edges) {
            lemma_relax_step(start, cur, res, topo, outgoing, edges, p - 1);
        }
    }
}

/// The first center pass, from ranks within `b` where `b` plus twice
/// `topo.len()` times the longest length stays within `2^29`,
/// ends steady.
proof fn lemma_first_pass(
    rank: Seq<i32>,
    topo: Seq<usize>,
    pinned: Seq<usize>,
    edges: Seq<DirectedEdge>,
    incoming: Seq<Vec<usize>>,
    outgoing: Seq<Vec<usize>>,
    l: int,
    b: int,
)
    requires
        refine_frame(rank.len() as int, topo, edges, incoming, outgoing, l),
        abs_within(rank, b),
        0 <= b,
        b + 2 * topo.len() * l <= 0x2000_0000,
    ensures
        center_phase(rank, topo, pinned, edges, incoming, outgoing, 1).0.len() == rank.len(),
        steady(center_phase(rank, topo, pinned, edges, incoming, outgoing, 1).0, topo, outgoing, edges),
{
    let n = topo.len() as int;
    assert(0 <= n * l) by (nonlinear_arith)
        requires
            0 <= n,
            0 <= l,
    ;
    assert(2 * n * l == n * l + n * l) by (nonlinear_arith);
    lemma_first_sweep(rank, topo, pinned, topo, edges, incoming, outgoing, l, b);
    let r1 = center_sweep_spec(rank, topo, pinned, edges, incoming, outgoing).0;
    let start = pinned_at_zero(r1, pinned);
    lemma_frame_adjacency(rank.len() as int, topo, edges, incoming, outgoing, l);
    lemma_relax_rough(start, topo, outgoing, edges, l, b + n * l, n);
    let res = relaxed_upto(start, topo, outgoing, edges, n);
    lemma_relax_done(start, res, topo, outgoing, edges);
    assert(center_phase(rank, topo, pinned, edges, incoming, outgoing, 0) == (rank, false));
    assert(topo.reverse().len() == topo.len());
    assert(center_phase(rank, topo, pinned, edges, incoming, outgoing, 1).0 == res);
    assert forall|v: int| 0 <= v < res.len() implies -0x2000_0000 <= #[trigger] res[v] <= 0x2000_0000 by {
        assert(start[v] <= res[v]);
    }
}

/// Center passes from ranks within `b`, where `b` plus twice `topo.len()`
/// times the longest length stays within `2^29`, stay within that
/// range, and are steady from the first pass on.
proof fn lemma_center_phase_rough(
    rank: Seq<i32>,
    topo: Seq<usize>,
    pinned: Seq<usize>,
    edges: Seq<DirectedEdge>,
    incoming: Seq<Vec<usize>>,
    outgoing: Seq<Vec<usize>>,
    l: int,
    b: int,
    passes: nat,
)
    requires
        refine_frame(rank.len() as int, topo, edges, incoming, outgoing, l),
        abs_within(rank, b),
        0 <= b,
        b + 2 * topo.len() * l <= 0x2000_0000,
    ensures
        center_phase(rank, topo, pinned, edges, incoming, outgoing, passes).0.len() == rank.len(),
        abs_within(center_phase(rank, topo, pinned, edges, incoming, outgoing, passes).0, 0x2000_0000),
        passes >= 1 ==> steady(center_phase(rank, topo, pinned, edges, incoming, outgoing, passes).0, topo, outgoing, edges),
    decreases passes,
{
    if passes == 0 {
        assert(0 <= topo.len() * l) by (nonlinear_arith)
            requires
                0 <= l,
        ;
    } else if passes == 1 {
        lemma_first_pass(rank, topo, pinned, edges, incoming, outgoing, l, b);
    } else {
        lemma_center_phase_rough(rank, topo, pinned, edges, incoming, outgoing, l, b, (passes - 1) as nat);
        let (r, stopped) = center_phase(rank, topo, pinned, edges, incoming, outgoing, (passes - 1) as nat);
        if !stopped {
            lemma_center_pass_keeps(r, topo, pinned, edges, incoming, outgoing, l, passes - 1);
        }
    }
}

/// A start from which `network_simplex_refine` is known to stay in range:
/// `incoming` and `outgoing` list exactly the edges into and out of each
/// node, `topo` lists no edge backwards and no minimum length is negative;
/// and either the largest absolute rank plus twice `topo.len()` times the
/// longest minimum length is within `2^29`, or the ranks are
/// feasible and within `2^29` and `topo.len()` times the longest
/// minimum length is too.
pub open spec fn refine_start_fits(
    rank: Seq<i32>,
    topo: Seq<usize>,
    edges: Seq<DirectedEdge>,
    incoming: Seq<Vec<usize>>,
    outgoing: Seq<Vec<usize>>,
) -> bool {
    &&& edge_lists_exact(rank.len() as int, edges, outgoing, incoming)
    &&& endpoints_in_range(edges, rank.len() as int)
    &&& forall|p: int| 0 <= p < topo.len() ==> topo[p] < rank.len()
    &&& topo_respects(topo, outgoing, edges)
    &&& forall|e: int| 0 <= e < edges.len() ==> 0 <= (#[trigger] edges[e]).min_len
    &&& (max_abs(rank) + 2 * topo.len() * len_cap(edges) <= 0x2000_0000 || (relaxed_edges_feasible(
        rank,
        topo,
        outgoing,
        edges,
    ) && abs_within(rank, 0x2000_0000) && topo.len() * len_cap(edges) <= 0x2000_0000))
}

/// From a start that `refine_start_fits`, refinement never takes a rank
/// outside `2^29`: the first pass leaves every edge feasible
/// without going past that range, each later sweep moves a node only
/// between the floor and the ceiling of its edges, and each later settle
/// raises a rank no higher than the longest chain of lengths from a pinned
/// node.
pub proof fn law_refine_stays_within(
    rank: Seq<i32>,
    topo: Seq<usize>,
    pinned: Seq<usize>,
    edges: Seq<DirectedEdge>,
    incoming: Seq<Vec<usize>>,
    outgoing: Seq<Vec<usize>>,
)
    requires
        refine_start_fits(rank, topo, edges, incoming, outgoing),
    ensures
        refine_stays_within(rank, topo, pinned, edges, incoming, outgoing),
{
    let n = rank.len() as int;
    let l = len_cap(edges);
    let b = max_abs(rank);
    lemma_len_cap(edges);
    lemma_max_abs(rank);
    let rough = b + 2 * topo.len() * l <= 0x2000_0000;
    if rough {
        assert(topo.len() * l <= 0x2000_0000) by (nonlinear_arith)
            requires
                b + 2 * topo.len() * l <= 0x2000_0000,
                0 <= b,
                0 <= l,
        ;
    }
    assert(refine_frame(n, topo, edges, incoming, outgoing, l));
    if n > 1 {
        assert forall|p: nat| p <= center_passes(n) implies abs_within(
            #[trigger] center_phase(rank, topo, pinned, edges, incoming, outgoing, p).0,
            0x2000_0000,
        ) by {
            if rough {
                lemma_center_phase_rough(rank, topo, pinned, edges, incoming, outgoing, l, b, p);
            } else {
                lemma_center_phase_keeps(rank, topo, pinned, edges, incoming, outgoing, l, p);
            }
        }
        let centered = center_phase(rank, topo, pinned, edges, incoming, outgoing, center_passes(n)).0;
        if rough {
            lemma_center_phase_rough(rank, topo, pinned, edges, incoming, outgoing, l, b, center_passes(n));
        } else {
            lemma_center_phase_keeps(rank, topo, pinned, edges, incoming, outgoing, l, center_passes(n));
        }
        assert forall|q: nat| q <= pivot_rounds(n) implies abs_within(
            #[trigger] pivot_phase(centered, topo, pinned, edges, incoming, outgoing, q).0,
            0x2000_0000,
        ) by {
            lemma_pivot_phase_keeps(centered, topo, pinned, edges, incoming, outgoing, l, q);
        }
    }
}

proof fn lemma_ceiling_above(ids: Seq<usize>, edges: Seq<DirectedEdge>, rank: Seq<i32>, x: int)
    requires
        ids.len() > 0,
        forall|k: int| 0 <= k < ids.len() ==> x <= rank[edges[#[trigger] ids[k] as int].head as int] - edges[ids[k] as int].min_len,
    ensures
        x <= ceiling_from(ids, edges, rank),
    decreases ids.len(),
{
    if ids.len() > 1 {
        assert forall|k: int| 0 <= k < ids.len() - 1 implies x <= rank[edges[#[trigger] ids.drop_last()[k] as int].head as int]
            - edges[ids.drop_last()[k] as int].min_len by {
            assert(ids.drop_last()[k] == ids[k]);
        }
        lemma_ceiling_above(ids.drop_last(), edges, rank, x);
    }
    assert(ids[ids.len() - 1] == ids.last());
}

/// A backward sweep moves nothing while every listed edge is feasible.
proof fn lemma_backward_sweep_still(
    rank: Seq<i32>,
    topo: Seq<usize>,
    sinks: Seq<usize>,
    edges: Seq<DirectedEdge>,
    outgoing: Seq<Vec<usize>>,
    k: int,
)
    requires
        0 <= k <= topo.len(),
        relaxed_edges_feasible(rank, topo, outgoing, edges),
    ensures
        backward_sweep_spec(rank, topo, sinks, edges, outgoing, k) == (rank, false),
    decreases k,
{
    if k > 0 {
        lemma_backward_sweep_still(rank, topo, sinks, edges, outgoing, k - 1);
        let p = topo.len() - k;
        let node = topo[p] as int;
        if outgoing[node]@.len() > 0 {
            reveal(relaxed_edges_feasible);
            assert forall|j: int| 0 <= j < outgoing[node]@.len() implies rank[node] <= rank[edges[#[trigger] outgoing[node]@[j] as int].head as int]
                - edges[outgoing[node]@[j] as int].min_len by {
                assert(rank[out_edge(outgoing, edges, topo[p] as int, j).head as int] >= rank[topo[p] as int] + out_edge(
                    outgoing,
                    edges,
                    topo[p] as int,
                    j,
                ).min_len);
            }
            lemma_ceiling_above(outgoing[node]@, edges, rank, rank[node] as int);
        }
        assert(!(sweep_limit(node, rank, edges, outgoing) < rank[node]));
    }
}

proof fn lemma_compact_phase_keeps(
    rank: Seq<i32>,
    topo: Seq<usize>,
    sources: Seq<usize>,
    sinks: Seq<usize>,
    edges: Seq<DirectedEdge>,
    outgoing: Seq<Vec<usize>>,
    l: int,
    passes: nat,
)
    requires
        settle_frame(rank.len() as int, topo, edges, outgoing, l),
        steady(rank, topo, outgoing, edges),
    ensures
        compact_phase(rank, topo, sources, sinks, edges, outgoing, passes).0.len() == rank.len(),
        steady(compact_phase(rank, topo, sources, sinks, edges, outgoing, passes).0, topo, outgoing, edges),
    decreases passes,
{
    if passes > 0 {
        lemma_compact_phase_keeps(rank, topo, sources, sinks, edges, outgoing, l, (passes - 1) as nat);
        let (r, stopped) = compact_phase(rank, topo, sources, sinks, edges, outgoing, (passes - 1) as nat);
        if !stopped {
            lemma_backward_sweep_still(r, topo, sinks, edges, outgoing, topo.len() as int);
            lemma_settle_keeps(r, sources, topo, edges, outgoing, l);
        }
    }
}

/// A backward sweep over the last `k` nodes of `topo`, from ranks between
/// `-b` and `b`, lowers no rank below `-b` minus `k` times the longest
/// length, and raises none.
proof fn lemma_backward_rough(
    rank: Seq<i32>,
    topo: Seq<usize>,
    sinks: Seq<usize>,
    edges: Seq<DirectedEdge>,
    outgoing: Seq<Vec<usize>>,
    l: int,
    b: int,
    k: int,
)
    requires
        0 <= k <= topo.len(),
        settle_frame(rank.len() as int, topo, edges, outgoing, l),
        abs_within(rank, b),
        0 <= b,
        b + topo.len() * l <= 0x2000_0000,
    ensures
        backward_sweep_spec(rank, topo, sinks, edges, outgoing, k).0.len() == rank.len(),
        forall|v: int|
            0 <= v < rank.len() ==> -(b + k * l) <= #[trigger] backward_sweep_spec(rank, topo, sinks, edges, outgoing, k).0[v]
                <= b,
    decreases k,
{
    if k > 0 {
        lemma_backward_rough(rank, topo, sinks, edges, outgoing, l, b, k - 1);
        assert(0 <= (k - 1) * l <= k * l <= topo.len() * l) by (nonlinear_arith)
            requires
                1 <= k <= topo.len(),
                0 <= l,
        ;
        assert((k - 1) * l + l == k * l) by (nonlinear_arith);
        let r = backward_sweep_spec(rank, topo, sinks, edges, outgoing, k - 1).0;
        let node = topo[topo.len() - k] as int;
        if outgoing[node]@.len() > 0 {
            assert forall|j: int| 0 <= j < outgoing[node]@.len() implies -(b + k * l) <= r[edges[#[trigger] outgoing[node]@[j] as int].head as int]
                - edges[outgoing[node]@[j] as int].min_len by {
                assert(outgoing[node]@[j] < edges.len());
                assert(edges[outgoing[node]@[j] as int].head < rank.len());
            }
            lemma_ceiling_above(outgoing[node]@, edges, r, -(b + k * l));
        }
    }
}

/// Compaction passes from ranks within `b`, where `b` plus `topo.len()`
/// times the longest length stays within `2^29`, stay within that
/// range, and are steady from the first pass on.
proof fn lemma_compact_phase_rough(
    rank: Seq<i32>,
    topo: Seq<usize>,
    sources: Seq<usize>,
    sinks: Seq<usize>,
    edges: Seq<DirectedEdge>,
    outgoing: Seq<Vec<usize>>,
    l: int,
    b: int,
    passes: nat,
)
    requires
        settle_frame(rank.len() as int, topo, edges, outgoing, l),
        abs_within(rank, b),
        0 <= b,
        b + topo.len() * l <= 0x2000_0000,
    ensures
        compact_phase(rank, topo, sources, sinks, edges, outgoing, passes).0.len() == rank.len(),
        abs_within(compact_phase(rank, topo, sources, sinks, edges, outgoing, passes).0, 0x2000_0000),
        passes >= 1 ==> steady(compact_phase(rank, topo, sources, sinks, edges, outgoing, passes).0, topo, outgoing, edges),
    decreases passes,
{
    let n = topo.len() as int;
    assert(0 <= n * l) by (nonlinear_arith)
        requires
            0 <= n,
            0 <= l,
    ;
    if passes == 1 {
        lemma_backward_rough(rank, topo, sinks, edges, outgoing, l, b, n);
        let r1 = backward_sweep_spec(rank, topo, sinks, edges, outgoing, n).0;
        let start = pinned_at_zero(r1, sources);
        lemma_relax_rough(start, topo, outgoing, edges, l, b, n);
        let res = relaxed_upto(start, topo, outgoing, edges, n);
        lemma_relax_done(start, res, topo, outgoing, edges);
        assert(compact_phase(rank, topo, sources, sinks, edges, outgoing, 0) == (rank, false));
        assert(compact_phase(rank, topo, sources, sinks, edges, outgoing, 1).0 == res);
        assert forall|v: int| 0 <= v < res.len() implies -0x2000_0000 <= #[trigger] res[v] <= 0x2000_0000 by {
            assert(start[v] <= res[v]);
        }
    } else if passes > 1 {
        lemma_compact_phase_rough(rank, topo, sources, sinks, edges, outgoing, l, b, (passes - 1) as nat);
        let (r, stopped) = compact_phase(rank, topo, sources, sinks, edges, outgoing, (passes - 1) as nat);
        if !stopped {
            lemma_backward_sweep_still(r, topo, sinks, edges, outgoing, topo.len() as int);
            lemma_settle_keeps(r, sources, topo, edges, outgoing, l);
        }
    }
}

/// A start from which `compact_ranks` is known to stay in range: every
/// listed node and edge is in range, `topo` lists no edge backwards and no
/// minimum length is negative; and either the largest absolute rank plus
/// `topo.len()` times the longest minimum length is within `2^29`,
/// or the ranks are feasible and within `2^29` and `topo.len()`
/// times the longest minimum length is too.
pub open spec fn compact_start_fits(
    rank: Seq<i32>,
    topo: Seq<usize>,
    edges: Seq<DirectedEdge>,
    outgoing: Seq<Vec<usize>>,
) -> bool {
    &&& adjacency_in_range(rank.len() as int, topo, outgoing, edges)
    &&& topo_respects(topo, outgoing, edges)
    &&& forall|e: int| 0 <= e < edges.len() ==> 0 <= (#[trigger] edges[e]).min_len
    &&& (max_abs(rank) + topo.len() * len_cap(edges) <= 0x2000_0000 || (relaxed_edges_feasible(
        rank,
        topo,
        outgoing,
        edges,
    ) && abs_within(rank, 0x2000_0000) && topo.len() * len_cap(edges) <= 0x2000_0000))
}

/// From a start that `compact_start_fits`, compaction never takes a rank
/// outside `2^29`: the first pass leaves every edge feasible
/// without going past that range, a later backward sweep lowers no rank
/// while every edge is feasible, and each later settle raises a rank no
/// higher than the longest chain of lengths from a source.
pub proof fn law_compact_stays_within(
    rank: Seq<i32>,
    topo: Seq<usize>,
    sources: Seq<usize>,
    sinks: Seq<usize>,
    edges: Seq<DirectedEdge>,
    outgoing: Seq<Vec<usize>>,
)
    requires
        compact_start_fits(rank, topo, edges, outgoing),
    ensures
        compact_stays_within(rank, topo, sources, sinks, edges, outgoing),
{
    let l = len_cap(edges);
    let b = max_abs(rank);
    lemma_len_cap(edges);
    lemma_max_abs(rank);
    let rough = b + topo.len() * l <= 0x2000_0000;
    assert(settle_frame(rank.len() as int, topo, edges, outgoing, l));
    assert forall|p: nat| p <= compact_passes(rank.len() as int) implies abs_within(
        #[trigger] compact_phase(rank, topo, sources, sinks, edges, outgoing, p).0,
        0x2000_0000,
    ) by {
        if rough {
            lemma_compact_phase_rough(rank, topo, sources, sinks, edges, outgoing, l, b, p);
        } else {
            lemma_compact_phase_keeps(rank, topo, sources, sinks, edges, outgoing, l, p);
        }
    }
}

} // verus!
