//! Rank refinement: moving nodes between the ranks their edges allow so that
//! edges get shorter, while every edge stays feasible.
use vstd::prelude::*;

use crate::edges::DirectedEdge;
use crate::refine_range::{compact_start_fits, law_compact_stays_within, law_refine_stays_within, refine_start_fits};
use crate::ranking::{
    adjacency_in_range, len_cap, lemma_len_cap, lemma_max_min_of, max_of, out_edge,
    raised_only_when_forced, relax_fits, relax_forward, relaxed_edges_feasible, relaxed_upto, topo_respects,
};

verus! {

/// `x` if it is positive, else zero.
pub open spec fn pos(x: int) -> int {
    if x > 0 {
        x
    } else {
        0
    }
}

/// An edge's weight, but at least one.
pub open spec fn unit_weight(e: DirectedEdge) -> int {
    if e.weight > 1 {
        e.weight as int
    } else {
        1
    }
}

/// Weighted slack of an incoming edge if its head sat at rank `cand`.
pub open spec fn in_slack(e: DirectedEdge, cand: int, rank: Seq<i32>) -> int {
    pos(cand - rank[e.tail as int] - e.min_len) * unit_weight(e)
}

/// Weighted slack of an outgoing edge if its tail sat at rank `cand`.
pub open spec fn out_slack(e: DirectedEdge, cand: int, rank: Seq<i32>) -> int {
    pos(rank[e.head as int] - cand - e.min_len) * unit_weight(e)
}

/// Total weighted slack of the edges `ids` entering a node at rank `cand`.
pub open spec fn in_slack_sum(ids: Seq<usize>, edges: Seq<DirectedEdge>, cand: int, rank: Seq<i32>) -> int
    decreases ids.len(),
{
    if ids.len() == 0 {
        0
    } else {
        in_slack_sum(ids.drop_last(), edges, cand, rank) + in_slack(edges[ids.last() as int], cand, rank)
    }
}

/// Total weighted slack of the edges `ids` leaving a node at rank `cand`.
pub open spec fn out_slack_sum(ids: Seq<usize>, edges: Seq<DirectedEdge>, cand: int, rank: Seq<i32>) -> int
    decreases ids.len(),
{
    if ids.len() == 0 {
        0
    } else {
        out_slack_sum(ids.drop_last(), edges, cand, rank) + out_slack(edges[ids.last() as int], cand, rank)
    }
}

/// The weighted slack of all edges at `node` if it sat at rank `cand`.
pub open spec fn slack_cost(
    node: int,
    cand: int,
    rank: Seq<i32>,
    edges: Seq<DirectedEdge>,
    incoming: Seq<Vec<usize>>,
    outgoing: Seq<Vec<usize>>,
) -> int {
    in_slack_sum(incoming[node]@, edges, cand, rank) + out_slack_sum(outgoing[node]@, edges, cand, rank)
}

/// The edges listed at `node` exist and their far ends are ranked.
pub open spec fn node_lists_in_range(
    node: int,
    rank: Seq<i32>,
    edges: Seq<DirectedEdge>,
    incoming: Seq<Vec<usize>>,
    outgoing: Seq<Vec<usize>>,
) -> bool {
    &&& 0 <= node < incoming.len()
    &&& node < outgoing.len()
    &&& forall|k: int|
        0 <= k < incoming[node]@.len() ==> incoming[node]@[k] < edges.len() && edges[incoming[node]@[k] as int].tail
            < rank.len()
    &&& forall|k: int|
        0 <= k < outgoing[node]@.len() ==> outgoing[node]@[k] < edges.len() && edges[outgoing[node]@[k] as int].head
            < rank.len()
}

/// The differences that `local_slack_cost` forms fit in an `i32`.
pub open spec fn slack_terms_fit(
    node: int,
    cand: int,
    rank: Seq<i32>,
    edges: Seq<DirectedEdge>,
    incoming: Seq<Vec<usize>>,
    outgoing: Seq<Vec<usize>>,
) -> bool {
    &&& forall|k: int|
        0 <= k < incoming[node]@.len() ==> i32::MIN <= cand - rank[edges[#[trigger] incoming[node]@[k] as int].tail as int]
            <= i32::MAX && i32::MIN <= cand - rank[edges[incoming[node]@[k] as int].tail as int]
            - edges[incoming[node]@[k] as int].min_len <= i32::MAX
    &&& forall|k: int|
        0 <= k < outgoing[node]@.len() ==> i32::MIN <= rank[edges[#[trigger] outgoing[node]@[k] as int].head as int] - cand
            <= i32::MAX && i32::MIN <= rank[edges[outgoing[node]@[k] as int].head as int] - cand
            - edges[outgoing[node]@[k] as int].min_len <= i32::MAX
}

proof fn lemma_in_slack_sum_mono(ids: Seq<usize>, edges: Seq<DirectedEdge>, cand: int, rank: Seq<i32>, k: int)
    requires
        0 <= k <= ids.len(),
    ensures
        0 <= in_slack_sum(ids.subrange(0, k), edges, cand, rank) <= in_slack_sum(ids, edges, cand, rank),
    decreases ids.len(),
{
    if k < ids.len() {
        assert(ids.drop_last().subrange(0, k) =~= ids.subrange(0, k));
        lemma_in_slack_sum_mono(ids.drop_last(), edges, cand, rank, k);
        assert(in_slack(edges[ids.last() as int], cand, rank) >= 0) by (nonlinear_arith)
            requires
                in_slack(edges[ids.last() as int], cand, rank) == pos(
                    cand - rank[edges[ids.last() as int].tail as int] - edges[ids.last() as int].min_len,
                ) * unit_weight(edges[ids.last() as int]),
                unit_weight(edges[ids.last() as int]) >= 1,
                pos(cand - rank[edges[ids.last() as int].tail as int] - edges[ids.last() as int].min_len) >= 0,
        ;
    } else {
        assert(ids.subrange(0, k) =~= ids);
        lemma_in_slack_sum_nonneg(ids, edges, cand, rank);
    }
}

proof fn lemma_in_slack_sum_nonneg(ids: Seq<usize>, edges: Seq<DirectedEdge>, cand: int, rank: Seq<i32>)
    ensures
        in_slack_sum(ids, edges, cand, rank) >= 0,
    decreases ids.len(),
{
    if ids.len() > 0 {
        lemma_in_slack_sum_nonneg(ids.drop_last(), edges, cand, rank);
        let e = edges[ids.last() as int];
        let p = pos(cand - rank[e.tail as int] - e.min_len);
        let w = unit_weight(e);
        assert(p * w >= 0) by (nonlinear_arith)
            requires
                p >= 0,
                w >= 1,
        ;
    }
}

proof fn lemma_out_slack_sum_mono(ids: Seq<usize>, edges: Seq<DirectedEdge>, cand: int, rank: Seq<i32>, k: int)
    requires
        0 <= k <= ids.len(),
    ensures
        0 <= out_slack_sum(ids.subrange(0, k), edges, cand, rank) <= out_slack_sum(ids, edges, cand, rank),
    decreases ids.len(),
{
    if k < ids.len() {
        assert(ids.drop_last().subrange(0, k) =~= ids.subrange(0, k));
        lemma_out_slack_sum_mono(ids.drop_last(), edges, cand, rank, k);
        let e = edges[ids.last() as int];
        let p = pos(rank[e.head as int] - cand - e.min_len);
        let w = unit_weight(e);
        assert(p * w >= 0) by (nonlinear_arith)
            requires
                p >= 0,
                w >= 1,
        ;
    } else {
        assert(ids.subrange(0, k) =~= ids);
        lemma_out_slack_sum_nonneg(ids, edges, cand, rank);
    }
}

proof fn lemma_out_slack_sum_nonneg(ids: Seq<usize>, edges: Seq<DirectedEdge>, cand: int, rank: Seq<i32>)
    ensures
        out_slack_sum(ids, edges, cand, rank) >= 0,
    decreases ids.len(),
{
    if ids.len() > 0 {
        lemma_out_slack_sum_nonneg(ids.drop_last(), edges, cand, rank);
        let e = edges[ids.last() as int];
        let p = pos(rank[e.head as int] - cand - e.min_len);
        let w = unit_weight(e);
        assert(p * w >= 0) by (nonlinear_arith)
            requires
                p >= 0,
                w >= 1,
        ;
    }
}

/// The weighted slack that the edges at `node` would have if `node` were
/// moved to `rank_candidate`: for each incoming edge the rank gap beyond its
/// minimum length, for each outgoing edge likewise, each times the edge's
/// weight (at least one).
pub fn local_slack_cost(
    node: usize,
    rank_candidate: i32,
    rank: &[i32],
    edges: &[DirectedEdge],
    incoming: &[Vec<usize>],
    outgoing: &[Vec<usize>],
) -> (cost: i64)
    requires
        node_lists_in_range(node as int, rank@, edges@, incoming@, outgoing@),
        slack_terms_fit(node as int, rank_candidate as int, rank@, edges@, incoming@, outgoing@),
        slack_cost(node as int, rank_candidate as int, rank@, edges@, incoming@, outgoing@) <= i64::MAX,
    ensures
        cost == slack_cost(node as int, rank_candidate as int, rank@, edges@, incoming@, outgoing@),
{
    let ghost cand = rank_candidate as int;
    let ghost ins = incoming@[node as int]@;
    let ghost outs = outgoing@[node as int]@;
    let mut cost: i64 = 0;
    let inc = &incoming[node];
    let mut k: usize = 0;
    proof {
        lemma_out_slack_sum_nonneg(outs, edges@, cand, rank@);
        lemma_in_slack_sum_nonneg(ins, edges@, cand, rank@);
    }
    while k < inc.len()
        invariant
            k <= inc@.len(),
            inc@ == ins,
            cand == rank_candidate,
            ins == incoming@[node as int]@,
            node_lists_in_range(node as int, rank@, edges@, incoming@, outgoing@),
            slack_terms_fit(node as int, cand, rank@, edges@, incoming@, outgoing@),
            in_slack_sum(ins, edges@, cand, rank@) <= i64::MAX,
            cost == in_slack_sum(ins.subrange(0, k as int), edges@, cand, rank@),
        decreases inc.len() - k,
    {
        let edge = &edges[inc[k]];
        proof {
            let id = incoming@[node as int]@[k as int];
            assert(i32::MIN <= cand - rank@[edges@[id as int].tail as int] - edges@[id as int].min_len <= i32::MAX);
            assert(i32::MIN <= cand - rank@[edges@[id as int].tail as int] <= i32::MAX);
        }
        let diff = rank_candidate - rank[edge.tail] - edge.min_len;
        let slack = if diff > 0 {
            diff
        } else {
            0
        };
        let w = if edge.weight > 1 {
            edge.weight
        } else {
            1
        };
        proof {
            assert(ins.subrange(0, k + 1).drop_last() =~= ins.subrange(0, k as int));
            lemma_in_slack_sum_mono(ins, edges@, cand, rank@, k + 1);
            assert(0 <= slack as int * w as int <= 0x7fff_ffff * 0x7fff_ffff) by (nonlinear_arith)
                requires
                    0 <= slack <= 0x7fff_ffff,
                    1 <= w <= 0x7fff_ffff,
            ;
        }
        cost = cost + slack as i64 * w as i64;
        k = k + 1;
    }
    proof {
        assert(ins.subrange(0, ins.len() as int) =~= ins);
    }
    let outg = &outgoing[node];
    let mut k: usize = 0;
    let ghost base = cost as int;
    while k < outg.len()
        invariant
            k <= outg@.len(),
            outg@ == outs,
            cand == rank_candidate,
            outs == outgoing@[node as int]@,
            node_lists_in_range(node as int, rank@, edges@, incoming@, outgoing@),
            slack_terms_fit(node as int, cand, rank@, edges@, incoming@, outgoing@),
            base == in_slack_sum(ins, edges@, cand, rank@),
            base + out_slack_sum(outs, edges@, cand, rank@) <= i64::MAX,
            cost == base + out_slack_sum(outs.subrange(0, k as int), edges@, cand, rank@),
        decreases outg.len() - k,
    {
        let edge = &edges[outg[k]];
        proof {
            let id = outgoing@[node as int]@[k as int];
            assert(i32::MIN <= rank@[edges@[id as int].head as int] - cand - edges@[id as int].min_len <= i32::MAX);
            assert(i32::MIN <= rank@[edges@[id as int].head as int] - cand <= i32::MAX);
        }
        let diff = rank[edge.head] - rank_candidate - edge.min_len;
        let slack = if diff > 0 {
            diff
        } else {
            0
        };
        let w = if edge.weight > 1 {
            edge.weight
        } else {
            1
        };
        proof {
            assert(outs.subrange(0, k + 1).drop_last() =~= outs.subrange(0, k as int));
            lemma_out_slack_sum_mono(outs, edges@, cand, rank@, k + 1);
            assert(0 <= slack as int * w as int <= 0x7fff_ffff * 0x7fff_ffff) by (nonlinear_arith)
                requires
                    0 <= slack <= 0x7fff_ffff,
                    1 <= w <= 0x7fff_ffff,
            ;
        }
        cost = cost + slack as i64 * w as i64;
        k = k + 1;
    }
    proof {
        assert(outs.subrange(0, outs.len() as int) =~= outs);
    }
    cost
}


/// Every rank lies within `b` of zero.
pub open spec fn abs_within(rank: Seq<i32>, b: int) -> bool {
    forall|i: int| 0 <= i < rank.len() ==> -b <= #[trigger] rank[i] <= b
}

/// Every minimum length, current and original, lies within `l` of zero.
pub open spec fn lens_within(edges: Seq<DirectedEdge>, l: int) -> bool {
    forall|e: int|
        0 <= e < edges.len() ==> -l <= (#[trigger] edges[e]).min_len <= l && -l <= edges[e].base_min_len
            <= l
}

/// Every weight lies within `w` of zero.
pub open spec fn weights_within(edges: Seq<DirectedEdge>, w: int) -> bool {
    forall|e: int| 0 <= e < edges.len() ==> -w <= (#[trigger] edges[e]).weight <= w
}

/// No node has more than `d` incoming and outgoing edges together.
pub open spec fn degrees_within(incoming: Seq<Vec<usize>>, outgoing: Seq<Vec<usize>>, d: int) -> bool {
    forall|v: int| 0 <= v < incoming.len() ==> (#[trigger] incoming[v])@.len() + outgoing[v]@.len() <= d
}

/// The incoming and outgoing lists of all `n` nodes name existing edges
/// whose far ends are nodes.
pub open spec fn lists_in_range(
    n: int,
    edges: Seq<DirectedEdge>,
    incoming: Seq<Vec<usize>>,
    outgoing: Seq<Vec<usize>>,
) -> bool {
    &&& incoming.len() == n
    &&& outgoing.len() == n
    &&& forall|v: int, k: int|
        0 <= v < n && 0 <= k < incoming[v]@.len() ==> (#[trigger] incoming[v]@[k]) < edges.len()
            && edges[incoming[v]@[k] as int].tail < n
    &&& forall|v: int, k: int|
        0 <= v < n && 0 <= k < outgoing[v]@.len() ==> (#[trigger] outgoing[v]@[k]) < edges.len()
            && edges[outgoing[v]@[k] as int].head < n
}

/// The largest absolute rank, or zero.
pub open spec fn max_abs(s: Seq<i32>) -> int
    decreases s.len(),
{
    if s.len() == 0 {
        0
    } else {
        let m = max_abs(s.drop_last());
        let a: int = if s.last() < 0 {
            -s.last()
        } else {
            s.last() as int
        };
        if a > m {
            a
        } else {
            m
        }
    }
}

/// The largest absolute minimum length, current or original, or zero.
pub open spec fn len_abs_cap(edges: Seq<DirectedEdge>) -> int
    decreases edges.len(),
{
    if edges.len() == 0 {
        0
    } else {
        let m = len_abs_cap(edges.drop_last());
        let e = edges.last();
        let a: int = if e.min_len < 0 {
            -e.min_len
        } else {
            e.min_len as int
        };
        let b: int = if e.base_min_len < 0 {
            -e.base_min_len
        } else {
            e.base_min_len as int
        };
        let x = if a > b {
            a
        } else {
            b
        };
        if x > m {
            x
        } else {
            m
        }
    }
}

/// The largest absolute weight, or zero.
pub open spec fn weight_abs_cap(edges: Seq<DirectedEdge>) -> int
    decreases edges.len(),
{
    if edges.len() == 0 {
        0
    } else {
        let m = weight_abs_cap(edges.drop_last());
        let e = edges.last();
        let a: int = if e.weight < 0 {
            -e.weight
        } else {
            e.weight as int
        };
        if a > m {
            a
        } else {
            m
        }
    }
}

/// The largest number of edges listed at one node, or zero.
pub open spec fn degree_cap(incoming: Seq<Vec<usize>>, outgoing: Seq<Vec<usize>>) -> int
    decreases incoming.len(),
{
    if incoming.len() == 0 {
        0
    } else {
        let m = degree_cap(incoming.drop_last(), outgoing);
        let v = incoming.len() - 1;
        let x: int = (incoming[v]@.len() + outgoing[v]@.len()) as int;
        if x > m {
            x
        } else {
            m
        }
    }
}

/// The lengths, weights and degrees are small enough that one sweep of
/// `network_simplex_refine`, started from ranks within `2^29`,
/// cannot overflow.
pub open spec fn simplex_fits(
    edges: Seq<DirectedEdge>,
    topo: Seq<usize>,
    incoming: Seq<Vec<usize>>,
    outgoing: Seq<Vec<usize>>,
) -> bool {
    &&& (2 * topo.len() + 2) * (len_abs_cap(edges) + 1) <= 0x1000_0000
    &&& degree_cap(incoming, outgoing) * (weight_abs_cap(edges) + 1) <= 0x8000_0000
}

/// How many center passes `network_simplex_refine` makes at most on `n`
/// nodes.
pub open spec fn center_passes(n: int) -> nat {
    (if 4 * n > 12 {
        4 * n
    } else {
        12
    }) as nat
}

/// How many pivot rounds `network_simplex_refine` makes at most on `n`
/// nodes.
pub open spec fn pivot_rounds(n: int) -> nat {
    (if 2 * n > 8 {
        2 * n
    } else {
        8
    }) as nat
}

/// The ranks each center pass starts from, and those after the last one,
/// lie within `b`.
pub open spec fn center_states_within(
    rank: Seq<i32>,
    topo: Seq<usize>,
    pinned: Seq<usize>,
    edges: Seq<DirectedEdge>,
    incoming: Seq<Vec<usize>>,
    outgoing: Seq<Vec<usize>>,
    passes: nat,
    b: int,
) -> bool {
    forall|p: nat| p <= passes ==> abs_within(#[trigger] center_phase(rank, topo, pinned, edges, incoming, outgoing, p).0, b)
}

/// The ranks each pivot round starts from, and those after the last one,
/// lie within `b`.
pub open spec fn pivot_states_within(
    rank: Seq<i32>,
    topo: Seq<usize>,
    pinned: Seq<usize>,
    edges: Seq<DirectedEdge>,
    incoming: Seq<Vec<usize>>,
    outgoing: Seq<Vec<usize>>,
    rounds: nat,
    b: int,
) -> bool {
    forall|q: nat| q <= rounds ==> abs_within(#[trigger] pivot_phase(rank, topo, pinned, edges, incoming, outgoing, q).0, b)
}

/// Every rank `network_simplex_refine` starts a sweep from, and the ranks
/// it ends with, lie within `2^29`: the magnitude of `i32::MIN / 4`, the
/// lower of the two sentinels that stand for a missing bound.
pub open spec fn refine_stays_within(
    rank: Seq<i32>,
    topo: Seq<usize>,
    pinned: Seq<usize>,
    edges: Seq<DirectedEdge>,
    incoming: Seq<Vec<usize>>,
    outgoing: Seq<Vec<usize>>,
) -> bool {
    let n = rank.len() as int;
    n <= 1 || (center_states_within(rank, topo, pinned, edges, incoming, outgoing, center_passes(n), 0x2000_0000)
        && pivot_states_within(
        center_phase(rank, topo, pinned, edges, incoming, outgoing, center_passes(n)).0,
        topo,
        pinned,
        edges,
        incoming,
        outgoing,
        pivot_rounds(n),
        0x2000_0000,
    ))
}

/// Whether every rank lies within `b` of zero.
pub(crate) fn ranks_within(rank: &[i32], b: i32) -> (r: bool)
    requires
        b >= 0,
    ensures
        r == abs_within(rank@, b as int),
{
    let mut i: usize = 0;
    while i < rank.len()
        invariant
            i <= rank@.len(),
            b >= 0,
            forall|k: int| 0 <= k < i ==> -b <= #[trigger] rank@[k] <= b,
        decreases rank.len() - i,
    {
        if rank[i] < -b || rank[i] > b {
            return false;
        }
        i += 1;
    }
    true
}

pub(crate) proof fn lemma_max_abs(s: Seq<i32>)
    ensures
        max_abs(s) >= 0,
        abs_within(s, max_abs(s)),
    decreases s.len(),
{
    if s.len() > 0 {
        lemma_max_abs(s.drop_last());
        assert(forall|i: int| 0 <= i < s.len() - 1 ==> s[i] == s.drop_last()[i]);
    }
}

pub(crate) proof fn lemma_len_abs_cap(edges: Seq<DirectedEdge>)
    ensures
        len_abs_cap(edges) >= 0,
        lens_within(edges, len_abs_cap(edges)),
    decreases edges.len(),
{
    if edges.len() > 0 {
        lemma_len_abs_cap(edges.drop_last());
        assert(forall|i: int| 0 <= i < edges.len() - 1 ==> edges[i] == edges.drop_last()[i]);
    }
}

pub(crate) proof fn lemma_weight_abs_cap(edges: Seq<DirectedEdge>)
    ensures
        weight_abs_cap(edges) >= 0,
        weights_within(edges, weight_abs_cap(edges)),
    decreases edges.len(),
{
    if edges.len() > 0 {
        lemma_weight_abs_cap(edges.drop_last());
        assert(forall|i: int| 0 <= i < edges.len() - 1 ==> edges[i] == edges.drop_last()[i]);
    }
}

pub(crate) proof fn lemma_degree_cap(incoming: Seq<Vec<usize>>, outgoing: Seq<Vec<usize>>)
    ensures
        degree_cap(incoming, outgoing) >= 0,
        degrees_within(incoming, outgoing, degree_cap(incoming, outgoing)),
    decreases incoming.len(),
{
    if incoming.len() > 0 {
        lemma_degree_cap(incoming.drop_last(), outgoing);
        assert(forall|i: int| 0 <= i < incoming.len() - 1 ==> incoming[i] == incoming.drop_last()[i]);
    }
}

/// Whether `x` occurs in `list`.
fn is_listed(list: &[usize], x: usize) -> (r: bool)
    ensures
        r == list@.contains(x),
{
    let mut i: usize = 0;
    while i < list.len()
        invariant
            i <= list@.len(),
            forall|j: int| 0 <= j < i ==> list@[j] != x,
        decreases list.len() - i,
    {
        if list[i] == x {
            return true;
        }
        i += 1;
    }
    false
}

/// `rank` with every listed node at zero.
pub open spec fn pinned_at_zero(rank: Seq<i32>, pinned: Seq<usize>) -> Seq<i32> {
    Seq::new(rank.len(), |v: int| if pinned.contains(v as usize) { 0i32 } else { rank[v] })
}

/// Puts every listed node at rank zero.
pub(crate) fn pin_sources(rank: &mut [i32], sources: &[usize])
    requires
        forall|i: int| 0 <= i < sources@.len() ==> sources@[i] < old(rank)@.len(),
    ensures
        final(rank)@.len() == old(rank)@.len(),
        forall|v: int|
            0 <= v < old(rank)@.len() ==> final(rank)@[v] == (if sources@.contains(v as usize) {
                0
            } else {
                old(rank)@[v]
            }),
{
    let ghost start = rank@;
    let mut i: usize = 0;
    while i < sources.len()
        invariant
            i <= sources@.len(),
            rank@.len() == start.len(),
            forall|j: int| 0 <= j < sources@.len() ==> sources@[j] < start.len(),
            forall|v: int|
                0 <= v < start.len() ==> rank@[v] == (if sources@.subrange(0, i as int).contains(
                    v as usize,
                ) {
                    0
                } else {
                    start[v]
                }),
        decreases sources.len() - i,
    {
        let ghost prev = sources@.subrange(0, i as int);
        rank[sources[i]] = 0;
        proof {
            let next = sources@.subrange(0, i + 1);
            assert forall|v: int| 0 <= v < start.len() implies rank@[v] == (if next.contains(v as usize) {
                0
            } else {
                start[v]
            }) by {
                if next.contains(v as usize) && v != sources@[i as int] {
                    let j = choose|j: int| 0 <= j < next.len() && next[j] == v as usize;
                    assert(prev[j] == v as usize);
                }
                if prev.contains(v as usize) {
                    let j = choose|j: int| 0 <= j < prev.len() && prev[j] == v as usize;
                    assert(next[j] == v as usize);
                }
                if v == sources@[i as int] {
                    assert(next[i as int] == v as usize);
                }
            }
        }
        i += 1;
    }
    assert(sources@.subrange(0, sources@.len() as int) =~= sources@);
}

/// `x` limited to the range from `lo` to `hi`.
fn clamp_i32(x: i32, lo: i32, hi: i32) -> (r: i32)
    requires
        lo <= hi,
    ensures
        r == (if x < lo {
            lo
        } else if x > hi {
            hi
        } else {
            x
        }),
{
    if x < lo {
        lo
    } else if x > hi {
        hi
    } else {
        x
    }
}

/// The lowest rank that keeps the edges `ids` entering a node feasible: the
/// largest tail rank plus minimum length; `i32::MIN / 4` without any edge.
pub open spec fn floor_from(ids: Seq<usize>, edges: Seq<DirectedEdge>, rank: Seq<i32>) -> int
    decreases ids.len(),
{
    if ids.len() == 0 {
        -0x2000_0000
    } else {
        let e = edges[ids.last() as int];
        let v = rank[e.tail as int] + e.min_len;
        if ids.len() == 1 {
            v
        } else {
            let m = floor_from(ids.drop_last(), edges, rank);
            if v > m {
                v
            } else {
                m
            }
        }
    }
}

/// The highest rank that keeps the edges `ids` leaving a node feasible: the
/// smallest head rank minus minimum length; `i32::MAX / 4` without any edge.
pub open spec fn ceiling_from(ids: Seq<usize>, edges: Seq<DirectedEdge>, rank: Seq<i32>) -> int
    decreases ids.len(),
{
    if ids.len() == 0 {
        0x1fff_ffff
    } else {
        let e = edges[ids.last() as int];
        let v = rank[e.head as int] - e.min_len;
        if ids.len() == 1 {
            v
        } else {
            let m = ceiling_from(ids.drop_last(), edges, rank);
            if v < m {
                v
            } else {
                m
            }
        }
    }
}

/// The range of ranks that keeps every edge at `node` feasible: at least
/// the largest tail rank plus minimum length over its incoming edges (or
/// `i32::MIN / 4` without any), at most the smallest head rank minus minimum
/// length over its outgoing edges (or `i32::MAX / 4` without any). With all
/// ranks within `hb` and all lengths within `l`, each end that comes from
/// edges lies within `hb + l`.
fn rank_window(
    node: usize,
    rank: &[i32],
    edges: &[DirectedEdge],
    incoming: &[Vec<usize>],
    outgoing: &[Vec<usize>],
    Ghost(hb): Ghost<int>,
    Ghost(l): Ghost<int>,
) -> (r: (i32, i32))
    requires
        node_lists_in_range(node as int, rank@, edges@, incoming@, outgoing@),
        abs_within(rank@, hb),
        lens_within(edges@, l),
        0 <= hb,
        0 <= l,
        hb + l <= 0x3000_0000,
    ensures
        incoming@[node as int]@.len() == 0 ==> r.0 == -0x2000_0000,
        incoming@[node as int]@.len() > 0 ==> -(hb + l) <= r.0 <= hb + l,
        outgoing@[node as int]@.len() == 0 ==> r.1 == 0x1fff_ffff,
        outgoing@[node as int]@.len() > 0 ==> -(hb + l) <= r.1 <= hb + l,
        r.0 == floor_from(incoming@[node as int]@, edges@, rank@),
        r.1 == ceiling_from(outgoing@[node as int]@, edges@, rank@),
{
    let inc = &incoming[node];
    let mut lower: i32 = -0x2000_0000;
    let mut k: usize = 0;
    while k < inc.len()
        invariant
            k <= inc@.len(),
            inc@ == incoming@[node as int]@,
            node_lists_in_range(node as int, rank@, edges@, incoming@, outgoing@),
            abs_within(rank@, hb),
            lens_within(edges@, l),
            hb + l <= 0x3000_0000,
            0 <= hb,
            0 <= l,
            k == 0 ==> lower == -0x2000_0000,
            k > 0 ==> -(hb + l) <= lower <= hb + l,
            lower == floor_from(inc@.subrange(0, k as int), edges@, rank@),
        decreases inc.len() - k,
    {
        let edge = &edges[inc[k]];
        let v = rank[edge.tail] + edge.min_len;
        proof {
            let pre = inc@.subrange(0, k + 1);
            assert(pre.drop_last() =~= inc@.subrange(0, k as int));
            assert(pre.last() == inc@[k as int]);
        }
        if k == 0 || v > lower {
            lower = v;
        }
        k += 1;
    }
    assert(inc@.subrange(0, inc@.len() as int) =~= inc@);
    let outg = &outgoing[node];
    let mut upper: i32 = 0x1fff_ffff;
    let mut k: usize = 0;
    while k < outg.len()
        invariant
            k <= outg@.len(),
            outg@ == outgoing@[node as int]@,
            node_lists_in_range(node as int, rank@, edges@, incoming@, outgoing@),
            abs_within(rank@, hb),
            lens_within(edges@, l),
            hb + l <= 0x3000_0000,
            0 <= hb,
            0 <= l,
            k == 0 ==> upper == 0x1fff_ffff,
            k > 0 ==> -(hb + l) <= upper <= hb + l,
            upper == ceiling_from(outg@.subrange(0, k as int), edges@, rank@),
            lower == floor_from(incoming@[node as int]@, edges@, rank@),
        decreases outg.len() - k,
    {
        let edge = &edges[outg[k]];
        let v = rank[edge.head] - edge.min_len;
        proof {
            let pre = outg@.subrange(0, k + 1);
            assert(pre.drop_last() =~= outg@.subrange(0, k as int));
            assert(pre.last() == outg@[k as int]);
        }
        if k == 0 || v < upper {
            upper = v;
        }
        k += 1;
    }
    assert(outg@.subrange(0, outg@.len() as int) =~= outg@);
    (lower, upper)
}


/// `num / den` rounded to the nearest integer, halves away from zero.
pub open spec fn round_half_away(num: int, den: int) -> int {
    if num >= 0 {
        num / den + (if 2 * (num % den) >= den {
            1int
        } else {
            0int
        })
    } else {
        -((-num) / den + (if 2 * ((-num) % den) >= den {
            1int
        } else {
            0int
        }))
    }
}

proof fn lemma_div_within(a: int, d: int, k: int)
    requires
        0 <= a <= k * d,
        d > 0,
        k >= 0,
    ensures
        0 <= a / d <= k,
        a / d == k ==> a % d == 0,
        0 <= a % d < d,
{
    vstd::arithmetic::div_mod::lemma_fundamental_div_mod(a, d);
    vstd::arithmetic::div_mod::lemma_mod_bound(a, d);
    let q = a / d;
    let r = a % d;
    assert(q >= 0) by (nonlinear_arith)
        requires
            a == d * q + r,
            0 <= r < d,
            a >= 0,
            d > 0,
    ;
    assert(q <= k) by (nonlinear_arith)
        requires
            a == d * q + r,
            0 <= r < d,
            a <= k * d,
            d > 0,
    ;
    assert(q == k ==> r == 0) by (nonlinear_arith)
        requires
            a == d * q + r,
            0 <= r < d,
            a <= k * d,
    ;
}

/// `num / den` rounded half away from zero, for a quotient within `bound`.
fn round_div(num: i128, den: i128, Ghost(bound): Ghost<int>) -> (r: i128)
    requires
        den > 0,
        0 <= bound,
        -bound * den <= num <= bound * den,
        -0x4000_0000_0000_0000_0000_0000_0000_0000 < num < 0x4000_0000_0000_0000_0000_0000_0000_0000,
        den < 0x4000_0000_0000_0000_0000_0000_0000_0000,
    ensures
        r == round_half_away(num as int, den as int),
        -bound <= r <= bound,
{
    if num >= 0 {
        let a = num as u128;
        let d = den as u128;
        let q = a / d;
        let rem = a % d;
        proof {
            lemma_div_within(a as int, d as int, bound);
        }
        let up: u128 = if 2 * rem >= d {
            1
        } else {
            0
        };
        (q + up) as i128
    } else {
        let a = (-num) as u128;
        let d = den as u128;
        let q = a / d;
        let rem = a % d;
        proof {
            assert(-bound * den == -(bound * den)) by (nonlinear_arith);
            assert(-num <= bound * den);
            lemma_div_within(a as int, d as int, bound);
        }
        let up: u128 = if 2 * rem >= d {
            1
        } else {
            0
        };
        -((q + up) as i128)
    }
}

/// Sum over the edges `ids` entering a node of tail rank plus minimum
/// length, each times the edge's weight (at least one).
pub open spec fn in_center_num(ids: Seq<usize>, edges: Seq<DirectedEdge>, rank: Seq<i32>) -> int
    decreases ids.len(),
{
    if ids.len() == 0 {
        0
    } else {
        let e = edges[ids.last() as int];
        in_center_num(ids.drop_last(), edges, rank) + (rank[e.tail as int] + e.min_len) * unit_weight(e)
    }
}

/// Sum over the edges `ids` leaving a node of head rank minus minimum
/// length, each times the edge's weight (at least one).
pub open spec fn out_center_num(ids: Seq<usize>, edges: Seq<DirectedEdge>, rank: Seq<i32>) -> int
    decreases ids.len(),
{
    if ids.len() == 0 {
        0
    } else {
        let e = edges[ids.last() as int];
        out_center_num(ids.drop_last(), edges, rank) + (rank[e.head as int] - e.min_len) * unit_weight(e)
    }
}

/// Sum of the weights (each at least one) of the edges `ids`.
pub open spec fn weight_count(ids: Seq<usize>, edges: Seq<DirectedEdge>) -> int
    decreases ids.len(),
{
    if ids.len() == 0 {
        0
    } else {
        weight_count(ids.drop_last(), edges) + unit_weight(edges[ids.last() as int])
    }
}

/// The weighted mean of what the edges at `node` ask for, rounded half away
/// from zero; none when `node` has no edges.
pub open spec fn center_spec(
    node: int,
    rank: Seq<i32>,
    edges: Seq<DirectedEdge>,
    incoming: Seq<Vec<usize>>,
    outgoing: Seq<Vec<usize>>,
) -> Option<int> {
    let den = weight_count(incoming[node]@, edges) + weight_count(outgoing[node]@, edges);
    if den > 0 {
        Some(
            round_half_away(
                in_center_num(incoming[node]@, edges, rank) + out_center_num(outgoing[node]@, edges, rank),
                den,
            ),
        )
    } else {
        None
    }
}

/// The weighted mean of the ranks that the edges at `node` ask for (tail
/// rank plus minimum length for incoming edges, head rank minus minimum
/// length for outgoing ones, each weighted by its weight but at least one),
/// rounded half away from zero; none when `node` has no edges.
fn weighted_center(
    node: usize,
    rank: &[i32],
    edges: &[DirectedEdge],
    incoming: &[Vec<usize>],
    outgoing: &[Vec<usize>],
    Ghost(hb): Ghost<int>,
    Ghost(l): Ghost<int>,
) -> (c: Option<i32>)
    requires
        node_lists_in_range(node as int, rank@, edges@, incoming@, outgoing@),
        abs_within(rank@, hb),
        lens_within(edges@, l),
        0 <= hb,
        0 <= l,
        hb + l <= 0x3000_0000,
    ensures
        (c is None) == (incoming@[node as int]@.len() == 0 && outgoing@[node as int]@.len() == 0),
        c is Some ==> -(hb + l) <= c->0 <= hb + l,
        (c is None) == (center_spec(node as int, rank@, edges@, incoming@, outgoing@) is None),
        c is Some ==> c->0 as int == center_spec(node as int, rank@, edges@, incoming@, outgoing@)->0,
{
    let ghost k2 = hb + l;
    let mut num: i128 = 0;
    let mut den: i128 = 0;
    let inc = &incoming[node];
    let mut k: usize = 0;
    while k < inc.len()
        invariant
            k <= inc@.len(),
            inc@ == incoming@[node as int]@,
            node_lists_in_range(node as int, rank@, edges@, incoming@, outgoing@),
            abs_within(rank@, hb),
            lens_within(edges@, l),
            k2 == hb + l,
            0 <= k2 <= 0x3000_0000,
            k <= den <= k * 0x8000_0000,
            -k2 * den <= num <= k2 * den,
            num == in_center_num(inc@.subrange(0, k as int), edges@, rank@),
            den == weight_count(inc@.subrange(0, k as int), edges@),
        decreases inc.len() - k,
    {
        proof {
            let pre = inc@.subrange(0, k + 1);
            assert(pre.drop_last() =~= inc@.subrange(0, k as int));
            assert(pre.last() == inc@[k as int]);
        }
        let edge = &edges[inc[k]];
        let w: i128 = if edge.weight > 1 {
            edge.weight as i128
        } else {
            1
        };
        let v: i128 = (rank[edge.tail] + edge.min_len) as i128;
        proof {
            assert(k * 0x8000_0000 <= 0x1_0000_0000_0000_0000 * 0x8000_0000) by (nonlinear_arith)
                requires
                    k <= 0x1_0000_0000_0000_0000,
            ;
            assert(k2 * den <= 0x3000_0000 * (0x1_0000_0000_0000_0000 * 0x8000_0000)) by (nonlinear_arith)
                requires
                    0 <= k2 <= 0x3000_0000,
                    0 <= den <= 0x1_0000_0000_0000_0000 * 0x8000_0000,
            ;
            assert(-k2 * w <= v * w <= k2 * w) by (nonlinear_arith)
                requires
                    -k2 <= v <= k2,
                    w >= 1,
            ;
            assert(-k2 * (den + w) == -k2 * den + -k2 * w) by (nonlinear_arith);
            assert(-k2 * den == -(k2 * den)) by (nonlinear_arith);
            assert(k2 * (den + w) == k2 * den + k2 * w) by (nonlinear_arith);
            assert(-0x3000_0000 * 0x8000_0000 <= v * w <= 0x3000_0000 * 0x8000_0000) by (nonlinear_arith)
                requires
                    -0x3000_0000 <= v <= 0x3000_0000,
                    1 <= w <= 0x8000_0000,
            ;
            assert((k + 1) * 0x8000_0000 == k * 0x8000_0000 + 0x8000_0000) by (nonlinear_arith);
        }
        num = num + v * w;
        den = den + w;
        k += 1;
    }
    let kin = inc.len();
    assert(inc@.subrange(0, inc@.len() as int) =~= inc@);
    let ghost num_in = num as int;
    let ghost den_in = den as int;
    let outg = &outgoing[node];
    let mut k: usize = 0;
    while k < outg.len()
        invariant
            k <= outg@.len(),
            outg@ == outgoing@[node as int]@,
            kin == incoming@[node as int]@.len(),
            node_lists_in_range(node as int, rank@, edges@, incoming@, outgoing@),
            abs_within(rank@, hb),
            lens_within(edges@, l),
            k2 == hb + l,
            0 <= k2 <= 0x3000_0000,
            kin + k <= den <= (kin + k) * 0x8000_0000,
            -k2 * den <= num <= k2 * den,
            num_in == in_center_num(incoming@[node as int]@, edges@, rank@),
            den_in == weight_count(incoming@[node as int]@, edges@),
            num == num_in + out_center_num(outg@.subrange(0, k as int), edges@, rank@),
            den == den_in + weight_count(outg@.subrange(0, k as int), edges@),
        decreases outg.len() - k,
    {
        proof {
            let pre = outg@.subrange(0, k + 1);
            assert(pre.drop_last() =~= outg@.subrange(0, k as int));
            assert(pre.last() == outg@[k as int]);
        }
        let edge = &edges[outg[k]];
        let w: i128 = if edge.weight > 1 {
            edge.weight as i128
        } else {
            1
        };
        let v: i128 = (rank[edge.head] - edge.min_len) as i128;
        proof {
            let t = kin + k;
            assert(t * 0x8000_0000 <= 0x2_0000_0000_0000_0000 * 0x8000_0000) by (nonlinear_arith)
                requires
                    0 <= t <= 0x2_0000_0000_0000_0000,
            ;
            assert(k2 * den <= 0x3000_0000 * (0x2_0000_0000_0000_0000 * 0x8000_0000)) by (nonlinear_arith)
                requires
                    0 <= k2 <= 0x3000_0000,
                    0 <= den <= 0x2_0000_0000_0000_0000 * 0x8000_0000,
            ;
            assert(-k2 * w <= v * w <= k2 * w) by (nonlinear_arith)
                requires
                    -k2 <= v <= k2,
                    w >= 1,
            ;
            assert(-k2 * (den + w) == -k2 * den + -k2 * w) by (nonlinear_arith);
            assert(-k2 * den == -(k2 * den)) by (nonlinear_arith);
            assert(k2 * (den + w) == k2 * den + k2 * w) by (nonlinear_arith);
            assert(-0x3000_0000 * 0x8000_0000 <= v * w <= 0x3000_0000 * 0x8000_0000) by (nonlinear_arith)
                requires
                    -0x3000_0000 <= v <= 0x3000_0000,
                    1 <= w <= 0x8000_0000,
            ;
            assert((t + 1) * 0x8000_0000 == t * 0x8000_0000 + 0x8000_0000) by (nonlinear_arith);
        }
        num = num + v * w;
        den = den + w;
        k += 1;
    }
    assert(outg@.subrange(0, outg@.len() as int) =~= outg@);
    if den > 0 {
        proof {
            let t = kin + outg@.len();
            assert(den <= 0x2_0000_0000_0000_0000 * 0x8000_0000) by (nonlinear_arith)
                requires
                    0 <= t <= 0x2_0000_0000_0000_0000,
                    den <= t * 0x8000_0000,
            ;
            assert(k2 * den <= 0x3000_0000 * (0x2_0000_0000_0000_0000 * 0x8000_0000)) by (nonlinear_arith)
                requires
                    0 <= k2 <= 0x3000_0000,
                    0 <= den <= 0x2_0000_0000_0000_0000 * 0x8000_0000,
            ;
        }
        proof {
            assert(-k2 * den == -(k2 * den)) by (nonlinear_arith);
        }
        let r = round_div(num, den, Ghost(k2));
        Some(r as i32)
    } else {
        None
    }
}

/// Total weight of the edges `ids`: each edge's weight plus how much its
/// minimum length was raised above its original one.
pub open spec fn flow_sum(ids: Seq<usize>, edges: Seq<DirectedEdge>) -> int
    decreases ids.len(),
{
    if ids.len() == 0 {
        0
    } else {
        let e = edges[ids.last() as int];
        flow_sum(ids.drop_last(), edges) + e.weight + pos(e.min_len - e.base_min_len)
    }
}

/// Total weight of the edges `ids`: each edge's weight plus how much its
/// minimum length was raised above its original one.
fn flow_weight(ids: &Vec<usize>, edges: &[DirectedEdge]) -> (r: i128)
    requires
        forall|k: int| 0 <= k < ids@.len() ==> ids@[k] < edges@.len(),
    ensures
        ids@.len() == 0 ==> r == 0,
        r == flow_sum(ids@, edges@),
{
    let mut total: i128 = 0;
    let mut k: usize = 0;
    while k < ids.len()
        invariant
            k <= ids@.len(),
            forall|kk: int| 0 <= kk < ids@.len() ==> ids@[kk] < edges@.len(),
            -(k * 0x4_0000_0000) <= total <= k * 0x4_0000_0000,
            total == flow_sum(ids@.subrange(0, k as int), edges@),
        decreases ids.len() - k,
    {
        proof {
            let pre = ids@.subrange(0, k + 1);
            assert(pre.drop_last() =~= ids@.subrange(0, k as int));
            assert(pre.last() == ids@[k as int]);
        }
        let edge = &edges[ids[k]];
        let raised: i64 = edge.min_len as i64 - edge.base_min_len as i64;
        let extra: i64 = if raised > 0 {
            raised
        } else {
            0
        };
        proof {
            assert(k * 0x4_0000_0000 <= 0x1_0000_0000_0000_0000 * 0x4_0000_0000) by (nonlinear_arith)
                requires
                    k <= 0x1_0000_0000_0000_0000,
            ;
            assert((k + 1) * 0x4_0000_0000 == k * 0x4_0000_0000 + 0x4_0000_0000) by (nonlinear_arith);
        }
        total = total + edge.weight as i128 + extra as i128;
        k += 1;
    }
    assert(ids@.subrange(0, ids@.len() as int) =~= ids@);
    total
}


proof fn lemma_in_slack_sum_le(ids: Seq<usize>, edges: Seq<DirectedEdge>, cand: int, rank: Seq<i32>, t: int)
    requires
        t >= 0,
        forall|k: int| 0 <= k < ids.len() ==> in_slack(edges[#[trigger] ids[k] as int], cand, rank) <= t,
    ensures
        in_slack_sum(ids, edges, cand, rank) <= ids.len() * t,
    decreases ids.len(),
{
    if ids.len() > 0 {
        lemma_in_slack_sum_le(ids.drop_last(), edges, cand, rank, t);
        assert(ids[ids.len() - 1] == ids.last());
        assert((ids.len() - 1) * t + t == ids.len() * t) by (nonlinear_arith);
    }
}

proof fn lemma_out_slack_sum_le(ids: Seq<usize>, edges: Seq<DirectedEdge>, cand: int, rank: Seq<i32>, t: int)
    requires
        t >= 0,
        forall|k: int| 0 <= k < ids.len() ==> out_slack(edges[#[trigger] ids[k] as int], cand, rank) <= t,
    ensures
        out_slack_sum(ids, edges, cand, rank) <= ids.len() * t,
    decreases ids.len(),
{
    if ids.len() > 0 {
        lemma_out_slack_sum_le(ids.drop_last(), edges, cand, rank, t);
        assert(ids[ids.len() - 1] == ids.last());
        assert((ids.len() - 1) * t + t == ids.len() * t) by (nonlinear_arith);
    }
}

/// With ranks within `hb`, lengths within `l` and weights within `w`, the
/// slack cost of a candidate within `hb + l` can be computed without
/// overflow.
proof fn lemma_slack_cost_fits(
    node: int,
    cand: int,
    rank: Seq<i32>,
    edges: Seq<DirectedEdge>,
    incoming: Seq<Vec<usize>>,
    outgoing: Seq<Vec<usize>>,
    hb: int,
    l: int,
    w: int,
    d: int,
)
    requires
        node_lists_in_range(node, rank, edges, incoming, outgoing),
        abs_within(rank, hb),
        lens_within(edges, l),
        weights_within(edges, w),
        degrees_within(incoming, outgoing, d),
        0 <= hb,
        0 <= l,
        0 <= w,
        hb + l <= 0x3000_0000,
        -0x3000_0000 <= cand <= 0x3000_0000,
        d * (w + 1) <= 0x8000_0000,
    ensures
        slack_terms_fit(node, cand, rank, edges, incoming, outgoing),
        slack_cost(node, cand, rank, edges, incoming, outgoing) <= i64::MAX,
{
    let t = 0x6000_0000 * (w + 1);
    let ins = incoming[node]@;
    let outs = outgoing[node]@;
    assert forall|k: int| 0 <= k < ins.len() implies in_slack(edges[#[trigger] ins[k] as int], cand, rank) <= t by {
        let e = edges[ins[k] as int];
        let p = pos(cand - rank[e.tail as int] - e.min_len);
        let u = unit_weight(e);
        assert(0 <= p <= 0x6000_0000);
        assert(1 <= u <= w + 1);
        assert(p * u <= 0x6000_0000 * (w + 1)) by (nonlinear_arith)
            requires
                0 <= p <= 0x6000_0000,
                1 <= u <= w + 1,
        ;
    }
    assert forall|k: int| 0 <= k < outs.len() implies out_slack(edges[#[trigger] outs[k] as int], cand, rank) <= t by {
        let e = edges[outs[k] as int];
        let p = pos(rank[e.head as int] - cand - e.min_len);
        let u = unit_weight(e);
        assert(0 <= p <= 0x6000_0000);
        assert(1 <= u <= w + 1);
        assert(p * u <= 0x6000_0000 * (w + 1)) by (nonlinear_arith)
            requires
                0 <= p <= 0x6000_0000,
                1 <= u <= w + 1,
        ;
    }
    lemma_in_slack_sum_le(ins, edges, cand, rank, t);
    lemma_out_slack_sum_le(outs, edges, cand, rank, t);
    assert(ins.len() + outs.len() <= d);
    let a = ins.len() as int;
    let b = outs.len() as int;
    assert(a * t + b * t <= 0x8000_0000 * 0x6000_0000) by (nonlinear_arith)
        requires
            t == 0x6000_0000 * (w + 1),
            a >= 0,
            b >= 0,
            a + b <= d,
            d * (w + 1) <= 0x8000_0000,
            w >= 0,
    ;
}

/// `x` limited to `lo..=hi` lies within any bound that holds `x` and the
/// ends that are not the sentinels `i32::MIN / 4` and `i32::MAX / 4`.
proof fn lemma_clamp_within(x: int, lo: int, hi: int, b: int)
    requires
        lo <= hi,
        -b <= x <= b,
        lo == -0x2000_0000 || -b <= lo <= b,
        hi == 0x1fff_ffff || -b <= hi <= b,
    ensures
        -b <= (if x < lo {
            lo
        } else if x > hi {
            hi
        } else {
            x
        }) <= b,
{
}

/// Every node with no incoming edge is pinned.
pub open spec fn sources_pinned(incoming: Seq<Vec<usize>>, pinned: Seq<usize>) -> bool {
    forall|v: int| 0 <= v < incoming.len() && (#[trigger] incoming[v])@.len() == 0 ==> pinned.contains(v as usize)
}

proof fn lemma_in_slack_sum_cand_mono(ids: Seq<usize>, edges: Seq<DirectedEdge>, c1: int, c2: int, rank: Seq<i32>)
    requires
        c1 <= c2,
    ensures
        in_slack_sum(ids, edges, c1, rank) <= in_slack_sum(ids, edges, c2, rank),
    decreases ids.len(),
{
    if ids.len() > 0 {
        lemma_in_slack_sum_cand_mono(ids.drop_last(), edges, c1, c2, rank);
        let e = edges[ids.last() as int];
        let p1 = pos(c1 - rank[e.tail as int] - e.min_len);
        let p2 = pos(c2 - rank[e.tail as int] - e.min_len);
        let u = unit_weight(e);
        assert(p1 <= p2);
        assert(p1 * u <= p2 * u) by (nonlinear_arith)
            requires
                0 <= p1 <= p2,
                u >= 1,
        ;
    }
}

/// `x` limited to the range from `lo` to `hi`.
pub open spec fn clamp_int(x: int, lo: int, hi: int) -> int {
    if x < lo {
        lo
    } else if x > hi {
        hi
    } else {
        x
    }
}

/// Where a center sweep moves `node`: the weighted center of what its edges
/// ask for, or without edges towards the heavier side (its current rank on
/// a tie), kept within the range its edges allow.
pub open spec fn center_target(
    node: int,
    rank: Seq<i32>,
    edges: Seq<DirectedEdge>,
    incoming: Seq<Vec<usize>>,
    outgoing: Seq<Vec<usize>>,
) -> int {
    let lo = floor_from(incoming[node]@, edges, rank);
    let hi = ceiling_from(outgoing[node]@, edges, rank);
    let in_w = flow_sum(incoming[node]@, edges);
    let out_w = flow_sum(outgoing[node]@, edges);
    let fallback = if in_w > out_w {
        lo
    } else if in_w < out_w {
        hi
    } else {
        clamp_int(rank[node] as int, lo, hi)
    };
    let wanted = match center_spec(node, rank, edges, incoming, outgoing) {
        Some(m) => m,
        None => fallback,
    };
    clamp_int(wanted, lo, hi)
}

/// The ranks after a center sweep over `scan`, and whether some rank changed:
/// each node that is not pinned and whose edges leave a range of ranks moves
/// to its `center_target`, from the ranks as the sweep left them so far.
pub open spec fn center_sweep_spec(
    rank: Seq<i32>,
    scan: Seq<usize>,
    pinned: Seq<usize>,
    edges: Seq<DirectedEdge>,
    incoming: Seq<Vec<usize>>,
    outgoing: Seq<Vec<usize>>,
) -> (Seq<i32>, bool)
    decreases scan.len(),
{
    if scan.len() == 0 {
        (rank, false)
    } else {
        let (r, ch) = center_sweep_spec(rank, scan.drop_last(), pinned, edges, incoming, outgoing);
        let node = scan.last() as int;
        if pinned.contains(scan.last()) || floor_from(incoming[node]@, edges, r) > ceiling_from(outgoing[node]@, edges, r) {
            (r, ch)
        } else {
            let t = center_target(node, r, edges, incoming, outgoing);
            if t != r[node] as int {
                (r.update(node, t as i32), true)
            } else {
                (r, ch)
            }
        }
    }
}

proof fn lemma_center_sweep_len(
    rank: Seq<i32>,
    scan: Seq<usize>,
    pinned: Seq<usize>,
    edges: Seq<DirectedEdge>,
    incoming: Seq<Vec<usize>>,
    outgoing: Seq<Vec<usize>>,
)
    requires
        forall|p: int| 0 <= p < scan.len() ==> scan[p] < rank.len(),
    ensures
        center_sweep_spec(rank, scan, pinned, edges, incoming, outgoing).0.len() == rank.len(),
    decreases scan.len(),
{
    if scan.len() > 0 {
        assert(forall|p: int| 0 <= p < scan.len() - 1 ==> scan.drop_last()[p] == scan[p]);
        lemma_center_sweep_len(rank, scan.drop_last(), pinned, edges, incoming, outgoing);
    }
}

proof fn lemma_weight_count_at_least(ids: Seq<usize>, edges: Seq<DirectedEdge>)
    ensures
        weight_count(ids, edges) >= ids.len(),
    decreases ids.len(),
{
    if ids.len() > 0 {
        lemma_weight_count_at_least(ids.drop_last(), edges);
    }
}

/// Rounding half away from zero lands within half a step of the quotient.
pub(crate) proof fn lemma_round_near(num: int, den: int)
    requires
        den > 0,
    ensures
        -den <= 2 * (num - round_half_away(num, den) * den) <= den,
{
    let t = round_half_away(num, den);
    if num >= 0 {
        let q = num / den;
        let r = num % den;
        vstd::arithmetic::div_mod::lemma_fundamental_div_mod(num, den);
        vstd::arithmetic::div_mod::lemma_mod_bound(num, den);
        if 2 * r >= den {
            assert(t == q + 1);
            assert(num - t * den == r - den) by (nonlinear_arith)
                requires
                    num == den * q + r,
                    t == q + 1,
            ;
        } else {
            assert(t == q);
            assert(num - t * den == r) by (nonlinear_arith)
                requires
                    num == den * q + r,
                    t == q,
            ;
        }
    } else {
        let a = -num;
        let q = a / den;
        let r = a % den;
        vstd::arithmetic::div_mod::lemma_fundamental_div_mod(a, den);
        vstd::arithmetic::div_mod::lemma_mod_bound(a, den);
        if 2 * r >= den {
            assert(t == -(q + 1));
            assert(num - t * den == den - r) by (nonlinear_arith)
                requires
                    a == den * q + r,
                    num == -a,
                    t == -(q + 1),
            ;
        } else {
            assert(t == -q);
            assert(num - t * den == -r) by (nonlinear_arith)
                requires
                    a == den * q + r,
                    num == -a,
                    t == -q,
            ;
        }
    }
}

/// Law: a center sweep moves each node to the weighted mean of what its
/// edges ask for, kept within what they allow. When the sweep reaches a
/// node that is not pinned, has edges, and whose edges leave a range of
/// ranks (within `i32`), the node ends inside that range; strictly inside,
/// it sits within half a rank of the weighted mean of its incoming tails
/// plus their lengths and its outgoing heads minus theirs (each edge
/// weighted by its weight, at least one); at the lowest allowed rank the
/// mean is at most half a rank above it, at the highest at most half a
/// rank below. Every other node keeps its rank.
pub proof fn law_center_moves_to_weighted_mean(
    rank: Seq<i32>,
    scan: Seq<usize>,
    pinned: Seq<usize>,
    edges: Seq<DirectedEdge>,
    incoming: Seq<Vec<usize>>,
    outgoing: Seq<Vec<usize>>,
)
    requires
        scan.len() > 0,
        forall|p: int| 0 <= p < scan.len() ==> scan[p] < rank.len(),
    ensures
        ({
            let before = center_sweep_spec(rank, scan.drop_last(), pinned, edges, incoming, outgoing).0;
            let after = center_sweep_spec(rank, scan, pinned, edges, incoming, outgoing).0;
            let node = scan.last() as int;
            let lo = floor_from(incoming[node]@, edges, before);
            let hi = ceiling_from(outgoing[node]@, edges, before);
            let num = in_center_num(incoming[node]@, edges, before) + out_center_num(outgoing[node]@, edges, before);
            let den = weight_count(incoming[node]@, edges) + weight_count(outgoing[node]@, edges);
            let t = after[node] as int;
            &&& after.len() == before.len()
            &&& forall|v: int| 0 <= v < after.len() && v != node ==> #[trigger] after[v] == before[v]
            &&& (!pinned.contains(scan.last()) && lo <= hi && i32::MIN <= lo && hi <= i32::MAX && incoming[node]@.len()
                + outgoing[node]@.len() > 0) ==> {
                &&& den > 0
                &&& lo <= t <= hi
                &&& (lo < t < hi ==> -den <= 2 * (num - t * den) <= den)
                &&& (t == lo && lo < hi ==> 2 * (num - lo * den) <= den)
                &&& (t == hi && lo < hi ==> -den <= 2 * (num - hi * den))
            }
        }),
{
    assert(forall|p: int| 0 <= p < scan.len() - 1 ==> scan.drop_last()[p] == scan[p]);
    lemma_center_sweep_len(rank, scan.drop_last(), pinned, edges, incoming, outgoing);
    lemma_center_sweep_len(rank, scan, pinned, edges, incoming, outgoing);
    let before = center_sweep_spec(rank, scan.drop_last(), pinned, edges, incoming, outgoing).0;
    let node = scan.last() as int;
    lemma_weight_count_at_least(incoming[node]@, edges);
    lemma_weight_count_at_least(outgoing[node]@, edges);
    let num = in_center_num(incoming[node]@, edges, before) + out_center_num(outgoing[node]@, edges, before);
    let den = weight_count(incoming[node]@, edges) + weight_count(outgoing[node]@, edges);
    if den > 0 {
        lemma_round_near(num, den);
        let m = round_half_away(num, den);
        let lo = floor_from(incoming[node]@, edges, before);
        let hi = ceiling_from(outgoing[node]@, edges, before);
        if m < lo {
            assert(2 * (num - lo * den) <= den) by (nonlinear_arith)
                requires
                    2 * (num - m * den) <= den,
                    m < lo,
                    den > 0,
            ;
        }
        if m > hi {
            assert(-den <= 2 * (num - hi * den)) by (nonlinear_arith)
                requires
                    -den <= 2 * (num - m * den),
                    m > hi,
                    den > 0,
            ;
        }
    }
}

/// One sweep over `scan` that moves each node that is not pinned to the
/// weighted center of what its edges ask for, kept within the range that
/// leaves its edges feasible. Returns whether some rank changed.
fn center_sweep(
    rank: &mut [i32],
    scan: &[usize],
    pinned: &[usize],
    edges: &[DirectedEdge],
    incoming: &[Vec<usize>],
    outgoing: &[Vec<usize>],
    Ghost(hb): Ghost<int>,
    Ghost(l): Ghost<int>,
) -> (changed: bool)
    requires
        lists_in_range(old(rank)@.len() as int, edges@, incoming@, outgoing@),
        forall|p: int| 0 <= p < scan@.len() ==> scan@[p] < old(rank)@.len(),
        abs_within(old(rank)@, hb),
        lens_within(edges@, l),
        0 <= hb,
        0 <= l,
        hb + scan@.len() * l + l <= 0x3000_0000,
    ensures
        final(rank)@.len() == old(rank)@.len(),
        abs_within(final(rank)@, hb + scan@.len() * l),
        (final(rank)@, changed) == center_sweep_spec(old(rank)@, scan@, pinned@, edges@, incoming@, outgoing@),
{
    let ghost n = rank@.len() as int;
    let ghost start = rank@;
    let mut changed = false;
    let mut i: usize = 0;
    while i < scan.len()
        invariant
            i <= scan@.len(),
            rank@.len() == n,
            (rank@, changed) == center_sweep_spec(start, scan@.subrange(0, i as int), pinned@, edges@, incoming@, outgoing@),
            lists_in_range(n, edges@, incoming@, outgoing@),
            forall|p: int| 0 <= p < scan@.len() ==> scan@[p] < n,
            abs_within(rank@, hb + i * l),
            lens_within(edges@, l),
            0 <= hb,
            0 <= l,
            hb + scan@.len() * l + l <= 0x3000_0000,
        decreases scan.len() - i,
    {
        let ghost c = hb + i * l;
        proof {
            assert(i * l <= scan@.len() * l) by (nonlinear_arith)
                requires
                    i <= scan@.len(),
                    l >= 0,
            ;
            assert(c + l == hb + (i + 1) * l) by (nonlinear_arith)
                requires
                    c == hb + i * l,
            ;
            assert(i * l >= 0) by (nonlinear_arith)
                requires
                    l >= 0,
            ;
        }
        let node = scan[i];
        proof {
            let pre = scan@.subrange(0, i + 1);
            assert(pre.drop_last() =~= scan@.subrange(0, i as int));
            assert(pre.last() == node);
        }
        if !is_listed(pinned, node) {
            let (lower, upper) = rank_window(node, rank, edges, incoming, outgoing, Ghost(c), Ghost(l));
            if lower <= upper {
                let in_w = flow_weight(&incoming[node], edges);
                let out_w = flow_weight(&outgoing[node], edges);
                let center = weighted_center(node, rank, edges, incoming, outgoing, Ghost(c), Ghost(l));
                let fallback = if in_w > out_w {
                    lower
                } else if in_w < out_w {
                    upper
                } else {
                    clamp_i32(rank[node], lower, upper)
                };
                let wanted = match center {
                    Some(m) => m,
                    None => fallback,
                };
                proof {
                    if center is None {
                        lemma_clamp_within(rank@[node as int] as int, lower as int, upper as int, c + l);
                    }
                    lemma_clamp_within(wanted as int, lower as int, upper as int, c + l);
                }
                let target = clamp_i32(wanted, lower, upper);
                proof {
                    assert(target as int == center_target(node as int, rank@, edges@, incoming@, outgoing@));
                }
                if target != rank[node] {
                    rank[node] = target;
                    changed = true;
                }
            }
        }
        i += 1;
    }
    assert(scan@.subrange(0, scan@.len() as int) =~= scan@);
    changed
}

/// Where a pivot sweep moves `node`: whichever of the lowest rank its edges
/// allow, its current rank kept in that range and the highest allowed rank
/// gives its edges the least weighted slack, the first of them on ties.
pub open spec fn pivot_target(
    node: int,
    rank: Seq<i32>,
    edges: Seq<DirectedEdge>,
    incoming: Seq<Vec<usize>>,
    outgoing: Seq<Vec<usize>>,
) -> int {
    let lo = floor_from(incoming[node]@, edges, rank);
    let hi = ceiling_from(outgoing[node]@, edges, rank);
    let cur = clamp_int(rank[node] as int, lo, hi);
    let lc = slack_cost(node, lo, rank, edges, incoming, outgoing);
    let cc = slack_cost(node, cur, rank, edges, incoming, outgoing);
    let uc = slack_cost(node, hi, rank, edges, incoming, outgoing);
    if lc <= cc && lc <= uc {
        lo
    } else if cc <= uc {
        cur
    } else {
        hi
    }
}

/// The ranks after a pivot sweep over `topo`, and whether some rank changed:
/// each node that is not pinned and whose edges leave a range of ranks moves
/// to its `pivot_target`, from the ranks as the sweep left them so far.
pub open spec fn pivot_sweep_spec(
    rank: Seq<i32>,
    topo: Seq<usize>,
    pinned: Seq<usize>,
    edges: Seq<DirectedEdge>,
    incoming: Seq<Vec<usize>>,
    outgoing: Seq<Vec<usize>>,
) -> (Seq<i32>, bool)
    decreases topo.len(),
{
    if topo.len() == 0 {
        (rank, false)
    } else {
        let (r, ch) = pivot_sweep_spec(rank, topo.drop_last(), pinned, edges, incoming, outgoing);
        let node = topo.last() as int;
        if pinned.contains(topo.last()) || floor_from(incoming[node]@, edges, r) > ceiling_from(outgoing[node]@, edges, r) {
            (r, ch)
        } else {
            let t = pivot_target(node, r, edges, incoming, outgoing);
            if t != r[node] as int {
                (r.update(node, t as i32), true)
            } else {
                (r, ch)
            }
        }
    }
}

proof fn lemma_pivot_sweep_len(
    rank: Seq<i32>,
    topo: Seq<usize>,
    pinned: Seq<usize>,
    edges: Seq<DirectedEdge>,
    incoming: Seq<Vec<usize>>,
    outgoing: Seq<Vec<usize>>,
)
    requires
        forall|p: int| 0 <= p < topo.len() ==> topo[p] < rank.len(),
    ensures
        pivot_sweep_spec(rank, topo, pinned, edges, incoming, outgoing).0.len() == rank.len(),
    decreases topo.len(),
{
    if topo.len() > 0 {
        assert(forall|p: int| 0 <= p < topo.len() - 1 ==> topo.drop_last()[p] == topo[p]);
        lemma_pivot_sweep_len(rank, topo.drop_last(), pinned, edges, incoming, outgoing);
    }
}

/// Law: a pivot sweep moves each node to a rank of least weighted slack.
/// When the sweep reaches a node that is not pinned and whose edges leave a
/// range of ranks (all within `i32`), the node ends at its lowest allowed
/// rank, its current rank kept in the range, or its highest allowed rank,
/// and the weighted slack of its edges there is no more than at any of the
/// three; of several such ranks it takes the first in that order. Every
/// other node keeps its rank.
pub proof fn law_pivot_moves_to_least_slack(
    rank: Seq<i32>,
    topo: Seq<usize>,
    pinned: Seq<usize>,
    edges: Seq<DirectedEdge>,
    incoming: Seq<Vec<usize>>,
    outgoing: Seq<Vec<usize>>,
)
    requires
        topo.len() > 0,
        forall|p: int| 0 <= p < topo.len() ==> topo[p] < rank.len(),
    ensures
        ({
            let before = pivot_sweep_spec(rank, topo.drop_last(), pinned, edges, incoming, outgoing).0;
            let after = pivot_sweep_spec(rank, topo, pinned, edges, incoming, outgoing).0;
            let node = topo.last() as int;
            let lo = floor_from(incoming[node]@, edges, before);
            let hi = ceiling_from(outgoing[node]@, edges, before);
            let cur = clamp_int(before[node] as int, lo, hi);
            let t = after[node] as int;
            &&& after.len() == before.len()
            &&& forall|v: int| 0 <= v < after.len() && v != node ==> #[trigger] after[v] == before[v]
            &&& (!pinned.contains(topo.last()) && lo <= hi && i32::MIN <= lo && hi <= i32::MAX) ==> {
                &&& (t == lo || t == cur || t == hi)
                &&& (slack_cost(node, lo, before, edges, incoming, outgoing) <= slack_cost(node, cur, before, edges, incoming, outgoing)
                    && slack_cost(node, lo, before, edges, incoming, outgoing) <= slack_cost(node, hi, before, edges, incoming, outgoing)
                    ==> t == lo)
                &&& (t != lo && slack_cost(node, cur, before, edges, incoming, outgoing) <= slack_cost(node, hi, before, edges, incoming, outgoing)
                    ==> t == cur)
                &&& slack_cost(node, t, before, edges, incoming, outgoing) <= slack_cost(node, lo, before, edges, incoming, outgoing)
                &&& slack_cost(node, t, before, edges, incoming, outgoing) <= slack_cost(node, cur, before, edges, incoming, outgoing)
                &&& slack_cost(node, t, before, edges, incoming, outgoing) <= slack_cost(node, hi, before, edges, incoming, outgoing)
            }
        }),
{
    assert(forall|p: int| 0 <= p < topo.len() - 1 ==> topo.drop_last()[p] == topo[p]);
    lemma_pivot_sweep_len(rank, topo.drop_last(), pinned, edges, incoming, outgoing);
    lemma_pivot_sweep_len(rank, topo, pinned, edges, incoming, outgoing);
}

/// One sweep in `topo` order that moves each node that is not pinned to
/// whichever of the lowest feasible rank, its current rank (kept within the
/// feasible range) and the highest feasible rank gives its edges the least
/// weighted slack, preferring them in that order on ties. Returns whether
/// some rank changed.
fn pivot_sweep(
    rank: &mut [i32],
    topo: &[usize],
    pinned: &[usize],
    edges: &[DirectedEdge],
    incoming: &[Vec<usize>],
    outgoing: &[Vec<usize>],
    Ghost(hb): Ghost<int>,
    Ghost(l): Ghost<int>,
    Ghost(w): Ghost<int>,
    Ghost(d): Ghost<int>,
) -> (changed: bool)
    requires
        lists_in_range(old(rank)@.len() as int, edges@, incoming@, outgoing@),
        forall|p: int| 0 <= p < topo@.len() ==> topo@[p] < old(rank)@.len(),
        abs_within(old(rank)@, hb),
        lens_within(edges@, l),
        weights_within(edges@, w),
        degrees_within(incoming@, outgoing@, d),
        0x2000_0000 <= hb || sources_pinned(incoming@, pinned@),
        0 <= hb,
        0 <= l,
        0 <= w,
        d * (w + 1) <= 0x8000_0000,
        hb + topo@.len() * l + l <= 0x3000_0000,
    ensures
        final(rank)@.len() == old(rank)@.len(),
        abs_within(final(rank)@, hb + topo@.len() * l),
        (final(rank)@, changed) == pivot_sweep_spec(old(rank)@, topo@, pinned@, edges@, incoming@, outgoing@),
{
    let ghost n = rank@.len() as int;
    let ghost start = rank@;
    let mut changed = false;
    let mut i: usize = 0;
    while i < topo.len()
        invariant
            i <= topo@.len(),
            rank@.len() == n,
            (rank@, changed) == pivot_sweep_spec(start, topo@.subrange(0, i as int), pinned@, edges@, incoming@, outgoing@),
            lists_in_range(n, edges@, incoming@, outgoing@),
            forall|p: int| 0 <= p < topo@.len() ==> topo@[p] < n,
            abs_within(rank@, hb + i * l),
            lens_within(edges@, l),
            weights_within(edges@, w),
            degrees_within(incoming@, outgoing@, d),
            0x2000_0000 <= hb || sources_pinned(incoming@, pinned@),
            0 <= hb,
            0 <= l,
            0 <= w,
            d * (w + 1) <= 0x8000_0000,
            hb + topo@.len() * l + l <= 0x3000_0000,
        decreases topo.len() - i,
    {
        let ghost c = hb + i * l;
        proof {
            assert(i * l <= topo@.len() * l) by (nonlinear_arith)
                requires
                    i <= topo@.len(),
                    l >= 0,
            ;
            assert(c + l == hb + (i + 1) * l) by (nonlinear_arith)
                requires
                    c == hb + i * l,
            ;
            assert(i * l >= 0) by (nonlinear_arith)
                requires
                    l >= 0,
            ;
        }
        let node = topo[i];
        proof {
            let pre = topo@.subrange(0, i + 1);
            assert(pre.drop_last() =~= topo@.subrange(0, i as int));
            assert(pre.last() == node);
        }
        if !is_listed(pinned, node) {
            let (lower, upper) = rank_window(node, rank, edges, incoming, outgoing, Ghost(c), Ghost(l));
            if lower <= upper {
                let current = clamp_i32(rank[node], lower, upper);
                proof {
                    lemma_clamp_within(rank@[node as int] as int, lower as int, upper as int, c + l);
                    lemma_slack_cost_fits(node as int, lower as int, rank@, edges@, incoming@, outgoing@, c, l, w, d);
                    lemma_slack_cost_fits(node as int, current as int, rank@, edges@, incoming@, outgoing@, c, l, w, d);
                    lemma_slack_cost_fits(node as int, upper as int, rank@, edges@, incoming@, outgoing@, c, l, w, d);
                }
                let lower_cost = local_slack_cost(node, lower, rank, edges, incoming, outgoing);
                let current_cost = local_slack_cost(node, current, rank, edges, incoming, outgoing);
                let upper_cost = local_slack_cost(node, upper, rank, edges, incoming, outgoing);
                proof {
                    if c + l < 0x2000_0000 {
                        assert(sources_pinned(incoming@, pinned@));
                        assert(incoming@[node as int]@.len() > 0) by {
                            if incoming@[node as int]@.len() == 0 {
                                assert(pinned@.contains(node));
                            }
                        }
                        if outgoing@[node as int]@.len() == 0 {
                            lemma_in_slack_sum_cand_mono(
                                incoming@[node as int]@,
                                edges@,
                                current as int,
                                upper as int,
                                rank@,
                            );
                            assert(outgoing@[node as int]@.len() == 0);
                            assert(out_slack_sum(outgoing@[node as int]@, edges@, current as int, rank@) == 0);
                            assert(out_slack_sum(outgoing@[node as int]@, edges@, upper as int, rank@) == 0);
                            assert(current_cost <= upper_cost);
                        }
                    }
                }
                let best = if lower_cost <= current_cost && lower_cost <= upper_cost {
                    lower
                } else if current_cost <= upper_cost {
                    current
                } else {
                    upper
                };
                proof {
                    assert(best as int == pivot_target(node as int, rank@, edges@, incoming@, outgoing@));
                }
                if best != rank[node] {
                    rank[node] = best;
                    changed = true;
                }
            }
        }
        i += 1;
    }
    assert(topo@.subrange(0, topo@.len() as int) =~= topo@);
    changed
}

/// Some edge listed out of a node of `topo` ends at `v`.
pub open spec fn is_listed_head(topo: Seq<usize>, outgoing: Seq<Vec<usize>>, edges: Seq<DirectedEdge>, v: int) -> bool {
    exists|p: int, k: int|
        0 <= p < topo.len() && 0 <= k < outgoing[topo[p] as int]@.len() && out_edge(
            outgoing,
            edges,
            topo[p] as int,
            k,
        ).head == v
}

/// When `topo` lists no edge backwards, every listed edge is feasible and
/// every pinned node that no listed edge enters is at rank zero.
pub open spec fn refinement_settled(
    rank: Seq<i32>,
    topo: Seq<usize>,
    outgoing: Seq<Vec<usize>>,
    edges: Seq<DirectedEdge>,
    pinned: Seq<usize>,
) -> bool {
    topo_respects(topo, outgoing, edges) ==> {
        &&& relaxed_edges_feasible(rank, topo, outgoing, edges)
        &&& forall|i: int|
            0 <= i < pinned.len() && !is_listed_head(topo, outgoing, edges, pinned[i] as int)
                ==> rank[#[trigger] pinned[i] as int] == 0
    }
}

proof fn lemma_unraised(
    old_rank: Seq<i32>,
    rank: Seq<i32>,
    topo: Seq<usize>,
    outgoing: Seq<Vec<usize>>,
    edges: Seq<DirectedEdge>,
    v: int,
)
    requires
        raised_only_when_forced(old_rank, rank, topo, outgoing, edges),
        0 <= v < rank.len(),
        !is_listed_head(topo, outgoing, edges, v),
    ensures
        rank[v] == old_rank[v],
{
    reveal(raised_only_when_forced);
}

pub(crate) proof fn lemma_relax_fits(rank: Seq<i32>, m: int, edges: Seq<DirectedEdge>, hb: int, l: int)
    requires
        abs_within(rank, hb),
        lens_within(edges, l),
        0 <= hb,
        0 <= l,
        m >= 0,
        hb + (m + 1) * l <= 0x4000_0000,
    ensures
        relax_fits(rank, m, edges),
{
    reveal(relax_fits);
    assert forall|i: int, e: int| 0 <= i < rank.len() && 0 <= e < edges.len() implies rank[i] + (m + 1)
        * edges[e].min_len <= i32::MAX by {
        let x = edges[e].min_len as int;
        assert((m + 1) * x <= (m + 1) * l) by (nonlinear_arith)
            requires
                x <= l,
                m >= 0,
        ;
    }
    assert forall|i: int, e: int| 0 <= i < rank.len() && 0 <= e < edges.len() implies rank[i]
        + edges[e].min_len >= i32::MIN by {
        assert(l <= (m + 1) * l) by (nonlinear_arith)
            requires
                l >= 0,
                m >= 0,
        ;
    }
}

/// Pins the listed sources to rank zero, then relaxes every edge forward.
fn settle(
    rank: &mut [i32],
    topo: &[usize],
    pinned: &[usize],
    outgoing: &[Vec<usize>],
    edges: &[DirectedEdge],
    Ghost(hb): Ghost<int>,
    Ghost(l): Ghost<int>,
)
    requires
        adjacency_in_range(old(rank)@.len() as int, topo@, outgoing@, edges@),
        forall|i: int| 0 <= i < pinned@.len() ==> pinned@[i] < old(rank)@.len(),
        old(rank)@.len() > 0,
        abs_within(old(rank)@, hb),
        lens_within(edges@, l),
        0 <= hb,
        0 <= l,
        hb + (topo@.len() + 1) * l <= 0x4000_0000,
    ensures
        final(rank)@.len() == old(rank)@.len(),
        abs_within(final(rank)@, hb + topo@.len() * l),
        refinement_settled(final(rank)@, topo@, outgoing@, edges@, pinned@),
        final(rank)@ == relaxed_upto(pinned_at_zero(old(rank)@, pinned@), topo@, outgoing@, edges@, topo@.len() as int),
{
    pin_sources(rank, pinned);
    let ghost mid = rank@;
    proof {
        assert(mid =~= pinned_at_zero(old(rank)@, pinned@));
        assert(abs_within(mid, hb));
        lemma_relax_fits(mid, topo@.len() as int, edges@, hb, l);
    }
    relax_forward(rank, topo, outgoing, edges);
    proof {
        let m = topo@.len() as int;
        lemma_max_min_of(mid);
        lemma_len_cap(edges@);
        let i = choose|i: int| 0 <= i < mid.len() && mid[i] == max_of(mid);
        assert(max_of(mid) <= hb);
        assert(len_cap(edges@) <= l) by {
            if len_cap(edges@) != 0 {
                let e = choose|e: int| 0 <= e < edges@.len() && edges@[e].min_len == len_cap(edges@);
            }
        }
        let lc = len_cap(edges@);
        assert(m * lc <= m * l) by (nonlinear_arith)
            requires
                0 <= lc <= l,
                m >= 0,
        ;
        assert(m * l >= 0) by (nonlinear_arith)
            requires
                l >= 0,
                m >= 0,
        ;
        assert(abs_within(rank@, hb + m * l));
        if topo_respects(topo@, outgoing@, edges@) {
            assert forall|i: int|
                0 <= i < pinned@.len() && !is_listed_head(topo@, outgoing@, edges@, pinned@[i] as int)
                    implies rank@[#[trigger] pinned@[i] as int] == 0 by {
                lemma_unraised(mid, rank@, topo@, outgoing@, edges@, pinned@[i] as int);
                assert(pinned@.contains(pinned@[i]));
            }
        }
    }
}

/// The ranks after the pinned nodes went back to zero and all edges were
/// relaxed forward.
pub open spec fn settle_spec(
    rank: Seq<i32>,
    topo: Seq<usize>,
    pinned: Seq<usize>,
    outgoing: Seq<Vec<usize>>,
    edges: Seq<DirectedEdge>,
) -> Seq<i32> {
    relaxed_upto(pinned_at_zero(rank, pinned), topo, outgoing, edges, topo.len() as int)
}

/// The ranks after `passes` passes of center sweeps (over `topo` on even
/// passes, reversed on odd ones, each followed by settling), and whether the
/// phase stopped: it stops after a pass from the fourth on that moved
/// nothing.
pub open spec fn center_phase(
    rank: Seq<i32>,
    topo: Seq<usize>,
    pinned: Seq<usize>,
    edges: Seq<DirectedEdge>,
    incoming: Seq<Vec<usize>>,
    outgoing: Seq<Vec<usize>>,
    passes: nat,
) -> (Seq<i32>, bool)
    decreases passes,
{
    if passes == 0 {
        (rank, false)
    } else {
        let (r, stopped) = center_phase(rank, topo, pinned, edges, incoming, outgoing, (passes - 1) as nat);
        if stopped {
            (r, true)
        } else {
            let pass = passes - 1;
            let scan = if pass % 2 == 0 {
                topo
            } else {
                topo.reverse()
            };
            let (r1, changed) = center_sweep_spec(r, scan, pinned, edges, incoming, outgoing);
            (settle_spec(r1, topo, pinned, outgoing, edges), !changed && pass >= 3)
        }
    }
}

/// The ranks after `rounds` rounds of pivot sweeps (each followed by
/// settling), and whether the phase stopped after a round that moved
/// nothing.
pub open spec fn pivot_phase(
    rank: Seq<i32>,
    topo: Seq<usize>,
    pinned: Seq<usize>,
    edges: Seq<DirectedEdge>,
    incoming: Seq<Vec<usize>>,
    outgoing: Seq<Vec<usize>>,
    rounds: nat,
) -> (Seq<i32>, bool)
    decreases rounds,
{
    if rounds == 0 {
        (rank, false)
    } else {
        let (r, stopped) = pivot_phase(rank, topo, pinned, edges, incoming, outgoing, (rounds - 1) as nat);
        if stopped {
            (r, true)
        } else {
            let (r1, changed) = pivot_sweep_spec(r, topo, pinned, edges, incoming, outgoing);
            (settle_spec(r1, topo, pinned, outgoing, edges), !changed)
        }
    }
}

/// What `network_simplex_refine` leaves: with at most one node the ranks as
/// they are; otherwise `max(4n, 12)` passes of the center phase and then
/// `max(2n, 8)` rounds of the pivot phase, each phase stopping early as
/// `center_phase` and `pivot_phase` state.
pub open spec fn refine_spec(
    rank: Seq<i32>,
    topo: Seq<usize>,
    pinned: Seq<usize>,
    edges: Seq<DirectedEdge>,
    incoming: Seq<Vec<usize>>,
    outgoing: Seq<Vec<usize>>,
) -> Seq<i32> {
    let n = rank.len() as int;
    if n <= 1 {
        rank
    } else {
        let passes = if 4 * n > 12 {
            4 * n
        } else {
            12
        };
        let rounds = if 2 * n > 8 {
            2 * n
        } else {
            8
        };
        let centered = center_phase(rank, topo, pinned, edges, incoming, outgoing, passes as nat).0;
        pivot_phase(centered, topo, pinned, edges, incoming, outgoing, rounds as nat).0
    }
}

proof fn lemma_center_phase_stays(
    rank: Seq<i32>,
    topo: Seq<usize>,
    pinned: Seq<usize>,
    edges: Seq<DirectedEdge>,
    incoming: Seq<Vec<usize>>,
    outgoing: Seq<Vec<usize>>,
    p: nat,
    q: nat,
)
    requires
        p <= q,
        center_phase(rank, topo, pinned, edges, incoming, outgoing, p).1,
    ensures
        center_phase(rank, topo, pinned, edges, incoming, outgoing, q) == center_phase(
            rank,
            topo,
            pinned,
            edges,
            incoming,
            outgoing,
            p,
        ),
    decreases q - p,
{
    if p < q {
        lemma_center_phase_stays(rank, topo, pinned, edges, incoming, outgoing, p, (q - 1) as nat);
    }
}

proof fn lemma_pivot_phase_stays(
    rank: Seq<i32>,
    topo: Seq<usize>,
    pinned: Seq<usize>,
    edges: Seq<DirectedEdge>,
    incoming: Seq<Vec<usize>>,
    outgoing: Seq<Vec<usize>>,
    p: nat,
    q: nat,
)
    requires
        p <= q,
        pivot_phase(rank, topo, pinned, edges, incoming, outgoing, p).1,
    ensures
        pivot_phase(rank, topo, pinned, edges, incoming, outgoing, q) == pivot_phase(
            rank,
            topo,
            pinned,
            edges,
            incoming,
            outgoing,
            p,
        ),
    decreases q - p,
{
    if p < q {
        lemma_pivot_phase_stays(rank, topo, pinned, edges, incoming, outgoing, p, (q - 1) as nat);
    }
}

/// Network-simplex style refinement of a feasible ranking. Each node that
/// is not pinned is moved, within the range its edges allow, first to the
/// weighted center of what its edges ask for (alternating `topo` and
/// reversed `topo` sweeps, at least four and at most `max(4n, 12)`), then to
/// whichever of its lowest, current or highest allowed rank leaves its
/// edges the least weighted slack (at most `max(2n, 8)` sweeps, stopping
/// when nothing moves). After every sweep the pinned sources go back to
/// rank zero and all edges are relaxed forward.
///
/// When `topo` lists no edge backwards, the result satisfies every listed
/// edge, and every pinned source that no listed edge enters is at zero.
/// The ranks must stay within `2^29`, the magnitude of the sentinels
/// that stand for a missing bound: that is known of every start that
/// `refine_start_fits`, and is otherwise asked for as `refine_stays_within`.
pub fn network_simplex_refine(
    rank: &mut [i32],
    edges: &[DirectedEdge],
    topo: &[usize],
    pinned_sources: &[usize],
    incoming: &[Vec<usize>],
    outgoing: &[Vec<usize>],
)
    requires
        lists_in_range(old(rank)@.len() as int, edges@, incoming@, outgoing@),
        forall|p: int| 0 <= p < topo@.len() ==> topo@[p] < old(rank)@.len(),
        forall|p: int| 0 <= p < pinned_sources@.len() ==> pinned_sources@[p] < old(rank)@.len(),
        old(rank)@.len() <= usize::MAX / 4,
        simplex_fits(edges@, topo@, incoming@, outgoing@),
        refine_start_fits(old(rank)@, topo@, edges@, incoming@, outgoing@) || refine_stays_within(
            old(rank)@,
            topo@,
            pinned_sources@,
            edges@,
            incoming@,
            outgoing@,
        ),
    ensures
        final(rank)@ == refine_spec(old(rank)@, topo@, pinned_sources@, edges@, incoming@, outgoing@),
        final(rank)@.len() == old(rank)@.len(),
        old(rank)@.len() <= 1 ==> final(rank)@ == old(rank)@,
        old(rank)@.len() > 1 ==> refinement_settled(final(rank)@, topo@, outgoing@, edges@, pinned_sources@),
        abs_within(final(rank)@, 0x2000_0000) || old(rank)@.len() <= 1,
{
    proof {
        if refine_start_fits(rank@, topo@, edges@, incoming@, outgoing@) {
            law_refine_stays_within(rank@, topo@, pinned_sources@, edges@, incoming@, outgoing@);
        }
    }
    let ok = refine_checked(rank, edges, topo, pinned_sources, incoming, outgoing);
    assert(ok);
}

/// `network_simplex_refine` that looks at the ranks before every sweep and
/// at the end, and gives up (answering `false`, with the ranks part way)
/// as soon as they leave `2^29`; otherwise it answers `true` with
/// the ranks refined.
pub fn refine_checked(
    rank: &mut [i32],
    edges: &[DirectedEdge],
    topo: &[usize],
    pinned_sources: &[usize],
    incoming: &[Vec<usize>],
    outgoing: &[Vec<usize>],
) -> (ok: bool)
    requires
        lists_in_range(old(rank)@.len() as int, edges@, incoming@, outgoing@),
        forall|p: int| 0 <= p < topo@.len() ==> topo@[p] < old(rank)@.len(),
        forall|p: int| 0 <= p < pinned_sources@.len() ==> pinned_sources@[p] < old(rank)@.len(),
        old(rank)@.len() <= usize::MAX / 4,
        simplex_fits(edges@, topo@, incoming@, outgoing@),
    ensures
        ok == refine_stays_within(old(rank)@, topo@, pinned_sources@, edges@, incoming@, outgoing@),
        final(rank)@.len() == old(rank)@.len(),
        ok ==> final(rank)@ == refine_spec(old(rank)@, topo@, pinned_sources@, edges@, incoming@, outgoing@),
        old(rank)@.len() <= 1 ==> final(rank)@ == old(rank)@,
        ok && old(rank)@.len() > 1 ==> refinement_settled(final(rank)@, topo@, outgoing@, edges@, pinned_sources@),
        ok && old(rank)@.len() > 1 ==> abs_within(final(rank)@, 0x2000_0000),
{
    let node_count = rank.len();
    if node_count <= 1 {
        return true;
    }
    let ghost hb: int = 0x2000_0000;
    let ghost n = node_count as int;
    let ghost m = topo@.len() as int;
    let ghost l = len_abs_cap(edges@);
    let ghost w = weight_abs_cap(edges@);
    let ghost d = degree_cap(incoming@, outgoing@);
    let ghost s = (2 * m + 2) * (l + 1);
    proof {
        lemma_len_abs_cap(edges@);
        lemma_weight_abs_cap(edges@);
        lemma_degree_cap(incoming@, outgoing@);
        assert(s >= 1) by (nonlinear_arith)
            requires
                s == (2 * m + 2) * (l + 1),
                m >= 0,
                l >= 0,
        ;
        assert(m * l + l <= s && m * l >= 0 && (m + 1) * l <= s) by (nonlinear_arith)
            requires
                s == (2 * m + 2) * (l + 1),
                m >= 0,
                l >= 0,
        ;
        assert(w * 1 <= d * (w + 1) || d == 0) by (nonlinear_arith)
            requires
                d >= 0,
                w >= 0,
        ;
        assert(adjacency_in_range(n, topo@, outgoing@, edges@));
    }
    let ghost start = rank@;
    let mut reverse_topo: Vec<usize> = Vec::new();
    let mut j: usize = topo.len();
    while j > 0
        invariant
            j <= topo@.len(),
            reverse_topo@.len() == topo@.len() - j,
            forall|p: int| 0 <= p < topo@.len() ==> topo@[p] < n,
            forall|p: int| 0 <= p < reverse_topo@.len() ==> reverse_topo@[p] < n,
            forall|p: int| 0 <= p < reverse_topo@.len() ==> #[trigger] reverse_topo@[p] == topo@[topo@.len() - 1 - p],
        decreases j,
    {
        j -= 1;
        reverse_topo.push(topo[j]);
    }
    proof {
        if topo@.len() > 0 {
            assert(reverse_topo@ =~= topo@.reverse());
        } else {
            assert(reverse_topo@ =~= topo@.reverse());
        }
    }
    let iterations: usize = if node_count * 4 > 12 {
        node_count * 4
    } else {
        12
    };
    let mut pass: usize = 0;
    let mut finished = false;
    while pass < iterations && !finished
        invariant
            rank@.len() == n,
            n > 1,
            m == topo@.len(),
            s == (2 * m + 2) * (l + 1),
            0 <= l,
            0 <= w,
            0 <= d,
            s <= 0x1000_0000,
            m * l + l <= s,
            m * l >= 0,
            (m + 1) * l <= s,
            hb == 0x2000_0000,
            old(rank)@.len() == n,
            start == old(rank)@,
            iterations as int == (if 4 * n > 12 {
                4 * n
            } else {
                12
            }),
            pass <= iterations,
            start.len() == n,
            forall|p: nat| p < pass ==> abs_within(#[trigger] center_phase(start, topo@, pinned_sources@, edges@, incoming@, outgoing@, p).0, hb),
            lists_in_range(n, edges@, incoming@, outgoing@),
            adjacency_in_range(n, topo@, outgoing@, edges@),
            forall|p: int| 0 <= p < topo@.len() ==> topo@[p] < n,
            forall|p: int| 0 <= p < reverse_topo@.len() ==> reverse_topo@[p] < n,
            reverse_topo@.len() == m,
            forall|p: int| 0 <= p < pinned_sources@.len() ==> pinned_sources@[p] < n,
            lens_within(edges@, l),
            pass > 0 ==> refinement_settled(rank@, topo@, outgoing@, edges@, pinned_sources@),
            reverse_topo@ == topo@.reverse(),
            (rank@, finished) == center_phase(start, topo@, pinned_sources@, edges@, incoming@, outgoing@, pass as nat),
        decreases iterations - pass,
    {
        if !ranks_within(rank, 0x2000_0000) {
            proof {
                assert(!abs_within(center_phase(start, topo@, pinned_sources@, edges@, incoming@, outgoing@, pass as nat).0, hb));
            }
            return false;
        }
        let changed = if pass % 2 == 0 {
            center_sweep(rank, topo, pinned_sources, edges, incoming, outgoing, Ghost(hb), Ghost(l))
        } else {
            center_sweep(rank, reverse_topo.as_slice(), pinned_sources, edges, incoming, outgoing, Ghost(hb), Ghost(l))
        };
        settle(rank, topo, pinned_sources, outgoing, edges, Ghost(hb + m * l), Ghost(l));
        if !changed && pass >= 3 {
            finished = true;
        }
        pass += 1;
    }
    if !ranks_within(rank, 0x2000_0000) {
        proof {
            assert(!abs_within(center_phase(start, topo@, pinned_sources@, edges@, incoming@, outgoing@, pass as nat).0, hb));
        }
        return false;
    }
    proof {
        if pass < iterations {
            lemma_center_phase_stays(
                start,
                topo@,
                pinned_sources@,
                edges@,
                incoming@,
                outgoing@,
                pass as nat,
                iterations as nat,
            );
        }
        assert forall|p: nat| p <= iterations implies abs_within(
            #[trigger] center_phase(start, topo@, pinned_sources@, edges@, incoming@, outgoing@, p).0,
            hb,
        ) by {
            if p > pass {
                lemma_center_phase_stays(start, topo@, pinned_sources@, edges@, incoming@, outgoing@, pass as nat, p);
            }
        }
    }
    let ghost centered = rank@;
    let rounds: usize = if node_count * 2 > 8 {
        node_count * 2
    } else {
        8
    };
    let mut round: usize = 0;
    let mut settled_down = false;
    while round < rounds && !settled_down
        invariant
            rank@.len() == n,
            n > 1,
            m == topo@.len(),
            s == (2 * m + 2) * (l + 1),
            0 <= l,
            0 <= w,
            0 <= d,
            d * (w + 1) <= 0x8000_0000,
            s <= 0x1000_0000,
            m * l + l <= s,
            m * l >= 0,
            (m + 1) * l <= s,
            hb == 0x2000_0000,
            old(rank)@.len() == n,
            start == old(rank)@,
            start.len() == n,
            centered == center_phase(start, topo@, pinned_sources@, edges@, incoming@, outgoing@, iterations as nat).0,
            forall|p: nat| p <= iterations ==> abs_within(#[trigger] center_phase(start, topo@, pinned_sources@, edges@, incoming@, outgoing@, p).0, hb),
            forall|q: nat| q < round ==> abs_within(#[trigger] pivot_phase(centered, topo@, pinned_sources@, edges@, incoming@, outgoing@, q).0, hb),
            iterations as int == (if 4 * n > 12 {
                4 * n
            } else {
                12
            }),
            rounds as int == (if 2 * n > 8 {
                2 * n
            } else {
                8
            }),
            round <= rounds,
            lists_in_range(n, edges@, incoming@, outgoing@),
            adjacency_in_range(n, topo@, outgoing@, edges@),
            forall|p: int| 0 <= p < topo@.len() ==> topo@[p] < n,
            forall|p: int| 0 <= p < pinned_sources@.len() ==> pinned_sources@[p] < n,
            lens_within(edges@, l),
            weights_within(edges@, w),
            degrees_within(incoming@, outgoing@, d),
            round > 0 ==> refinement_settled(rank@, topo@, outgoing@, edges@, pinned_sources@),
            settled_down ==> round > 0,
            (rank@, settled_down) == pivot_phase(centered, topo@, pinned_sources@, edges@, incoming@, outgoing@, round as nat),
        decreases rounds - round,
    {
        if !ranks_within(rank, 0x2000_0000) {
            proof {
                assert(!abs_within(pivot_phase(centered, topo@, pinned_sources@, edges@, incoming@, outgoing@, round as nat).0, hb));
            }
            return false;
        }
        let changed = pivot_sweep(
            rank,
            topo,
            pinned_sources,
            edges,
            incoming,
            outgoing,
            Ghost(hb),
            Ghost(l),
            Ghost(w),
            Ghost(d),
        );
        settle(rank, topo, pinned_sources, outgoing, edges, Ghost(hb + m * l), Ghost(l));
        if !changed {
            settled_down = true;
        }
        round += 1;
    }
    if !ranks_within(rank, 0x2000_0000) {
        proof {
            assert(!abs_within(pivot_phase(centered, topo@, pinned_sources@, edges@, incoming@, outgoing@, round as nat).0, hb));
        }
        return false;
    }
    proof {
        if round < rounds {
            lemma_pivot_phase_stays(
                centered,
                topo@,
                pinned_sources@,
                edges@,
                incoming@,
                outgoing@,
                round as nat,
                rounds as nat,
            );
        }
        assert forall|q: nat| q <= rounds implies abs_within(
            #[trigger] pivot_phase(centered, topo@, pinned_sources@, edges@, incoming@, outgoing@, q).0,
            hb,
        ) by {
            if q > round {
                lemma_pivot_phase_stays(centered, topo@, pinned_sources@, edges@, incoming@, outgoing@, round as nat, q);
            }
        }
    }
    true
}


/// The smallest rank among the listed sources, or zero when none is listed.
pub open spec fn sources_min(rank: Seq<i32>, sources: Seq<usize>) -> int
    decreases sources.len(),
{
    if sources.len() == 0 {
        0
    } else if sources.len() == 1 {
        rank[sources[0] as int] as int
    } else {
        let m = sources_min(rank, sources.drop_last());
        let x = rank[sources.last() as int] as int;
        if x < m {
            x
        } else {
            m
        }
    }
}

/// `rank` lowered by `shift`, with the listed sources put at zero.
pub open spec fn shifted_pinned(rank: Seq<i32>, sources: Seq<usize>, shift: int) -> Seq<i32> {
    Seq::new(
        rank.len(),
        |v: int|
            if sources.contains(v as usize) {
                0i32
            } else {
                (rank[v] - shift) as i32
            },
    )
}

pub(crate) proof fn lemma_sources_min(rank: Seq<i32>, sources: Seq<usize>)
    requires
        sources.len() > 0,
        forall|i: int| 0 <= i < sources.len() ==> sources[i] < rank.len(),
    ensures
        forall|i: int| 0 <= i < sources.len() ==> sources_min(rank, sources) <= rank[#[trigger] sources[i] as int],
        exists|i: int| 0 <= i < sources.len() && sources_min(rank, sources) == rank[sources[i] as int],
    decreases sources.len(),
{
    if sources.len() > 1 {
        lemma_sources_min(rank, sources.drop_last());
        assert(forall|i: int| 0 <= i < sources.len() - 1 ==> sources[i] == sources.drop_last()[i]);
        let j = choose|i: int| 0 <= i < sources.drop_last().len() && sources_min(rank, sources.drop_last())
            == rank[sources.drop_last()[i] as int];
        assert(sources[j] == sources.drop_last()[j]);
        assert(sources[sources.len() - 1] == sources.last());
    } else {
        assert(sources_min(rank, sources) == rank[sources[0] as int]);
    }
}

/// The smallest rank among the listed sources, which must not be empty.
fn min_source_rank(rank: &[i32], sources: &[usize]) -> (r: i32)
    requires
        sources@.len() > 0,
        forall|i: int| 0 <= i < sources@.len() ==> sources@[i] < rank@.len(),
    ensures
        r == sources_min(rank@, sources@),
{
    let mut best = rank[sources[0]];
    let mut i: usize = 1;
    while i < sources.len()
        invariant
            1 <= i <= sources@.len(),
            forall|j: int| 0 <= j < sources@.len() ==> sources@[j] < rank@.len(),
            best == sources_min(rank@, sources@.subrange(0, i as int)),
        decreases sources.len() - i,
    {
        proof {
            assert(sources@.subrange(0, i + 1).drop_last() =~= sources@.subrange(0, i as int));
        }
        let x = rank[sources[i]];
        if x < best {
            best = x;
        }
        i += 1;
    }
    assert(sources@.subrange(0, sources@.len() as int) =~= sources@);
    best
}

/// Lowers every rank by `shift`.
fn shift_ranks(rank: &mut [i32], shift: i32)
    requires
        forall|v: int| 0 <= v < old(rank)@.len() ==> i32::MIN <= #[trigger] old(rank)@[v] - shift <= i32::MAX,
    ensures
        final(rank)@.len() == old(rank)@.len(),
        forall|v: int| 0 <= v < old(rank)@.len() ==> #[trigger] final(rank)@[v] == old(rank)@[v] - shift,
{
    let ghost start = rank@;
    let mut k: usize = 0;
    while k < rank.len()
        invariant
            k <= rank@.len(),
            rank@.len() == start.len(),
            forall|v: int| 0 <= v < start.len() ==> i32::MIN <= #[trigger] start[v] - shift <= i32::MAX,
            forall|v: int| 0 <= v < k ==> rank@[v] == start[v] - shift,
            forall|v: int| k <= v < start.len() ==> rank@[v] == start[v],
        decreases rank.len() - k,
    {
        proof {
            assert(i32::MIN <= start[k as int] - shift <= i32::MAX);
        }
        rank[k] = rank[k] - shift;
        k += 1;
    }
}

/// Lowers every rank by `shift` and puts the listed sources at zero.
fn shift_and_pin(rank: &mut [i32], sources: &[usize], shift: i32)
    requires
        forall|i: int| 0 <= i < sources@.len() ==> sources@[i] < old(rank)@.len(),
        forall|v: int| 0 <= v < old(rank)@.len() ==> i32::MIN <= #[trigger] old(rank)@[v] - shift <= i32::MAX,
    ensures
        final(rank)@ == shifted_pinned(old(rank)@, sources@, shift as int),
{
    let ghost start = rank@;
    shift_ranks(rank, shift);
    pin_sources(rank, sources);
    assert(rank@ =~= shifted_pinned(start, sources@, shift as int));
}

/// Moves all ranks down so that the lowest listed source sits at zero, puts
/// every listed source at zero and relaxes the edges forward again. Nothing
/// changes when no source is listed or the lowest one is already at zero.
pub fn balance_sources(
    rank: &mut [i32],
    sources: &[usize],
    topo: &[usize],
    outgoing: &[Vec<usize>],
    edges: &[DirectedEdge],
)
    requires
        forall|i: int| 0 <= i < sources@.len() ==> sources@[i] < old(rank)@.len(),
        adjacency_in_range(old(rank)@.len() as int, topo@, outgoing@, edges@),
        sources@.len() > 0 && sources_min(old(rank)@, sources@) != 0 ==> {
            &&& forall|v: int|
                0 <= v < old(rank)@.len() ==> i32::MIN <= #[trigger] old(rank)@[v] - sources_min(old(rank)@, sources@)
                    <= i32::MAX
            &&& relax_fits(
                shifted_pinned(old(rank)@, sources@, sources_min(old(rank)@, sources@)),
                topo@.len() as int,
                edges@,
            )
        },
    ensures
        final(rank)@.len() == old(rank)@.len(),
        sources@.len() == 0 || sources_min(old(rank)@, sources@) == 0 ==> final(rank)@ == old(rank)@,
        sources@.len() > 0 && sources_min(old(rank)@, sources@) != 0 ==> {
            let start = shifted_pinned(old(rank)@, sources@, sources_min(old(rank)@, sources@));
            &&& forall|v: int| 0 <= v < start.len() ==> final(rank)@[v] >= start[v]
            &&& topo_respects(topo@, outgoing@, edges@) ==> relaxed_edges_feasible(
                final(rank)@,
                topo@,
                outgoing@,
                edges@,
            ) && raised_only_when_forced(start, final(rank)@, topo@, outgoing@, edges@)
            &&& forall|v: int| 0 <= v < start.len() ==> final(rank)@[v] <= max_of(start) + topo@.len() * len_cap(edges@)
            &&& final(rank)@ == relaxed_upto(start, topo@, outgoing@, edges@, topo@.len() as int)
        },
{
    if sources.len() == 0 {
        return;
    }
    let low = min_source_rank(rank, sources);
    if low == 0 {
        return;
    }
    shift_and_pin(rank, sources, low);
    relax_forward(rank, topo, outgoing, edges);
}


/// The ranks and lengths are small enough that `balance_rank_band` cannot
/// overflow.
pub open spec fn band_fits(rank: Seq<i32>, edges: Seq<DirectedEdge>, topo: Seq<usize>) -> bool {
    max_abs(rank) + 2 * ((topo.len() + 1) * (len_abs_cap(edges) + 1)) <= 0x1fff_ffff
}

/// A copy of `rank`.
fn copy_ranks(rank: &[i32]) -> (r: Vec<i32>)
    ensures
        r@ == rank@,
{
    let mut out: Vec<i32> = Vec::new();
    let mut k: usize = 0;
    while k < rank.len()
        invariant
            k <= rank@.len(),
            out@ == rank@.subrange(0, k as int),
        decreases rank.len() - k,
    {
        out.push(rank[k]);
        k += 1;
    }
    assert(rank@.subrange(0, rank@.len() as int) =~= rank@);
    out
}

/// The largest entry of a non-empty sequence of ranks.
fn largest_rank(rank: &Vec<i32>) -> (top: i32)
    requires
        rank@.len() > 0,
    ensures
        top == max_of(rank@),
{
    let mut best = rank[0];
    let mut i: usize = 1;
    while i < rank.len()
        invariant
            1 <= i <= rank@.len(),
            best == max_of(rank@.subrange(0, i as int)),
        decreases rank.len() - i,
    {
        proof {
            assert(rank@.subrange(0, i + 1).drop_last() =~= rank@.subrange(0, i as int));
        }
        if rank[i] > best {
            best = rank[i];
        }
        i += 1;
    }
    assert(rank@.subrange(0, rank@.len() as int) =~= rank@);
    best
}

/// Upper rank limits after a backward scan from `top` over the last `k`
/// nodes of `topo`, last first: a node with outgoing edges comes down to the
/// smallest head limit minus minimum length over them, when that is below
/// both its limit and `0x0fff_ffff`.
pub open spec fn upper_scan(
    top: int,
    n: int,
    topo: Seq<usize>,
    outgoing: Seq<Vec<usize>>,
    edges: Seq<DirectedEdge>,
    k: int,
) -> Seq<i32>
    decreases k,
{
    if k <= 0 {
        Seq::new(n as nat, |v: int| top as i32)
    } else {
        let r = upper_scan(top, n, topo, outgoing, edges, k - 1);
        let node = topo[topo.len() - k] as int;
        if outgoing[node]@.len() == 0 {
            r
        } else {
            let u = ceiling_from(outgoing[node]@, edges, r);
            if u < 0x0fff_ffff && u < r[node] {
                r.update(node, u as i32)
            } else {
                r
            }
        }
    }
}

/// Upper rank limits by a backward longest-path scan from `top`: in reverse
/// `topo` order each node with outgoing edges is held at or below every
/// head's limit minus the edge's minimum length. All limits lie between
/// `top - topo.len() * l` and `top`.
fn upper_limits(
    n: usize,
    top: i32,
    sinks: &[usize],
    topo: &[usize],
    outgoing: &[Vec<usize>],
    edges: &[DirectedEdge],
    Ghost(l): Ghost<int>,
) -> (upper: Vec<i32>)
    requires
        forall|i: int| 0 <= i < sinks@.len() ==> sinks@[i] < n,
        forall|p: int| 0 <= p < topo@.len() ==> topo@[p] < n,
        outgoing@.len() == n,
        forall|v: int, k: int|
            0 <= v < n && 0 <= k < outgoing@[v]@.len() ==> (#[trigger] outgoing@[v]@[k]) < edges@.len()
                && edges@[outgoing@[v]@[k] as int].head < n,
        lens_within(edges@, l),
        0 <= l <= 0x1000_0000,
        -0x3000_0000 <= top - topo@.len() * l,
        top <= 0x1fff_ffff,
    ensures
        upper@.len() == n,
        forall|v: int| 0 <= v < n ==> top - topo@.len() * l <= #[trigger] upper@[v] <= top,
        upper@ == upper_scan(top as int, n as int, topo@, outgoing@, edges@, topo@.len() as int),
{
    let mut upper: Vec<i32> = Vec::new();
    let mut k: usize = 0;
    while k < n
        invariant
            k <= n,
            upper@.len() == k,
            forall|v: int| 0 <= v < k ==> upper@[v] == top,
        decreases n - k,
    {
        upper.push(top);
        k += 1;
    }
    let mut i: usize = 0;
    while i < sinks.len()
        invariant
            i <= sinks@.len(),
            upper@.len() == n,
            forall|j: int| 0 <= j < sinks@.len() ==> sinks@[j] < n,
            forall|v: int| 0 <= v < n ==> upper@[v] == top,
        decreases sinks.len() - i,
    {
        upper.set(sinks[i], top);
        i += 1;
    }
    assert(upper@ =~= upper_scan(top as int, n as int, topo@, outgoing@, edges@, 0));
    let ghost m = topo@.len() as int;
    let mut p: usize = topo.len();
    while p > 0
        invariant
            p <= topo@.len(),
            m == topo@.len(),
            upper@.len() == n,
            outgoing@.len() == n,
            forall|q: int| 0 <= q < topo@.len() ==> topo@[q] < n,
            forall|v: int, k: int|
                0 <= v < n && 0 <= k < outgoing@[v]@.len() ==> (#[trigger] outgoing@[v]@[k]) < edges@.len()
                    && edges@[outgoing@[v]@[k] as int].head < n,
            lens_within(edges@, l),
            0 <= l <= 0x1000_0000,
            -0x3000_0000 <= top - m * l,
            top <= 0x1fff_ffff,
            forall|v: int| 0 <= v < n ==> top - (m - p) * l <= #[trigger] upper@[v] <= top,
            upper@ == upper_scan(top as int, n as int, topo@, outgoing@, edges@, m - p),
        decreases p,
    {
        proof {
            assert((m - p) * l + l == (m - p + 1) * l) by (nonlinear_arith);
            assert((m - p + 1) * l <= m * l) by (nonlinear_arith)
                requires
                    p >= 1,
                    l >= 0,
                    p <= m,
            ;
            assert((m - p) * l >= 0) by (nonlinear_arith)
                requires
                    p <= m,
                    l >= 0,
            ;
            assert((m - p + 1) * l >= 0) by (nonlinear_arith)
                requires
                    p <= m,
                    l >= 0,
            ;
        }
        p -= 1;
        let node = topo[p];
        let outs = &outgoing[node];
        if outs.len() == 0 {
            if top < upper[node] {
                upper.set(node, top);
            }
        } else {
            let mut best: i32 = 0x1fff_ffff;
            let mut k: usize = 0;
            while k < outs.len()
                invariant
                    k <= outs@.len(),
                    outs@ == outgoing@[node as int]@,
                    node < n,
                    upper@.len() == n,
                    forall|kk: int| 0 <= kk < outs@.len() ==> outs@[kk] < edges@.len() && edges@[outs@[kk] as int].head < n,
                    lens_within(edges@, l),
                    0 <= l <= 0x1000_0000,
                    -0x3000_0000 <= top - m * l,
                    top <= 0x1fff_ffff,
                    forall|v: int| 0 <= v < n ==> top - (m - p - 1) * l <= #[trigger] upper@[v] <= top,
                    top - (m - p) * l <= best,
                    (m - p) * l <= m * l,
                    (m - p - 1) * l + l == (m - p) * l,
                    0 <= (m - p - 1) * l,
                    best == (if ceiling_from(outs@.subrange(0, k as int), edges@, upper@) < 0x1fff_ffff {
                        ceiling_from(outs@.subrange(0, k as int), edges@, upper@)
                    } else {
                        0x1fff_ffff
                    }),
                decreases outs.len() - k,
            {
                proof {
                    assert(outgoing@[node as int]@[k as int] == outs@[k as int]);
                    let pre = outs@.subrange(0, k + 1);
                    assert(pre.drop_last() =~= outs@.subrange(0, k as int));
                    assert(pre.last() == outs@[k as int]);
                }
                let edge = &edges[outs[k]];
                let candidate = upper[edge.head] - edge.min_len;
                if candidate < best {
                    best = candidate;
                }
                k += 1;
            }
            proof {
                assert(outs@.subrange(0, outs@.len() as int) =~= outs@);
            }
            if best < 0x0fff_ffff {
                if best < upper[node] {
                    upper.set(node, best);
                }
            }
        }
    }
    upper
}

/// Half of `sum`, rounded towards zero.
pub open spec fn half_toward_zero(sum: int) -> int {
    if sum >= 0 {
        sum / 2
    } else {
        -((-sum) / 2)
    }
}

/// The ranks after the first `k` nodes, in index order, moved to the
/// weighted center of what their edges ask for (the middle of their band,
/// rounded towards zero, when they have no edges), kept between `lower` and
/// `upper`, each from the ranks as the earlier moves left them.
pub open spec fn band_center_upto(
    rank: Seq<i32>,
    lower: Seq<i32>,
    upper: Seq<i32>,
    edges: Seq<DirectedEdge>,
    incoming: Seq<Vec<usize>>,
    outgoing: Seq<Vec<usize>>,
    k: int,
) -> Seq<i32>
    decreases k,
{
    if k <= 0 {
        rank
    } else {
        let r = band_center_upto(rank, lower, upper, edges, incoming, outgoing, k - 1);
        let node = k - 1;
        let wanted = match center_spec(node, r, edges, incoming, outgoing) {
            Some(x) => x,
            None => half_toward_zero(lower[node] + upper[node]),
        };
        r.update(node, clamp_int(wanted, lower[node] as int, upper[node] as int) as i32)
    }
}

/// What `balance_rank_band` leaves. The lower limits are the ranks relaxed
/// forward; the upper limits come from `upper_scan` from the highest lower
/// limit, raised to the lower limit where they fall below it; the ranks are
/// centered within these limits, lowered so that the lowest listed source
/// sits at zero (when one is listed) and settled.
pub open spec fn balance_spec(
    rank: Seq<i32>,
    topo: Seq<usize>,
    sources: Seq<usize>,
    incoming: Seq<Vec<usize>>,
    outgoing: Seq<Vec<usize>>,
    edges: Seq<DirectedEdge>,
) -> Seq<i32> {
    let n = rank.len() as int;
    if n == 0 {
        rank
    } else {
        let lower = relaxed_upto(rank, topo, outgoing, edges, topo.len() as int);
        let scanned = upper_scan(max_of(lower), n, topo, outgoing, edges, topo.len() as int);
        let upper = Seq::new(n as nat, |v: int| if scanned[v] < lower[v] { lower[v] } else { scanned[v] });
        let centered = band_center_upto(rank, lower, upper, edges, incoming, outgoing, n);
        let shifted = if sources.len() > 0 {
            Seq::new(n as nat, |v: int| (centered[v] - sources_min(centered, sources)) as i32)
        } else {
            centered
        };
        settle_spec(shifted, topo, sources, outgoing, edges)
    }
}

/// Balances ranks inside the band their edges allow. The lower limit of a
/// node is its rank after relaxing all edges forward; the upper limit comes
/// from a backward scan from the highest lower limit (never below the lower
/// limit). Each node in turn moves to the weighted center of what its edges
/// ask for (rounded half away from zero; the middle of its band when it has
/// no edges), kept inside its band. Then all ranks move down so that the
/// lowest listed source sits at zero, the listed sources are put at zero and
/// all edges are relaxed forward.
///
/// When `topo` lists no edge backwards, the result satisfies every listed
/// edge, and every listed source that no listed edge enters is at zero.
pub fn balance_rank_band(
    rank: &mut [i32],
    topo: &[usize],
    sources: &[usize],
    sinks: &[usize],
    incoming: &[Vec<usize>],
    outgoing: &[Vec<usize>],
    edges: &[DirectedEdge],
)
    requires
        lists_in_range(old(rank)@.len() as int, edges@, incoming@, outgoing@),
        forall|p: int| 0 <= p < topo@.len() ==> topo@[p] < old(rank)@.len(),
        forall|i: int| 0 <= i < sources@.len() ==> sources@[i] < old(rank)@.len(),
        forall|i: int| 0 <= i < sinks@.len() ==> sinks@[i] < old(rank)@.len(),
        band_fits(old(rank)@, edges@, topo@),
    ensures
        final(rank)@ == balance_spec(old(rank)@, topo@, sources@, incoming@, outgoing@, edges@),
        final(rank)@.len() == old(rank)@.len(),
        old(rank)@.len() == 0 ==> final(rank)@ == old(rank)@,
        old(rank)@.len() > 0 ==> refinement_settled(final(rank)@, topo@, outgoing@, edges@, sources@),
        abs_within(
            final(rank)@,
            2 * (max_abs(old(rank)@) + topo@.len() * len_abs_cap(edges@)) + topo@.len() * len_abs_cap(edges@),
        ),
{
    if rank.len() == 0 {
        return;
    }
    let n = rank.len();
    let ghost m = topo@.len() as int;
    let ghost l = len_abs_cap(edges@);
    let ghost b = max_abs(rank@);
    let ghost c = b + m * l;
    proof {
        lemma_max_abs(rank@);
        lemma_len_abs_cap(edges@);
        assert(m * l >= 0 && (m + 1) * l <= (m + 1) * (l + 1) && m * l <= (m + 1) * (l + 1)) by (nonlinear_arith)
            requires
                m >= 0,
                l >= 0,
        ;
        assert(adjacency_in_range(n as int, topo@, outgoing@, edges@));
        assert(m * l + l == (m + 1) * l) by (nonlinear_arith);
        lemma_relax_fits(rank@, m, edges@, b, l);
    }
    let ghost start = rank@;
    let mut lower = copy_ranks(rank);
    relax_forward(lower.as_mut_slice(), topo, outgoing, edges);
    let top = largest_rank(&lower);
    proof {
        lemma_max_min_of(lower@);
        lemma_max_min_of(rank@);
        lemma_len_cap(edges@);
        let i = choose|i: int| 0 <= i < rank@.len() && rank@[i] == max_of(rank@);
        assert(len_cap(edges@) <= l) by {
            if len_cap(edges@) != 0 {
                let e = choose|e: int| 0 <= e < edges@.len() && edges@[e].min_len == len_cap(edges@);
            }
        }
        let lc = len_cap(edges@);
        assert(m * lc <= m * l) by (nonlinear_arith)
            requires
                0 <= lc <= l,
                m >= 0,
        ;
        let j = choose|j: int| 0 <= j < lower@.len() && lower@[j] == max_of(lower@);
        assert(-b <= top <= c);
        assert(forall|v: int| 0 <= v < n ==> -b <= #[trigger] lower@[v] <= c);
    }
    let ghost low0 = lower@;
    proof {
        assert(low0 == relaxed_upto(start, topo@, outgoing@, edges@, m));
    }
    let mut upper = upper_limits(n, top, sinks, topo, outgoing, edges, Ghost(l));
    let ghost scanned = upper@;
    let mut node: usize = 0;
    while node < n
        invariant
            node <= n,
            lower@ == low0,
            scanned.len() == n,
            lower@.len() == n,
            upper@.len() == n,
            forall|v: int| 0 <= v < n ==> -c <= #[trigger] lower@[v] <= c,
            forall|v: int| 0 <= v < n ==> -c <= #[trigger] upper@[v] <= c,
            forall|v: int| 0 <= v < node ==> lower@[v] <= #[trigger] upper@[v],
            forall|v: int| 0 <= v < node ==> #[trigger] upper@[v] == (if scanned[v] < low0[v] {
                low0[v]
            } else {
                scanned[v]
            }),
            forall|v: int| node <= v < n ==> #[trigger] upper@[v] == scanned[v],
        decreases n - node,
    {
        if upper[node] < lower[node] {
            let lo = lower[node];
            upper.set(node, lo);
        }
        node += 1;
    }
    let ghost up0 = upper@;
    proof {
        assert(up0 =~= Seq::new(n as nat, |v: int| if scanned[v] < low0[v] { low0[v] } else { scanned[v] }));
    }
    let mut node: usize = 0;
    while node < n
        invariant
            node <= n,
            rank@ == band_center_upto(start, low0, up0, edges@, incoming@, outgoing@, node as int),
            lower@ == low0,
            upper@ == up0,
            rank@.len() == n,
            lower@.len() == n,
            upper@.len() == n,
            lists_in_range(n as int, edges@, incoming@, outgoing@),
            lens_within(edges@, l),
            0 <= l,
            0 <= c,
            c + l <= 0x2000_0000,
            forall|v: int| 0 <= v < n ==> -c <= #[trigger] lower@[v] <= c,
            forall|v: int| 0 <= v < n ==> -c <= #[trigger] upper@[v] <= c,
            forall|v: int| 0 <= v < n ==> lower@[v] <= #[trigger] upper@[v],
            abs_within(rank@, c),
        decreases n - node,
    {
        let centered = match weighted_center(node, rank, edges, incoming, outgoing, Ghost(c), Ghost(l)) {
            Some(x) => x,
            None => {
                let sum = lower[node] + upper[node];
                if sum >= 0 {
                    sum / 2
                } else {
                    -((-sum) / 2)
                }
            },
        };
        let r = clamp_i32(centered, lower[node], upper[node]);
        rank[node] = r;
        node += 1;
    }
    let ghost centered = rank@;
    if sources.len() > 0 {
        let low = min_source_rank(rank, sources);
        proof {
            lemma_sources_min(rank@, sources@);
            let i = choose|i: int| 0 <= i < sources@.len() && sources_min(rank@, sources@) == rank@[sources@[i] as int];
        }
        shift_ranks(rank, low);
        proof {
            assert(rank@ =~= Seq::new(n as nat, |v: int| (centered[v] - sources_min(centered, sources@)) as i32));
        }
    }
    proof {
        assert((m + 1) * l <= (m + 1) * (l + 1)) by (nonlinear_arith)
            requires
                m >= 0,
                l >= 0,
        ;
        assert(adjacency_in_range(n as int, topo@, outgoing@, edges@));
    }
    settle(rank, topo, sources, outgoing, edges, Ghost(2 * c), Ghost(l));
}


/// How many passes `compact_ranks` makes at most on `n` nodes.
pub open spec fn compact_passes(n: int) -> int {
    if 2 * n > 8 {
        2 * n
    } else {
        8
    }
}

/// The lengths are small enough that one pass of `compact_ranks`, started
/// from ranks within `2^29`, cannot overflow.
pub open spec fn compact_fits(edges: Seq<DirectedEdge>, topo: Seq<usize>) -> bool {
    (2 * topo.len() + 2) * (len_abs_cap(edges) + 1) <= 0x1000_0000
}

/// The rank a backward sweep would lower `node` to: the smallest head rank
/// minus minimum length over its outgoing edges, or its own rank when it has
/// none.
pub open spec fn sweep_limit(node: int, rank: Seq<i32>, edges: Seq<DirectedEdge>, outgoing: Seq<Vec<usize>>) -> int {
    if outgoing[node]@.len() == 0 {
        rank[node] as int
    } else {
        ceiling_from(outgoing[node]@, edges, rank)
    }
}

/// The ranks after a backward sweep over the last `k` nodes of `topo`, last
/// first, and whether some rank changed: each node that is not a listed sink
/// moves down to its `sweep_limit` when that is below its rank, from the
/// ranks as the sweep left them so far.
pub open spec fn backward_sweep_spec(
    rank: Seq<i32>,
    topo: Seq<usize>,
    sinks: Seq<usize>,
    edges: Seq<DirectedEdge>,
    outgoing: Seq<Vec<usize>>,
    k: int,
) -> (Seq<i32>, bool)
    decreases k,
{
    if k <= 0 {
        (rank, false)
    } else {
        let (r, ch) = backward_sweep_spec(rank, topo, sinks, edges, outgoing, k - 1);
        let node = topo[topo.len() - k] as int;
        if sinks.contains(node as usize) {
            (r, ch)
        } else {
            let u = sweep_limit(node, r, edges, outgoing);
            if u < r[node] {
                (r.update(node, u as i32), true)
            } else {
                (r, ch)
            }
        }
    }
}

/// One backward sweep: in reverse `topo` order, every node that is not a
/// listed sink and sits above what one of its outgoing edges allows (head
/// rank minus minimum length) moves down to the lowest such limit. Returns
/// whether some rank changed.
fn backward_sweep(
    rank: &mut [i32],
    topo: &[usize],
    sinks: &[usize],
    outgoing: &[Vec<usize>],
    edges: &[DirectedEdge],
    Ghost(hb): Ghost<int>,
    Ghost(l): Ghost<int>,
) -> (changed: bool)
    requires
        outgoing@.len() == old(rank)@.len(),
        forall|v: int, k: int|
            0 <= v < old(rank)@.len() && 0 <= k < outgoing@[v]@.len() ==> (#[trigger] outgoing@[v]@[k])
                < edges@.len() && edges@[outgoing@[v]@[k] as int].head < old(rank)@.len(),
        forall|p: int| 0 <= p < topo@.len() ==> topo@[p] < old(rank)@.len(),
        abs_within(old(rank)@, hb),
        lens_within(edges@, l),
        0 <= hb,
        0 <= l,
        hb + topo@.len() * l + l <= 0x3000_0000,
    ensures
        final(rank)@.len() == old(rank)@.len(),
        abs_within(final(rank)@, hb + topo@.len() * l),
        (final(rank)@, changed) == backward_sweep_spec(old(rank)@, topo@, sinks@, edges@, outgoing@, topo@.len() as int),
{
    let ghost n = rank@.len() as int;
    let ghost m = topo@.len() as int;
    let ghost start = rank@;
    let mut changed = false;
    let mut p: usize = topo.len();
    while p > 0
        invariant
            p <= m,
            (rank@, changed) == backward_sweep_spec(start, topo@, sinks@, edges@, outgoing@, m - p),
            m == topo@.len(),
            rank@.len() == n,
            outgoing@.len() == n,
            forall|v: int, k: int|
                0 <= v < n && 0 <= k < outgoing@[v]@.len() ==> (#[trigger] outgoing@[v]@[k]) < edges@.len()
                    && edges@[outgoing@[v]@[k] as int].head < n,
            forall|q: int| 0 <= q < topo@.len() ==> topo@[q] < n,
            abs_within(rank@, hb + (m - p) * l),
            lens_within(edges@, l),
            0 <= hb,
            0 <= l,
            hb + m * l + l <= 0x3000_0000,
        decreases p,
    {
        let ghost c = hb + (m - p) * l;
        proof {
            assert((m - p) * l + l == (m - p + 1) * l) by (nonlinear_arith);
            assert((m - p + 1) * l <= m * l) by (nonlinear_arith)
                requires
                    1 <= p <= m,
                    l >= 0,
            ;
            assert((m - p) * l >= 0) by (nonlinear_arith)
                requires
                    p <= m,
                    l >= 0,
            ;
        }
        p -= 1;
        let node = topo[p];
        if !is_listed(sinks, node) {
            let outs = &outgoing[node];
            let mut upper = rank[node];
            let mut k: usize = 0;
            while k < outs.len()
                invariant
                    k <= outs@.len(),
                    outs@ == outgoing@[node as int]@,
                    node < n,
                    rank@.len() == n,
                    forall|kk: int| 0 <= kk < outs@.len() ==> outs@[kk] < edges@.len() && edges@[outs@[kk] as int].head < n,
                    abs_within(rank@, c),
                    lens_within(edges@, l),
                    0 <= c,
                    0 <= l,
                    c + l <= 0x3000_0000,
                    -(c + l) <= upper <= c + l,
                    upper == (if k == 0 {
                        rank@[node as int] as int
                    } else {
                        ceiling_from(outs@.subrange(0, k as int), edges@, rank@)
                    }),
                decreases outs.len() - k,
            {
                proof {
                    assert(outgoing@[node as int]@[k as int] == outs@[k as int]);
                    let pre = outs@.subrange(0, k + 1);
                    assert(pre.drop_last() =~= outs@.subrange(0, k as int));
                    assert(pre.last() == outs@[k as int]);
                }
                let edge = &edges[outs[k]];
                let candidate = rank[edge.head] - edge.min_len;
                if k == 0 || candidate < upper {
                    upper = candidate;
                }
                k += 1;
            }
            proof {
                assert(outs@.subrange(0, outs@.len() as int) =~= outs@);
                assert(upper as int == sweep_limit(node as int, rank@, edges@, outgoing@));
            }
            if upper < rank[node] {
                rank[node] = upper;
                changed = true;
            }
        }
    }
    changed
}


/// The ranks after `passes` compaction passes (a backward sweep followed by
/// settling), and whether the passes stopped after one that lowered
/// nothing.
pub open spec fn compact_phase(
    rank: Seq<i32>,
    topo: Seq<usize>,
    sources: Seq<usize>,
    sinks: Seq<usize>,
    edges: Seq<DirectedEdge>,
    outgoing: Seq<Vec<usize>>,
    passes: nat,
) -> (Seq<i32>, bool)
    decreases passes,
{
    if passes == 0 {
        (rank, false)
    } else {
        let (r, stopped) = compact_phase(rank, topo, sources, sinks, edges, outgoing, (passes - 1) as nat);
        if stopped {
            (r, true)
        } else {
            let (r1, changed) = backward_sweep_spec(r, topo, sinks, edges, outgoing, topo.len() as int);
            (settle_spec(r1, topo, sources, outgoing, edges), !changed)
        }
    }
}

/// What `compact_ranks` leaves: the ranks as they are when there are none,
/// otherwise `compact_phase` over `max(2n, 8)` passes.
pub open spec fn compact_spec(
    rank: Seq<i32>,
    topo: Seq<usize>,
    sources: Seq<usize>,
    sinks: Seq<usize>,
    edges: Seq<DirectedEdge>,
    outgoing: Seq<Vec<usize>>,
) -> Seq<i32> {
    if rank.len() == 0 {
        rank
    } else {
        compact_phase(rank, topo, sources, sinks, edges, outgoing, compact_passes(rank.len() as int) as nat).0
    }
}

proof fn lemma_compact_phase_stays(
    rank: Seq<i32>,
    topo: Seq<usize>,
    sources: Seq<usize>,
    sinks: Seq<usize>,
    edges: Seq<DirectedEdge>,
    outgoing: Seq<Vec<usize>>,
    p: nat,
    q: nat,
)
    requires
        p <= q,
        compact_phase(rank, topo, sources, sinks, edges, outgoing, p).1,
    ensures
        compact_phase(rank, topo, sources, sinks, edges, outgoing, q) == compact_phase(
            rank,
            topo,
            sources,
            sinks,
            edges,
            outgoing,
            p,
        ),
    decreases q - p,
{
    if p < q {
        lemma_compact_phase_stays(rank, topo, sources, sinks, edges, outgoing, p, (q - 1) as nat);
    }
}

/// The ranks each compaction pass starts from, and those after the last
/// one, lie within `2^29`.
pub open spec fn compact_stays_within(
    rank: Seq<i32>,
    topo: Seq<usize>,
    sources: Seq<usize>,
    sinks: Seq<usize>,
    edges: Seq<DirectedEdge>,
    outgoing: Seq<Vec<usize>>,
) -> bool {
    rank.len() == 0 || forall|p: nat|
        p <= compact_passes(rank.len() as int) ==> abs_within(
            #[trigger] compact_phase(rank, topo, sources, sinks, edges, outgoing, p).0,
            0x2000_0000,
        )
}

/// Pulls ranks down towards what the edges to their heads allow, keeping
/// every edge feasible: each pass sweeps backwards in `topo` order, lowering
/// every node that is not a listed sink to the smallest head rank minus
/// minimum length over its outgoing edges when that is below its rank, then
/// puts the listed sources at zero and relaxes all edges forward. At most
/// `max(2n, 8)` passes, stopping after a pass that lowered nothing.
///
/// When `topo` lists no edge backwards, the result satisfies every listed
/// edge, and every listed source that no listed edge enters is at zero.
/// The ranks must stay within `2^29`: that is known of every start that
/// `compact_start_fits`, and is otherwise asked for as
/// `compact_stays_within`.
pub fn compact_ranks(
    rank: &mut [i32],
    topo: &[usize],
    sources: &[usize],
    sinks: &[usize],
    outgoing: &[Vec<usize>],
    edges: &[DirectedEdge],
)
    requires
        outgoing@.len() == old(rank)@.len(),
        old(rank)@.len() <= usize::MAX / 4,
        forall|v: int, k: int|
            0 <= v < old(rank)@.len() && 0 <= k < outgoing@[v]@.len() ==> (#[trigger] outgoing@[v]@[k])
                < edges@.len() && edges@[outgoing@[v]@[k] as int].head < old(rank)@.len(),
        forall|p: int| 0 <= p < topo@.len() ==> topo@[p] < old(rank)@.len(),
        forall|i: int| 0 <= i < sources@.len() ==> sources@[i] < old(rank)@.len(),
        compact_fits(edges@, topo@),
        compact_start_fits(old(rank)@, topo@, edges@, outgoing@) || compact_stays_within(
            old(rank)@,
            topo@,
            sources@,
            sinks@,
            edges@,
            outgoing@,
        ),
    ensures
        final(rank)@ == compact_spec(old(rank)@, topo@, sources@, sinks@, edges@, outgoing@),
        final(rank)@.len() == old(rank)@.len(),
        old(rank)@.len() == 0 ==> final(rank)@ == old(rank)@,
        old(rank)@.len() > 0 ==> refinement_settled(final(rank)@, topo@, outgoing@, edges@, sources@),
        abs_within(final(rank)@, 0x2000_0000) || old(rank)@.len() == 0,
{
    proof {
        if compact_start_fits(rank@, topo@, edges@, outgoing@) {
            law_compact_stays_within(rank@, topo@, sources@, sinks@, edges@, outgoing@);
        }
    }
    let ok = compact_checked(rank, topo, sources, sinks, outgoing, edges);
    assert(ok);
}

/// `compact_ranks` that looks at the ranks before every pass and at the
/// end, and gives up (answering `false`, with the ranks part way) as soon
/// as they leave `2^29`; otherwise it answers `true` with the ranks
/// compacted.
pub fn compact_checked(
    rank: &mut [i32],
    topo: &[usize],
    sources: &[usize],
    sinks: &[usize],
    outgoing: &[Vec<usize>],
    edges: &[DirectedEdge],
) -> (ok: bool)
    requires
        outgoing@.len() == old(rank)@.len(),
        old(rank)@.len() <= usize::MAX / 4,
        forall|v: int, k: int|
            0 <= v < old(rank)@.len() && 0 <= k < outgoing@[v]@.len() ==> (#[trigger] outgoing@[v]@[k])
                < edges@.len() && edges@[outgoing@[v]@[k] as int].head < old(rank)@.len(),
        forall|p: int| 0 <= p < topo@.len() ==> topo@[p] < old(rank)@.len(),
        forall|i: int| 0 <= i < sources@.len() ==> sources@[i] < old(rank)@.len(),
        compact_fits(edges@, topo@),
    ensures
        ok == compact_stays_within(old(rank)@, topo@, sources@, sinks@, edges@, outgoing@),
        final(rank)@.len() == old(rank)@.len(),
        ok ==> final(rank)@ == compact_spec(old(rank)@, topo@, sources@, sinks@, edges@, outgoing@),
        old(rank)@.len() == 0 ==> final(rank)@ == old(rank)@,
        ok && old(rank)@.len() > 0 ==> refinement_settled(final(rank)@, topo@, outgoing@, edges@, sources@),
        ok ==> abs_within(final(rank)@, 0x2000_0000),
{
    let node_count = rank.len();
    if node_count == 0 {
        return true;
    }
    let ghost n = node_count as int;
    let ghost m = topo@.len() as int;
    let ghost l = len_abs_cap(edges@);
    let ghost total = compact_passes(n);
    let ghost hb: int = 0x2000_0000;
    let ghost s = (2 * m + 2) * (l + 1);
    proof {
        lemma_len_abs_cap(edges@);
        assert(m * l + l <= s && m * l >= 0 && (m + 1) * l <= s) by (nonlinear_arith)
            requires
                s == (2 * m + 2) * (l + 1),
                m >= 0,
                l >= 0,
        ;
        assert(adjacency_in_range(n, topo@, outgoing@, edges@));
    }
    let passes: usize = if node_count * 2 > 8 {
        node_count * 2
    } else {
        8
    };
    let ghost start = rank@;
    let mut pass: usize = 0;
    let mut done = false;
    while pass < passes && !done
        invariant
            (rank@, done) == compact_phase(start, topo@, sources@, sinks@, edges@, outgoing@, pass as nat),
            start == old(rank)@,
            start.len() == n,
            rank@.len() == n,
            n > 0,
            m == topo@.len(),
            s == (2 * m + 2) * (l + 1),
            s <= 0x1000_0000,
            m * l + l <= s,
            m * l >= 0,
            (m + 1) * l <= s,
            hb == 0x2000_0000,
            0 <= l,
            total == compact_passes(n),
            passes as int == total,
            pass <= passes,
            forall|p: nat| p < pass ==> abs_within(#[trigger] compact_phase(start, topo@, sources@, sinks@, edges@, outgoing@, p).0, hb),
            outgoing@.len() == n,
            forall|v: int, k: int|
                0 <= v < n && 0 <= k < outgoing@[v]@.len() ==> (#[trigger] outgoing@[v]@[k]) < edges@.len()
                    && edges@[outgoing@[v]@[k] as int].head < n,
            adjacency_in_range(n, topo@, outgoing@, edges@),
            forall|p: int| 0 <= p < topo@.len() ==> topo@[p] < n,
            forall|i: int| 0 <= i < sources@.len() ==> sources@[i] < n,
            lens_within(edges@, l),
            pass > 0 ==> refinement_settled(rank@, topo@, outgoing@, edges@, sources@),
            done ==> pass > 0,
        decreases passes - pass,
    {
        if !ranks_within(rank, 0x2000_0000) {
            proof {
                assert(!abs_within(compact_phase(start, topo@, sources@, sinks@, edges@, outgoing@, pass as nat).0, hb));
            }
            return false;
        }
        let changed = backward_sweep(rank, topo, sinks, outgoing, edges, Ghost(hb), Ghost(l));
        settle(rank, topo, sources, outgoing, edges, Ghost(hb + m * l), Ghost(l));
        if !changed {
            done = true;
        }
        pass += 1;
    }
    if !ranks_within(rank, 0x2000_0000) {
        proof {
            assert(!abs_within(compact_phase(start, topo@, sources@, sinks@, edges@, outgoing@, pass as nat).0, hb));
        }
        return false;
    }
    proof {
        if done {
            lemma_compact_phase_stays(start, topo@, sources@, sinks@, edges@, outgoing@, pass as nat, total as nat);
        }
        assert forall|p: nat| p <= total implies abs_within(
            #[trigger] compact_phase(start, topo@, sources@, sinks@, edges@, outgoing@, p).0,
            hb,
        ) by {
            if p > pass {
                lemma_compact_phase_stays(start, topo@, sources@, sinks@, edges@, outgoing@, pass as nat, p);
            }
        }
    }
    true
}

} // verus!
