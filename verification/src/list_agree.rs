//! The ranking passes read their adjacency lists only through the lists'
//! contents: two list tables with the same contents give the same ranks.
use vstd::prelude::*;

use crate::edges::DirectedEdge;
use crate::ranking::relaxed_upto;
use crate::simplex::{
    abs_within, center_passes, center_states_within, compact_stays_within, pivot_rounds, pivot_states_within,
    refine_stays_within, backward_sweep_spec, balance_spec, band_center_upto, center_phase, center_sweep_spec, compact_phase,
    compact_spec, pivot_phase, pivot_sweep_spec, refine_spec, settle_spec, upper_scan,
};

verus! {

/// `a` and `b` hold lists with the same contents, entry by entry.
pub open spec fn lists_agree(a: Seq<Vec<usize>>, b: Seq<Vec<usize>>) -> bool {
    &&& a.len() == b.len()
    &&& forall|v: int| 0 <= v < a.len() ==> (#[trigger] a[v])@ == b[v]@
}

/// Every entry of `s` is below `n`.
pub open spec fn nodes_below(s: Seq<usize>, n: int) -> bool {
    forall|p: int| 0 <= p < s.len() ==> #[trigger] s[p] < n
}

pub proof fn lemma_relaxed_agree(
    rank: Seq<i32>,
    topo: Seq<usize>,
    a: Seq<Vec<usize>>,
    b: Seq<Vec<usize>>,
    edges: Seq<DirectedEdge>,
    p: int,
)
    requires
        lists_agree(a, b),
        nodes_below(topo, a.len() as int),
        p <= topo.len(),
    ensures
        relaxed_upto(rank, topo, a, edges, p) == relaxed_upto(rank, topo, b, edges, p),
    decreases p,
{
    if p > 0 {
        lemma_relaxed_agree(rank, topo, a, b, edges, p - 1);
        assert(topo[p - 1] < a.len());
        assert(a[topo[p - 1] as int]@ == b[topo[p - 1] as int]@);
    }
}

pub proof fn lemma_settle_agree(
    rank: Seq<i32>,
    topo: Seq<usize>,
    pinned: Seq<usize>,
    a: Seq<Vec<usize>>,
    b: Seq<Vec<usize>>,
    edges: Seq<DirectedEdge>,
)
    requires
        lists_agree(a, b),
        nodes_below(topo, a.len() as int),
    ensures
        settle_spec(rank, topo, pinned, a, edges) == settle_spec(rank, topo, pinned, b, edges),
{
    lemma_relaxed_agree(crate::simplex::pinned_at_zero(rank, pinned), topo, a, b, edges, topo.len() as int);
}

proof fn lemma_center_sweep_agree(
    rank: Seq<i32>,
    scan: Seq<usize>,
    pinned: Seq<usize>,
    edges: Seq<DirectedEdge>,
    ia: Seq<Vec<usize>>,
    ib: Seq<Vec<usize>>,
    oa: Seq<Vec<usize>>,
    ob: Seq<Vec<usize>>,
)
    requires
        lists_agree(ia, ib),
        lists_agree(oa, ob),
        ia.len() == oa.len(),
        nodes_below(scan, ia.len() as int),
    ensures
        center_sweep_spec(rank, scan, pinned, edges, ia, oa) == center_sweep_spec(rank, scan, pinned, edges, ib, ob),
    decreases scan.len(),
{
    if scan.len() > 0 {
        assert(nodes_below(scan.drop_last(), ia.len() as int)) by {
            assert forall|p: int| 0 <= p < scan.drop_last().len() implies #[trigger] scan.drop_last()[p] < ia.len() by {
                assert(scan.drop_last()[p] == scan[p]);
            }
        }
        lemma_center_sweep_agree(rank, scan.drop_last(), pinned, edges, ia, ib, oa, ob);
        let node = scan.last() as int;
        assert(scan[scan.len() - 1] < ia.len());
        assert(ia[node]@ == ib[node]@);
        assert(oa[node]@ == ob[node]@);
    }
}

proof fn lemma_pivot_sweep_agree(
    rank: Seq<i32>,
    scan: Seq<usize>,
    pinned: Seq<usize>,
    edges: Seq<DirectedEdge>,
    ia: Seq<Vec<usize>>,
    ib: Seq<Vec<usize>>,
    oa: Seq<Vec<usize>>,
    ob: Seq<Vec<usize>>,
)
    requires
        lists_agree(ia, ib),
        lists_agree(oa, ob),
        ia.len() == oa.len(),
        nodes_below(scan, ia.len() as int),
    ensures
        pivot_sweep_spec(rank, scan, pinned, edges, ia, oa) == pivot_sweep_spec(rank, scan, pinned, edges, ib, ob),
    decreases scan.len(),
{
    if scan.len() > 0 {
        assert(nodes_below(scan.drop_last(), ia.len() as int)) by {
            assert forall|p: int| 0 <= p < scan.drop_last().len() implies #[trigger] scan.drop_last()[p] < ia.len() by {
                assert(scan.drop_last()[p] == scan[p]);
            }
        }
        lemma_pivot_sweep_agree(rank, scan.drop_last(), pinned, edges, ia, ib, oa, ob);
        let node = scan.last() as int;
        assert(scan[scan.len() - 1] < ia.len());
        assert(ia[node]@ == ib[node]@);
        assert(oa[node]@ == ob[node]@);
    }
}

proof fn lemma_center_phase_agree(
    rank: Seq<i32>,
    topo: Seq<usize>,
    pinned: Seq<usize>,
    edges: Seq<DirectedEdge>,
    ia: Seq<Vec<usize>>,
    ib: Seq<Vec<usize>>,
    oa: Seq<Vec<usize>>,
    ob: Seq<Vec<usize>>,
    passes: nat,
)
    requires
        lists_agree(ia, ib),
        lists_agree(oa, ob),
        ia.len() == oa.len(),
        nodes_below(topo, ia.len() as int),
    ensures
        center_phase(rank, topo, pinned, edges, ia, oa, passes) == center_phase(rank, topo, pinned, edges, ib, ob, passes),
    decreases passes,
{
    if passes > 0 {
        lemma_center_phase_agree(rank, topo, pinned, edges, ia, ib, oa, ob, (passes - 1) as nat);
        let r = center_phase(rank, topo, pinned, edges, ia, oa, (passes - 1) as nat).0;
        assert(nodes_below(topo.reverse(), ia.len() as int)) by {
            assert forall|p: int| 0 <= p < topo.reverse().len() implies #[trigger] topo.reverse()[p] < ia.len() by {
                assert(topo.reverse()[p] == topo[topo.len() - 1 - p]);
            }
        }
        lemma_center_sweep_agree(r, topo, pinned, edges, ia, ib, oa, ob);
        lemma_center_sweep_agree(r, topo.reverse(), pinned, edges, ia, ib, oa, ob);
        let pass = passes - 1;
        let scan = if pass % 2 == 0 {
            topo
        } else {
            topo.reverse()
        };
        let r1 = center_sweep_spec(r, scan, pinned, edges, ia, oa).0;
        lemma_settle_agree(r1, topo, pinned, oa, ob, edges);
    }
}

proof fn lemma_pivot_phase_agree(
    rank: Seq<i32>,
    topo: Seq<usize>,
    pinned: Seq<usize>,
    edges: Seq<DirectedEdge>,
    ia: Seq<Vec<usize>>,
    ib: Seq<Vec<usize>>,
    oa: Seq<Vec<usize>>,
    ob: Seq<Vec<usize>>,
    rounds: nat,
)
    requires
        lists_agree(ia, ib),
        lists_agree(oa, ob),
        ia.len() == oa.len(),
        nodes_below(topo, ia.len() as int),
    ensures
        pivot_phase(rank, topo, pinned, edges, ia, oa, rounds) == pivot_phase(rank, topo, pinned, edges, ib, ob, rounds),
    decreases rounds,
{
    if rounds > 0 {
        lemma_pivot_phase_agree(rank, topo, pinned, edges, ia, ib, oa, ob, (rounds - 1) as nat);
        let r = pivot_phase(rank, topo, pinned, edges, ia, oa, (rounds - 1) as nat).0;
        lemma_pivot_sweep_agree(r, topo, pinned, edges, ia, ib, oa, ob);
        let r1 = pivot_sweep_spec(r, topo, pinned, edges, ia, oa).0;
        lemma_settle_agree(r1, topo, pinned, oa, ob, edges);
    }
}

pub proof fn lemma_refine_agree(
    rank: Seq<i32>,
    topo: Seq<usize>,
    pinned: Seq<usize>,
    edges: Seq<DirectedEdge>,
    ia: Seq<Vec<usize>>,
    ib: Seq<Vec<usize>>,
    oa: Seq<Vec<usize>>,
    ob: Seq<Vec<usize>>,
)
    requires
        lists_agree(ia, ib),
        lists_agree(oa, ob),
        ia.len() == oa.len(),
        nodes_below(topo, ia.len() as int),
    ensures
        refine_spec(rank, topo, pinned, edges, ia, oa) == refine_spec(rank, topo, pinned, edges, ib, ob),
{
    let n = rank.len() as int;
    if n > 1 {
        let passes = if 4 * n > 12 {
            4 * n
        } else {
            12
        };
        let rounds = if 2 * n > 8 {
            2 * n
        } else {
            8
        };
        lemma_center_phase_agree(rank, topo, pinned, edges, ia, ib, oa, ob, passes as nat);
        let centered = center_phase(rank, topo, pinned, edges, ia, oa, passes as nat).0;
        lemma_pivot_phase_agree(centered, topo, pinned, edges, ia, ib, oa, ob, rounds as nat);
    }
}

proof fn lemma_backward_sweep_agree(
    rank: Seq<i32>,
    topo: Seq<usize>,
    sinks: Seq<usize>,
    edges: Seq<DirectedEdge>,
    a: Seq<Vec<usize>>,
    b: Seq<Vec<usize>>,
    k: int,
)
    requires
        lists_agree(a, b),
        nodes_below(topo, a.len() as int),
        k <= topo.len(),
    ensures
        backward_sweep_spec(rank, topo, sinks, edges, a, k) == backward_sweep_spec(rank, topo, sinks, edges, b, k),
    decreases k,
{
    if k > 0 {
        lemma_backward_sweep_agree(rank, topo, sinks, edges, a, b, k - 1);
        let node = topo[topo.len() - k] as int;
        assert(topo[topo.len() - k] < a.len());
        assert(a[node]@ == b[node]@);
    }
}

proof fn lemma_compact_phase_agree(
    rank: Seq<i32>,
    topo: Seq<usize>,
    sources: Seq<usize>,
    sinks: Seq<usize>,
    edges: Seq<DirectedEdge>,
    a: Seq<Vec<usize>>,
    b: Seq<Vec<usize>>,
    passes: nat,
)
    requires
        lists_agree(a, b),
        nodes_below(topo, a.len() as int),
    ensures
        compact_phase(rank, topo, sources, sinks, edges, a, passes) == compact_phase(rank, topo, sources, sinks, edges, b, passes),
    decreases passes,
{
    if passes > 0 {
        lemma_compact_phase_agree(rank, topo, sources, sinks, edges, a, b, (passes - 1) as nat);
        let r = compact_phase(rank, topo, sources, sinks, edges, a, (passes - 1) as nat).0;
        lemma_backward_sweep_agree(r, topo, sinks, edges, a, b, topo.len() as int);
        let r1 = backward_sweep_spec(r, topo, sinks, edges, a, topo.len() as int).0;
        lemma_settle_agree(r1, topo, sources, a, b, edges);
    }
}

pub proof fn lemma_compact_agree(
    rank: Seq<i32>,
    topo: Seq<usize>,
    sources: Seq<usize>,
    sinks: Seq<usize>,
    edges: Seq<DirectedEdge>,
    a: Seq<Vec<usize>>,
    b: Seq<Vec<usize>>,
)
    requires
        lists_agree(a, b),
        nodes_below(topo, a.len() as int),
    ensures
        compact_spec(rank, topo, sources, sinks, edges, a) == compact_spec(rank, topo, sources, sinks, edges, b),
{
    if rank.len() > 0 {
        lemma_compact_phase_agree(
            rank,
            topo,
            sources,
            sinks,
            edges,
            a,
            b,
            crate::simplex::compact_passes(rank.len() as int) as nat,
        );
    }
}

proof fn lemma_upper_scan_agree(
    top: int,
    n: int,
    topo: Seq<usize>,
    a: Seq<Vec<usize>>,
    b: Seq<Vec<usize>>,
    edges: Seq<DirectedEdge>,
    k: int,
)
    requires
        lists_agree(a, b),
        nodes_below(topo, a.len() as int),
        k <= topo.len(),
    ensures
        upper_scan(top, n, topo, a, edges, k) == upper_scan(top, n, topo, b, edges, k),
    decreases k,
{
    if k > 0 {
        lemma_upper_scan_agree(top, n, topo, a, b, edges, k - 1);
        let node = topo[topo.len() - k] as int;
        assert(topo[topo.len() - k] < a.len());
        assert(a[node]@ == b[node]@);
    }
}

proof fn lemma_band_center_agree(
    rank: Seq<i32>,
    lower: Seq<i32>,
    upper: Seq<i32>,
    edges: Seq<DirectedEdge>,
    ia: Seq<Vec<usize>>,
    ib: Seq<Vec<usize>>,
    oa: Seq<Vec<usize>>,
    ob: Seq<Vec<usize>>,
    k: int,
)
    requires
        lists_agree(ia, ib),
        lists_agree(oa, ob),
        ia.len() == oa.len(),
        k <= ia.len(),
    ensures
        band_center_upto(rank, lower, upper, edges, ia, oa, k) == band_center_upto(rank, lower, upper, edges, ib, ob, k),
    decreases k,
{
    if k > 0 {
        lemma_band_center_agree(rank, lower, upper, edges, ia, ib, oa, ob, k - 1);
        assert(ia[k - 1]@ == ib[k - 1]@);
        assert(oa[k - 1]@ == ob[k - 1]@);
    }
}

pub proof fn lemma_balance_agree(
    rank: Seq<i32>,
    topo: Seq<usize>,
    sources: Seq<usize>,
    ia: Seq<Vec<usize>>,
    ib: Seq<Vec<usize>>,
    oa: Seq<Vec<usize>>,
    ob: Seq<Vec<usize>>,
    edges: Seq<DirectedEdge>,
)
    requires
        lists_agree(ia, ib),
        lists_agree(oa, ob),
        ia.len() == oa.len(),
        rank.len() == ia.len(),
        nodes_below(topo, ia.len() as int),
    ensures
        balance_spec(rank, topo, sources, ia, oa, edges) == balance_spec(rank, topo, sources, ib, ob, edges),
{
    let n = rank.len() as int;
    if n > 0 {
        lemma_relaxed_agree(rank, topo, oa, ob, edges, topo.len() as int);
        let lower = relaxed_upto(rank, topo, oa, edges, topo.len() as int);
        lemma_upper_scan_agree(crate::ranking::max_of(lower), n, topo, oa, ob, edges, topo.len() as int);
        let scanned = upper_scan(crate::ranking::max_of(lower), n, topo, oa, edges, topo.len() as int);
        let upper = Seq::new(n as nat, |v: int| if scanned[v] < lower[v] { lower[v] } else { scanned[v] });
        lemma_band_center_agree(rank, lower, upper, edges, ia, ib, oa, ob, n);
        let centered = band_center_upto(rank, lower, upper, edges, ia, oa, n);
        let shifted = if sources.len() > 0 {
            Seq::new(n as nat, |v: int| (centered[v] - crate::simplex::sources_min(centered, sources)) as i32)
        } else {
            centered
        };
        lemma_settle_agree(shifted, topo, sources, oa, ob, edges);
    }
}

pub proof fn lemma_refine_within_agree(
    rank: Seq<i32>,
    topo: Seq<usize>,
    pinned: Seq<usize>,
    edges: Seq<DirectedEdge>,
    ia: Seq<Vec<usize>>,
    ib: Seq<Vec<usize>>,
    oa: Seq<Vec<usize>>,
    ob: Seq<Vec<usize>>,
)
    requires
        lists_agree(ia, ib),
        lists_agree(oa, ob),
        ia.len() == oa.len(),
        nodes_below(topo, ia.len() as int),
    ensures
        refine_stays_within(rank, topo, pinned, edges, ia, oa) == refine_stays_within(rank, topo, pinned, edges, ib, ob),
{
    let n = rank.len() as int;
    let passes = center_passes(n);
    let rounds = pivot_rounds(n);
    let b = 0x2000_0000int;
    if center_states_within(rank, topo, pinned, edges, ia, oa, passes, b) {
        assert forall|p: nat| p <= passes implies abs_within(
            #[trigger] center_phase(rank, topo, pinned, edges, ib, ob, p).0,
            b,
        ) by {
            lemma_center_phase_agree(rank, topo, pinned, edges, ia, ib, oa, ob, p);
            assert(abs_within(center_phase(rank, topo, pinned, edges, ia, oa, p).0, b));
        }
    }
    if center_states_within(rank, topo, pinned, edges, ib, ob, passes, b) {
        assert forall|p: nat| p <= passes implies abs_within(
            #[trigger] center_phase(rank, topo, pinned, edges, ia, oa, p).0,
            b,
        ) by {
            lemma_center_phase_agree(rank, topo, pinned, edges, ia, ib, oa, ob, p);
            assert(abs_within(center_phase(rank, topo, pinned, edges, ib, ob, p).0, b));
        }
    }
    lemma_center_phase_agree(rank, topo, pinned, edges, ia, ib, oa, ob, passes);
    let centered = center_phase(rank, topo, pinned, edges, ia, oa, passes).0;
    if pivot_states_within(centered, topo, pinned, edges, ia, oa, rounds, b) {
        assert forall|q: nat| q <= rounds implies abs_within(
            #[trigger] pivot_phase(centered, topo, pinned, edges, ib, ob, q).0,
            b,
        ) by {
            lemma_pivot_phase_agree(centered, topo, pinned, edges, ia, ib, oa, ob, q);
            assert(abs_within(pivot_phase(centered, topo, pinned, edges, ia, oa, q).0, b));
        }
    }
    if pivot_states_within(centered, topo, pinned, edges, ib, ob, rounds, b) {
        assert forall|q: nat| q <= rounds implies abs_within(
            #[trigger] pivot_phase(centered, topo, pinned, edges, ia, oa, q).0,
            b,
        ) by {
            lemma_pivot_phase_agree(centered, topo, pinned, edges, ia, ib, oa, ob, q);
            assert(abs_within(pivot_phase(centered, topo, pinned, edges, ib, ob, q).0, b));
        }
    }
}

pub proof fn lemma_compact_within_agree(
    rank: Seq<i32>,
    topo: Seq<usize>,
    sources: Seq<usize>,
    sinks: Seq<usize>,
    edges: Seq<DirectedEdge>,
    a: Seq<Vec<usize>>,
    b: Seq<Vec<usize>>,
)
    requires
        lists_agree(a, b),
        nodes_below(topo, a.len() as int),
    ensures
        compact_stays_within(rank, topo, sources, sinks, edges, a) == compact_stays_within(rank, topo, sources, sinks, edges, b),
{
    let total = crate::simplex::compact_passes(rank.len() as int);
    if compact_stays_within(rank, topo, sources, sinks, edges, a) && rank.len() > 0 {
        assert forall|p: nat| p <= total implies abs_within(
            #[trigger] compact_phase(rank, topo, sources, sinks, edges, b, p).0,
            0x2000_0000,
        ) by {
            lemma_compact_phase_agree(rank, topo, sources, sinks, edges, a, b, p);
            assert(abs_within(compact_phase(rank, topo, sources, sinks, edges, a, p).0, 0x2000_0000));
        }
    }
    if compact_stays_within(rank, topo, sources, sinks, edges, b) && rank.len() > 0 {
        assert forall|p: nat| p <= total implies abs_within(
            #[trigger] compact_phase(rank, topo, sources, sinks, edges, a, p).0,
            0x2000_0000,
        ) by {
            lemma_compact_phase_agree(rank, topo, sources, sinks, edges, a, b, p);
            assert(abs_within(compact_phase(rank, topo, sources, sinks, edges, b, p).0, 0x2000_0000));
        }
    }
}

} // verus!
