//! Cycle breaking: a depth-first search that reverses every edge pointing
//! back to a node still on the search stack, so that the non-flat edges form
//! a directed acyclic graph.
use vstd::prelude::*;

use crate::edges::{DirectedEdge, TempEdgeKind};

verus! {

/// `g` numbers the nodes decreasingly along `edges`, and every node on the
/// stack has a larger number than `node`.
pub open spec fn descends_from_stack(edges: Seq<DirectedEdge>, onstack: Seq<bool>, g: Seq<int>, node: int) -> bool {
    &&& g.len() == onstack.len()
    &&& ordered_by(edges, onstack.len() as int, g)
    &&& forall|w: int| 0 <= w < onstack.len() && #[trigger] onstack[w] ==> g[w] > g[node]
}

/// `e` with its endpoints swapped, marked as reversed.
pub open spec fn reversed_edge(e: DirectedEdge) -> DirectedEdge {
    DirectedEdge { tail: e.head, head: e.tail, temp_kind: TempEdgeKind::Reversed, ..e }
}

/// Every non-flat edge leaving a node below `n` enters another node below `n`.
pub open spec fn edges_well_formed(edges: Seq<DirectedEdge>, n: int) -> bool {
    forall|j: int|
        0 <= j < edges.len() && !(#[trigger] edges[j]).flat && edges[j].tail < n ==> edges[j].head
            < n && edges[j].head != edges[j].tail
}

/// The search is done with `v`: it was entered and has left the stack.
pub open spec fn finished(mark: Seq<bool>, onstack: Seq<bool>, v: int) -> bool {
    mark[v] && !onstack[v]
}

/// `f` strictly decreases along every non-flat edge that leaves a node
/// below `n`.
pub open spec fn ordered_by(edges: Seq<DirectedEdge>, n: int, f: Seq<int>) -> bool {
    forall|j: int|
        0 <= j < edges.len() && !(#[trigger] edges[j]).flat && edges[j].tail < n ==> edges[j].head
            < n && f[edges[j].head as int] < f[edges[j].tail as int]
}

/// The non-flat edges among the nodes below `n` contain no directed cycle:
/// some numbering of the nodes decreases along each of them.
pub open spec fn acyclic_below(edges: Seq<DirectedEdge>, n: int) -> bool {
    exists|f: Seq<int>| f.len() == n && ordered_by(edges, n, f)
}

/// The state of a search between steps, with `f` numbering the finished
/// nodes by finishing time (all below `t`).
pub open spec fn dfs_invariant(
    edges: Seq<DirectedEdge>,
    mark: Seq<bool>,
    onstack: Seq<bool>,
    f: Seq<int>,
    t: int,
) -> bool {
    &&& onstack.len() == mark.len()
    &&& f.len() == mark.len()
    &&& edges_well_formed(edges, mark.len() as int)
    &&& forall|v: int| 0 <= v < mark.len() && #[trigger] onstack[v] ==> mark[v]
    &&& forall|v: int| 0 <= v < mark.len() && finished(mark, onstack, v) ==> #[trigger] f[v] < t
    &&& forall|j: int|
        0 <= j < edges.len() && !(#[trigger] edges[j]).flat && edges[j].tail < mark.len()
            && finished(mark, onstack, edges[j].tail as int) ==> finished(
            mark,
            onstack,
            edges[j].head as int,
        ) && f[edges[j].head as int] < f[edges[j].tail as int]
}

/// A search state from which the search can go on: the finished nodes can
/// be numbered so that every edge out of them goes to a finished node with a
/// smaller number.
pub open spec fn dfs_ready(edges: Seq<DirectedEdge>, mark: Seq<bool>, onstack: Seq<bool>) -> bool {
    exists|f: Seq<int>, t: int| dfs_invariant(edges, mark, onstack, f, t)
}

/// Each edge of `after` is the edge of `before`, or its reversal; an edge is
/// reversed only if it is non-flat, its tail was not yet marked in
/// `mark_before`, and both its endpoints are marked in `mark_after`.
pub open spec fn reversals_from(
    before: Seq<DirectedEdge>,
    after: Seq<DirectedEdge>,
    mark_before: Seq<bool>,
    mark_after: Seq<bool>,
) -> bool {
    &&& after.len() == before.len()
    &&& forall|j: int|
        0 <= j < before.len() ==> #[trigger] after[j] == before[j] || (!before[j].flat
            && before[j].tail < mark_before.len() && before[j].head < mark_before.len()
            && !mark_before[before[j].tail as int] && mark_after[before[j].tail as int]
            && mark_after[before[j].head as int] && after[j] == reversed_edge(before[j]))
}

/// Every node marked in `a` is marked in `b`.
pub open spec fn marks_grow(a: Seq<bool>, b: Seq<bool>) -> bool {
    &&& b.len() == a.len()
    &&& forall|v: int| 0 <= v < a.len() && #[trigger] a[v] ==> b[v]
}

/// How many nodes are not marked yet.
pub open spec fn unmarked_count(mark: Seq<bool>) -> nat
    decreases mark.len(),
{
    if mark.len() == 0 {
        0
    } else {
        unmarked_count(mark.drop_last()) + if mark.last() {
            0nat
        } else {
            1nat
        }
    }
}

proof fn lemma_unmarked_count(a: Seq<bool>, b: Seq<bool>, w: int)
    requires
        marks_grow(a, b),
        0 <= w < a.len(),
        !a[w],
        b[w],
    ensures
        unmarked_count(b) < unmarked_count(a),
    decreases a.len(),
{
    assert(marks_grow(a.drop_last(), b.drop_last()));
    if w == a.len() - 1 {
        lemma_unmarked_count_le(a.drop_last(), b.drop_last());
    } else {
        lemma_unmarked_count(a.drop_last(), b.drop_last(), w);
    }
}

proof fn lemma_unmarked_count_le(a: Seq<bool>, b: Seq<bool>)
    requires
        marks_grow(a, b),
    ensures
        unmarked_count(b) <= unmarked_count(a),
    decreases a.len(),
{
    if a.len() > 0 {
        assert(marks_grow(a.drop_last(), b.drop_last()));
        lemma_unmarked_count_le(a.drop_last(), b.drop_last());
    }
}

/// Two stages of reversals compose: an edge reversed in the first stage has
/// both endpoints marked, so the second stage leaves it alone.
proof fn lemma_reversals_compose(
    e0: Seq<DirectedEdge>,
    e1: Seq<DirectedEdge>,
    e2: Seq<DirectedEdge>,
    m0: Seq<bool>,
    m1: Seq<bool>,
    m2: Seq<bool>,
)
    requires
        reversals_from(e0, e1, m0, m1),
        reversals_from(e1, e2, m1, m2),
        marks_grow(m0, m1),
        marks_grow(m1, m2),
        edges_well_formed(e0, m0.len() as int),
    ensures
        reversals_from(e0, e2, m0, m2),
        (e2 != e0) == (e1 != e0 || e2 != e1),
{
    assert forall|j: int| 0 <= j < e0.len() implies #[trigger] e2[j] == e0[j] || (!e0[j].flat
        && e0[j].tail < m0.len() && e0[j].head < m0.len() && !m0[e0[j].tail as int]
        && m2[e0[j].tail as int] && m2[e0[j].head as int] && e2[j] == reversed_edge(e0[j])) by {
        if e1[j] != e0[j] {
            assert(e1[j] == reversed_edge(e0[j]));
            assert(m1[e0[j].head as int]);
        }
    }
    if e1 != e0 {
        let j = choose|j: int| 0 <= j < e0.len() && e1[j] != e0[j];
        if e1.len() != e0.len() {
        } else {
            if !(0 <= j < e0.len() && e1[j] != e0[j]) {
                assert(e1 =~= e0);
            }
            assert(m1[e0[j].head as int]);
            assert(e2[j] == e1[j]);
            assert(e2[j] != e0[j]);
        }
    }
    if e2 != e1 && e1 == e0 {
        assert(e2 != e0);
    }
    if e2 != e0 && e1 == e0 {
        assert(e2 != e1);
    }
}

/// The reversal of an edge that is not a self-loop differs from it.
proof fn lemma_reversal_differs(e: DirectedEdge)
    requires
        e.tail != e.head,
    ensures
        reversed_edge(e) != e,
{
    assert(reversed_edge(e).tail != e.tail);
}

/// The edges, marks and stack after the search visits `node` (with room for
/// `fuel` nested visits): `node` is marked and put on the stack, the edges
/// from index 0 on are scanned as `dfs_scan` says, and `node` leaves the
/// stack.
pub open spec fn dfs_visit(
    fuel: nat,
    node: int,
    len: int,
    st: (Seq<DirectedEdge>, Seq<bool>, Seq<bool>),
) -> (Seq<DirectedEdge>, Seq<bool>, Seq<bool>)
    decreases fuel, 1int, 0int,
{
    if fuel == 0 {
        st
    } else {
        let st1 = (st.0, st.1.update(node, true), st.2.update(node, true));
        let st2 = dfs_scan(fuel, node, 0, len, st1);
        (st2.0, st2.1, st2.2.update(node, false))
    }
}

/// The scan of the edges from index `idx` on while `node` is visited: a
/// non-flat edge leaving `node` whose head is on the stack is reversed; one
/// whose head is not marked yet leads to a visit of its head; every other
/// edge is passed over.
pub open spec fn dfs_scan(
    fuel: nat,
    node: int,
    idx: int,
    len: int,
    st: (Seq<DirectedEdge>, Seq<bool>, Seq<bool>),
) -> (Seq<DirectedEdge>, Seq<bool>, Seq<bool>)
    decreases fuel, 0int, len - idx,
{
    if idx < 0 || idx >= len || fuel == 0 {
        st
    } else {
        let e = st.0[idx];
        if e.flat || e.tail != node {
            dfs_scan(fuel, node, idx + 1, len, st)
        } else if st.2[e.head as int] {
            dfs_scan(fuel, node, idx + 1, len, (st.0.update(idx, reversed_edge(e)), st.1, st.2))
        } else if !st.1[e.head as int] {
            dfs_scan(fuel, node, idx + 1, len, dfs_visit((fuel - 1) as nat, e.head as int, len, st))
        } else {
            dfs_scan(fuel, node, idx + 1, len, st)
        }
    }
}

/// The state after searches from the nodes `start..n` in turn, each from a
/// node not marked yet.
pub open spec fn dfs_from(
    start: int,
    n: int,
    len: int,
    st: (Seq<DirectedEdge>, Seq<bool>, Seq<bool>),
) -> (Seq<DirectedEdge>, Seq<bool>, Seq<bool>)
    decreases n - start,
{
    if start >= n || start < 0 {
        st
    } else {
        let st1 = if st.1[start] {
            st
        } else {
            dfs_visit(n as nat, start, len, st)
        };
        dfs_from(start + 1, n, len, st1)
    }
}

/// `e` is `e0` pointing the other way: its ends swapped, marked as
/// reversed, and every other field (index, lengths, weight, label, original
/// ends, flatness, cluster crossings) as in `e0`.
pub open spec fn turned_around(e0: DirectedEdge, e: DirectedEdge) -> bool {
    &&& e.tail == e0.head
    &&& e.head == e0.tail
    &&& e.temp_kind == TempEdgeKind::Reversed
    &&& same_but_direction(e0, e)
}

/// `e` and `e0` agree in every field but their ends and kind.
pub open spec fn same_but_direction(e0: DirectedEdge, e: DirectedEdge) -> bool {
    &&& e.index == e0.index
    &&& e.min_len == e0.min_len
    &&& e.base_min_len == e0.base_min_len
    &&& e.weight == e0.weight
    &&& e.label == e0.label
    &&& e.original_tail == e0.original_tail
    &&& e.original_head == e0.original_head
    &&& e.flat == e0.flat
    &&& e.cluster_crossings == e0.cluster_crossings
}

/// `e` is `e0`, or `e0` with its two ends in either order, marked as
/// reversed, every other field unchanged.
pub open spec fn same_up_to_direction(e0: DirectedEdge, e: DirectedEdge) -> bool {
    e == e0 || (same_but_direction(e0, e) && e.temp_kind == TempEdgeKind::Reversed && ((e.tail == e0.tail && e.head
        == e0.head) || (e.tail == e0.head && e.head == e0.tail)))
}

/// Edge by edge, `after` is `before` up to direction.
pub open spec fn kept_up_to_direction(before: Seq<DirectedEdge>, after: Seq<DirectedEdge>) -> bool {
    &&& after.len() == before.len()
    &&& forall|j: int| 0 <= j < before.len() ==> same_up_to_direction(before[j], #[trigger] after[j])
}

proof fn lemma_visit_keeps(
    fuel: nat,
    node: int,
    len: int,
    st: (Seq<DirectedEdge>, Seq<bool>, Seq<bool>),
    e0: Seq<DirectedEdge>,
)
    requires
        kept_up_to_direction(e0, st.0),
        len == e0.len(),
    ensures
        kept_up_to_direction(e0, dfs_visit(fuel, node, len, st).0),
    decreases fuel, 1int, 0int,
{
    if fuel > 0 {
        let st1 = (st.0, st.1.update(node, true), st.2.update(node, true));
        lemma_scan_keeps(fuel, node, 0, len, st1, e0);
    }
}

proof fn lemma_scan_keeps(
    fuel: nat,
    node: int,
    idx: int,
    len: int,
    st: (Seq<DirectedEdge>, Seq<bool>, Seq<bool>),
    e0: Seq<DirectedEdge>,
)
    requires
        kept_up_to_direction(e0, st.0),
        len == e0.len(),
    ensures
        kept_up_to_direction(e0, dfs_scan(fuel, node, idx, len, st).0),
    decreases fuel, 0int, len - idx,
{
    if !(idx < 0 || idx >= len || fuel == 0) {
        let e = st.0[idx];
        if e.flat || e.tail != node {
            lemma_scan_keeps(fuel, node, idx + 1, len, st, e0);
        } else if st.2[e.head as int] {
            let nst = (st.0.update(idx, reversed_edge(e)), st.1, st.2);
            assert forall|j: int| 0 <= j < e0.len() implies same_up_to_direction(e0[j], #[trigger] nst.0[j]) by {
                if j == idx {
                    assert(same_up_to_direction(e0[j], st.0[j]));
                }
            }
            lemma_scan_keeps(fuel, node, idx + 1, len, nst, e0);
        } else if !st.1[e.head as int] {
            lemma_visit_keeps((fuel - 1) as nat, e.head as int, len, st, e0);
            lemma_scan_keeps(fuel, node, idx + 1, len, dfs_visit((fuel - 1) as nat, e.head as int, len, st), e0);
        } else {
            lemma_scan_keeps(fuel, node, idx + 1, len, st, e0);
        }
    }
}

proof fn lemma_from_keeps(start: int, n: int, len: int, st: (Seq<DirectedEdge>, Seq<bool>, Seq<bool>), e0: Seq<DirectedEdge>)
    requires
        kept_up_to_direction(e0, st.0),
        len == e0.len(),
    ensures
        kept_up_to_direction(e0, dfs_from(start, n, len, st).0),
    decreases n - start,
{
    if !(start >= n || start < 0) {
        let st1 = if st.1[start] {
            st
        } else {
            dfs_visit(n as nat, start, len, st)
        };
        if !st.1[start] {
            lemma_visit_keeps(n as nat, start, len, st, e0);
        }
        lemma_from_keeps(start + 1, n, len, st1, e0);
    }
}

/// Law: cycle breaking changes nothing of an edge but its direction. Each
/// edge it leaves is the edge it was given, or that edge with its two ends
/// (possibly swapped) marked as reversed; index, lengths, weight, label,
/// original ends, flatness and cluster crossings never change, and no edge
/// is added or dropped.
pub proof fn law_cycle_breaking_keeps_edges(n: int, edges: Seq<DirectedEdge>)
    ensures
        kept_up_to_direction(edges, break_cycles_spec(n, edges)),
{
    if !(n <= 1 || edges.len() == 0) {
        lemma_from_keeps(
            0,
            n,
            edges.len() as int,
            (edges, Seq::new(n as nat, |v: int| false), Seq::new(n as nat, |v: int| false)),
            edges,
        );
    }
}

/// The edges `break_cycles_acyclic` leaves: unchanged with at most one node
/// or no edge; otherwise after searches from every node in index order.
pub open spec fn break_cycles_spec(n: int, edges: Seq<DirectedEdge>) -> Seq<DirectedEdge> {
    if n <= 1 || edges.len() == 0 {
        edges
    } else {
        dfs_from(0, n, edges.len() as int, (edges, Seq::new(n as nat, |v: int| false), Seq::new(n as nat, |v: int| false))).0
    }
}

proof fn lemma_unmarked_count_bounds(mark: Seq<bool>, v: int)
    requires
        0 <= v < mark.len(),
        !mark[v],
    ensures
        1 <= unmarked_count(mark) <= mark.len(),
    decreases mark.len(),
{
    if v < mark.len() - 1 {
        lemma_unmarked_count_bounds(mark.drop_last(), v);
    } else {
        lemma_unmarked_count_at_most(mark.drop_last());
    }
}

proof fn lemma_unmarked_count_at_most(mark: Seq<bool>)
    ensures
        unmarked_count(mark) <= mark.len(),
    decreases mark.len(),
{
    if mark.len() > 0 {
        lemma_unmarked_count_at_most(mark.drop_last());
    }
}

/// A copy of `e` with its endpoints swapped, marked as reversed.
fn reverse_edge(e: &DirectedEdge) -> (r: DirectedEdge)
    ensures
        r == reversed_edge(*e),
{
    let label = match &e.label {
        Some(s) => Some(s.clone()),
        None => None,
    };
    DirectedEdge {
        index: e.index,
        tail: e.head,
        head: e.tail,
        min_len: e.min_len,
        base_min_len: e.base_min_len,
        weight: e.weight,
        label,
        original_tail: e.original_tail,
        original_head: e.original_head,
        flat: e.flat,
        cluster_crossings: e.cluster_crossings,
        temp_kind: TempEdgeKind::Reversed,
    }
}

/// Depth-first visit of `node`: reverses the edges out of the nodes it
/// reaches that point back to a node on the stack. `f0` and `t0` number the
/// nodes finished before; the result numbers those finished after.
fn visit(
    node: usize,
    edges: &mut [DirectedEdge],
    mark: &mut [bool],
    onstack: &mut [bool],
    changed: &mut bool,
    Ghost(f0): Ghost<Seq<int>>,
    Ghost(t0): Ghost<int>,
    Ghost(g): Ghost<Seq<int>>,
    Ghost(ready): Ghost<bool>,
) -> (res: Ghost<(Seq<int>, int)>)
    requires
        node < old(mark)@.len(),
        old(onstack)@.len() == old(mark)@.len(),
        edges_well_formed(old(edges)@, old(mark)@.len() as int),
        ready ==> dfs_invariant(old(edges)@, old(mark)@, old(onstack)@, f0, t0),
        forall|v: int| 0 <= v < old(mark)@.len() && #[trigger] old(onstack)@[v] ==> old(mark)@[v],
        !old(mark)@[node as int],
    ensures
        ready ==> dfs_invariant(final(edges)@, final(mark)@, final(onstack)@, res@.0, res@.1),
        edges_well_formed(final(edges)@, old(mark)@.len() as int),
        final(onstack)@ == old(onstack)@,
        marks_grow(old(mark)@, final(mark)@),
        final(mark)@[node as int],
        reversals_from(old(edges)@, final(edges)@, old(mark)@, final(mark)@),
        *final(changed) == (*old(changed) || final(edges)@ != old(edges)@),
        descends_from_stack(old(edges)@, old(onstack)@, g, node as int) ==> final(edges)@ == old(edges)@,
        forall|fuel: nat|
            fuel >= unmarked_count(old(mark)@) ==> (final(edges)@, final(mark)@, final(onstack)@) == #[trigger] dfs_visit(
                fuel,
                node as int,
                old(edges)@.len() as int,
                (old(edges)@, old(mark)@, old(onstack)@),
            ),
    decreases unmarked_count(old(mark)@),
{
    let ghost e_in = edges@;
    let ghost m_in = mark@;
    let ghost s_in = onstack@;
    let ghost n = mark@.len() as int;
    let ghost c_in = *changed;
    mark[node] = true;
    onstack[node] = true;
    let ghost st1 = (edges@, mark@, onstack@);
    let ghost u0 = unmarked_count(m_in);
    let ghost len = e_in.len() as int;
    proof {
        lemma_unmarked_count_bounds(m_in, node as int);
        assert(st1 == (e_in, m_in.update(node as int, true), s_in.update(node as int, true)));
    }
    let ghost mut f = f0;
    let ghost mut t = t0;
    proof {
        assert(marks_grow(m_in, mark@));
        assert(reversals_from(e_in, edges@, m_in, mark@));
        if ready {
            assert(dfs_invariant(edges@, mark@, onstack@, f, t));
        }
    }
    let mut edge_idx: usize = 0;
    while edge_idx < edges.len()
        invariant
            n == mark@.len(),
            node < n,
            ready ==> dfs_invariant(edges@, mark@, onstack@, f, t),
            edges_well_formed(edges@, n),
            onstack@.len() == n,
            forall|v: int| 0 <= v < n && #[trigger] onstack@[v] ==> mark@[v],
            forall|v: int| 0 <= v < n && #[trigger] s_in[v] ==> m_in[v],
            onstack@ == s_in.update(node as int, true),
            !m_in[node as int],
            m_in == old(mark)@,
            s_in.len() == n,
            !s_in[node as int],
            mark@[node as int],
            marks_grow(m_in, mark@),
            edges_well_formed(e_in, n),
            reversals_from(e_in, edges@, m_in, mark@),
            forall|j: int|
                0 <= j < e_in.len() && #[trigger] edges@[j] != e_in[j] ==> e_in[j].tail == node
                    || finished(mark@, onstack@, e_in[j].tail as int),
            forall|j: int|
                0 <= j < edge_idx && !(#[trigger] edges@[j]).flat && edges@[j].tail == node
                    ==> finished(mark@, onstack@, edges@[j].head as int),
            *changed == (c_in || edges@ != e_in),
            descends_from_stack(e_in, s_in, g, node as int) ==> edges@ == e_in,
            u0 == unmarked_count(m_in),
            u0 >= 1,
            len == e_in.len(),
            edges@.len() == len,
            st1 == (e_in, m_in.update(node as int, true), s_in.update(node as int, true)),
            forall|fuel: nat|
                fuel >= u0 ==> #[trigger] dfs_scan(fuel, node as int, 0, len, st1) == dfs_scan(
                    fuel,
                    node as int,
                    edge_idx as int,
                    len,
                    (edges@, mark@, onstack@),
                ),
        decreases edges.len() - edge_idx,
    {
        let ghost cur = (edges@, mark@, onstack@);
        let ghost i0 = edge_idx as int;
        if edges[edge_idx].flat || edges[edge_idx].tail != node {
            proof {
                assert forall|fuel: nat| fuel >= u0 implies #[trigger] dfs_scan(fuel, node as int, 0, len, st1)
                    == dfs_scan(fuel, node as int, i0 + 1, len, (edges@, mark@, onstack@)) by {
                    assert(dfs_scan(fuel, node as int, i0, len, cur) == dfs_scan(fuel, node as int, i0 + 1, len, cur));
                }
            }
            edge_idx += 1;
        } else {
            let head = edges[edge_idx].head;
            if onstack[head] {
                proof {
                    let j = edge_idx as int;
                    if edges@[j] != e_in[j] {
                        assert(edges@[j] == reversed_edge(e_in[j]));
                    }
                    assert(edges@[j] == e_in[j]);
                    lemma_reversal_differs(e_in[j]);
                    if descends_from_stack(e_in, s_in, g, node as int) {
                        assert(s_in[head as int]);
                        assert(!e_in[j].flat && e_in[j].tail < n);
                        assert(false);
                    }
                }
                let r = reverse_edge(&edges[edge_idx]);
                let ghost before = edges@;
                edges[edge_idx] = r;
                *changed = true;
                proof {
                    let j = edge_idx as int;
                    assert(edges@[j] != e_in[j]);
                    assert forall|i: int| 0 <= i < e_in.len() implies #[trigger] edges@[i] == e_in[i] || (
                        !e_in[i].flat && e_in[i].tail < m_in.len() && e_in[i].head < m_in.len()
                            && !m_in[e_in[i].tail as int] && mark@[e_in[i].tail as int]
                            && mark@[e_in[i].head as int] && edges@[i] == reversed_edge(e_in[i])) by {
                        if i != j {
                            assert(edges@[i] == before[i]);
                        }
                    }
                    assert(reversals_from(e_in, edges@, m_in, mark@));
                    assert(edges_well_formed(edges@, n)) by {
                        assert forall|i: int|
                            0 <= i < edges@.len() && !(#[trigger] edges@[i]).flat && edges@[i].tail < n
                                implies edges@[i].head < n && edges@[i].head != edges@[i].tail by {
                            if i != j {
                                assert(edges@[i] == before[i]);
                            }
                        }
                    }
                    if ready {
                        assert forall|i: int|
                            0 <= i < edges@.len() && !(#[trigger] edges@[i]).flat && edges@[i].tail < mark@.len()
                                && finished(mark@, onstack@, edges@[i].tail as int) implies finished(
                                mark@,
                                onstack@,
                                edges@[i].head as int,
                            ) && f[edges@[i].head as int] < f[edges@[i].tail as int] by {
                            assert(i != j);
                            assert(edges@[i] == before[i]);
                        }
                        assert(dfs_invariant(edges@, mark@, onstack@, f, t));
                    }
                    assert(edges@ != e_in);
                    assert(edges@ == cur.0.update(i0, reversed_edge(cur.0[i0])));
                    assert forall|fuel: nat| fuel >= u0 implies #[trigger] dfs_scan(fuel, node as int, 0, len, st1)
                        == dfs_scan(fuel, node as int, i0 + 1, len, (edges@, mark@, onstack@)) by {
                        assert(dfs_scan(fuel, node as int, i0, len, cur) == dfs_scan(
                            fuel,
                            node as int,
                            i0 + 1,
                            len,
                            (cur.0.update(i0, reversed_edge(cur.0[i0])), cur.1, cur.2),
                        ));
                    }
                }
                edge_idx += 1;
            } else {
                if !mark[head] {
                    let ghost e_b = edges@;
                    let ghost m_b = mark@;
                    proof {
                        lemma_unmarked_count(m_in, m_b, node as int);
                    }
                    proof {
                        if descends_from_stack(e_in, s_in, g, node as int) {
                            let j = edge_idx as int;
                            assert(!e_in[j].flat && e_in[j].tail < n);
                            assert(g[head as int] < g[node as int]);
                            assert(descends_from_stack(e_b, onstack@, g, head as int));
                        }
                    }
                    let Ghost(ft) = visit(head, edges, mark, onstack, changed, Ghost(f), Ghost(t), Ghost(g), Ghost(ready));
                    proof {
                        f = ft.0;
                        t = ft.1;
                        lemma_reversals_compose(e_in, e_b, edges@, m_in, m_b, mark@);
                        assert(marks_grow(m_in, mark@));
                        let j = edge_idx as int;
                        assert(edges@[j] == e_b[j]);
                        assert forall|i: int|
                            0 <= i < e_in.len() && #[trigger] edges@[i] != e_in[i] implies e_in[i].tail == node
                                || finished(mark@, onstack@, e_in[i].tail as int) by {
                            if e_b[i] != e_in[i] {
                                assert(edges@[i] == e_b[i]);
                            } else {
                                assert(!m_b[e_in[i].tail as int]);
                            }
                        }
                        assert forall|i: int|
                            0 <= i < edge_idx + 1 && !(#[trigger] edges@[i]).flat && edges@[i].tail == node
                                implies finished(mark@, onstack@, edges@[i].head as int) by {
                            if i < edge_idx && edges@[i] != e_b[i] {
                                assert(edges@[i] == reversed_edge(e_b[i]));
                                assert(!m_b[e_b[i].tail as int]);
                            }
                        }
                        assert forall|fuel: nat| fuel >= u0 implies #[trigger] dfs_scan(fuel, node as int, 0, len, st1)
                            == dfs_scan(fuel, node as int, i0 + 1, len, (edges@, mark@, onstack@)) by {
                            assert(fuel - 1 >= unmarked_count(m_b));
                            assert((edges@, mark@, onstack@) == dfs_visit(
                                (fuel - 1) as nat,
                                head as int,
                                len,
                                (e_b, m_b, cur.2),
                            ));
                            assert(dfs_scan(fuel, node as int, i0, len, cur) == dfs_scan(
                                fuel,
                                node as int,
                                i0 + 1,
                                len,
                                dfs_visit((fuel - 1) as nat, head as int, len, cur),
                            ));
                        }
                    }
                } else {
                    proof {
                        assert forall|fuel: nat| fuel >= u0 implies #[trigger] dfs_scan(fuel, node as int, 0, len, st1)
                            == dfs_scan(fuel, node as int, i0 + 1, len, (edges@, mark@, onstack@)) by {
                            assert(dfs_scan(fuel, node as int, i0, len, cur) == dfs_scan(fuel, node as int, i0 + 1, len, cur));
                        }
                    }
                }
                edge_idx += 1;
            }
        }
    }
    let ghost st2 = (edges@, mark@, onstack@);
    onstack[node] = false;
    proof {
        assert forall|fuel: nat| fuel >= u0 implies (edges@, mark@, onstack@) == #[trigger] dfs_visit(
            fuel,
            node as int,
            len,
            (e_in, m_in, s_in),
        ) by {
            assert(dfs_scan(fuel, node as int, 0, len, st1) == dfs_scan(fuel, node as int, edge_idx as int, len, st2));
            assert(dfs_scan(fuel, node as int, edge_idx as int, len, st2) == st2);
            assert(onstack@ == st2.2.update(node as int, false));
        }
        assert(onstack@ =~= s_in);
        let f1 = f.update(node as int, t);
        if ready {
            assert forall|i: int|
                0 <= i < edges@.len() && !(#[trigger] edges@[i]).flat && edges@[i].tail < mark@.len()
                    && finished(mark@, onstack@, edges@[i].tail as int) implies finished(
                    mark@,
                    onstack@,
                    edges@[i].head as int,
                ) && f1[edges@[i].head as int] < f1[edges@[i].tail as int] by {
                if edges@[i].tail != node {
                    assert(finished(mark@, s_in.update(node as int, true), edges@[i].tail as int));
                }
            }
            assert(dfs_invariant(edges@, mark@, onstack@, f1, t + 1));
        }
        f = f1;
        t = t + 1;
    }
    Ghost((f, t))
}

/// Visits `node` depth-first unless it is already marked, reversing each
/// non-flat edge that leaves a node reached here and points back to a node
/// on the stack. Sets `changed` when some edge was reversed.
pub fn dfs_break_cycles(
    node: usize,
    edges: &mut [DirectedEdge],
    mark: &mut [bool],
    onstack: &mut [bool],
    changed: &mut bool,
)
    requires
        node < old(mark)@.len(),
        old(onstack)@.len() == old(mark)@.len(),
        edges_well_formed(old(edges)@, old(mark)@.len() as int),
        forall|v: int| 0 <= v < old(mark)@.len() && #[trigger] old(onstack)@[v] ==> old(mark)@[v],
    ensures
        dfs_ready(old(edges)@, old(mark)@, old(onstack)@) ==> dfs_ready(final(edges)@, final(mark)@, final(onstack)@),
        edges_well_formed(final(edges)@, old(mark)@.len() as int),
        final(onstack)@ == old(onstack)@,
        marks_grow(old(mark)@, final(mark)@),
        final(mark)@[node as int],
        reversals_from(old(edges)@, final(edges)@, old(mark)@, final(mark)@),
        old(mark)@[node as int] ==> final(edges)@ == old(edges)@ && final(mark)@ == old(mark)@,
        *final(changed) == (*old(changed) || final(edges)@ != old(edges)@),
        acyclic_below(old(edges)@, old(mark)@.len() as int) && (forall|w: int|
            0 <= w < old(onstack)@.len() ==> !old(onstack)@[w]) ==> final(edges)@ == old(edges)@,
        !old(mark)@[node as int] ==> (final(edges)@, final(mark)@, final(onstack)@) == dfs_visit(
            old(mark)@.len() as nat,
            node as int,
            old(edges)@.len() as int,
            (old(edges)@, old(mark)@, old(onstack)@),
        ),
{
    if mark[node] {
        proof {
            assert(reversals_from(edges@, edges@, mark@, mark@));
        }
        return;
    }
    let ghost ready = dfs_ready(edges@, mark@, onstack@);
    let ghost (f, t) = choose|f: Seq<int>, t: int| dfs_invariant(edges@, mark@, onstack@, f, t);
    let ghost n = mark@.len() as int;
    let ghost g = if acyclic_below(edges@, n) {
        choose|g: Seq<int>| g.len() == n && ordered_by(edges@, n, g)
    } else {
        Seq::empty()
    };
    let ghost before = (edges@, mark@, onstack@);
    proof {
        lemma_unmarked_count_at_most(mark@);
    }
    let Ghost(ft) = visit(node, edges, mark, onstack, changed, Ghost(f), Ghost(t), Ghost(g), Ghost(ready));
    proof {
        assert((edges@, mark@, onstack@) == dfs_visit(n as nat, node as int, before.0.len() as int, before));
        if ready {
            assert(dfs_invariant(edges@, mark@, onstack@, ft.0, ft.1));
        }
    }
}

/// Makes the non-flat edges among the first `node_count` nodes acyclic by
/// a depth-first search from every node in turn, reversing the edges that
/// point back to a node on the search stack. Graphs with at most one node
/// are left alone.
pub fn break_cycles_acyclic(node_count: usize, edges: &mut [DirectedEdge])
    requires
        node_count > 1 ==> edges_well_formed(old(edges)@, node_count as int),
    ensures
        final(edges)@ == break_cycles_spec(node_count as int, old(edges)@),
        final(edges)@.len() == old(edges)@.len(),
        node_count <= 1 ==> final(edges)@ == old(edges)@,
        forall|j: int|
            0 <= j < old(edges)@.len() ==> #[trigger] final(edges)@[j] == old(edges)@[j] || (
            !old(edges)@[j].flat && old(edges)@[j].tail < node_count && final(edges)@[j]
                == reversed_edge(old(edges)@[j])),
        forall|j: int|
            0 <= j < old(edges)@.len() ==> #[trigger] final(edges)@[j] == old(edges)@[j] || turned_around(
                old(edges)@[j],
                final(edges)@[j],
            ),
        node_count > 1 ==> acyclic_below(final(edges)@, node_count as int),
        acyclic_below(old(edges)@, node_count as int) ==> final(edges)@ == old(edges)@,
{
    if node_count <= 1 || edges.len() == 0 {
        proof {
            if node_count > 1 {
                let f = Seq::new(node_count as nat, |i: int| 0int);
                assert(f.len() == node_count);
                assert(ordered_by(edges@, node_count as int, f));
                assert(acyclic_below(edges@, node_count as int));
            }
        }
        return;
    }
    let mut mark: Vec<bool> = Vec::new();
    let mut onstack: Vec<bool> = Vec::new();
    let mut i: usize = 0;
    while i < node_count
        invariant
            i <= node_count,
            mark@.len() == i,
            onstack@.len() == i,
            forall|v: int| 0 <= v < i ==> !mark@[v] && !onstack@[v],
        decreases node_count - i,
    {
        mark.push(false);
        onstack.push(false);
        i += 1;
    }
    let mut changed = false;
    let ghost e0 = edges@;
    let ghost m0 = mark@;
    let ghost n = node_count as int;
    let ghost len = e0.len() as int;
    let ghost init = (e0, m0, onstack@);
    proof {
        assert(m0 =~= Seq::new(node_count as nat, |v: int| false));
        assert(onstack@ =~= Seq::new(node_count as nat, |v: int| false));
        let f = Seq::new(node_count as nat, |i: int| 0int);
        assert(dfs_invariant(edges@, mark@, onstack@, f, 0));
        assert(reversals_from(e0, edges@, m0, mark@));
        assert(marks_grow(m0, mark@));
    }
    let mut start: usize = 0;
    while start < node_count
        invariant
            start <= node_count,
            mark@.len() == node_count,
            onstack@.len() == node_count,
            m0.len() == node_count,
            forall|v: int| 0 <= v < node_count ==> !m0[v],
            forall|v: int| 0 <= v < node_count ==> !onstack@[v],
            forall|v: int| 0 <= v < start ==> mark@[v],
            marks_grow(m0, mark@),
            edges_well_formed(e0, node_count as int),
            edges_well_formed(edges@, node_count as int),
            dfs_ready(edges@, mark@, onstack@),
            reversals_from(e0, edges@, m0, mark@),
            acyclic_below(e0, node_count as int) ==> edges@ == e0,
            n == node_count,
            len == e0.len(),
            edges@.len() == len,
            dfs_from(start as int, n, len, (edges@, mark@, onstack@)) == dfs_from(0, n, len, init),
        decreases node_count - start,
    {
        let ghost cur = (edges@, mark@, onstack@);
        if !mark[start] {
            let ghost e_b = edges@;
            let ghost m_b = mark@;
            dfs_break_cycles(start, edges, mark.as_mut_slice(), onstack.as_mut_slice(), &mut changed);
            proof {
                assert((edges@, mark@, onstack@) == dfs_visit(n as nat, start as int, len, cur));
                assert(dfs_from(start as int, n, len, cur) == dfs_from(start + 1, n, len, (edges@, mark@, onstack@)));
                lemma_reversals_compose(e0, e_b, edges@, m0, m_b, mark@);
                assert forall|v: int| 0 <= v < start implies mark@[v] by {
                    assert(m_b[v]);
                }
            }
        }
        proof {
            if cur.1[start as int] {
                assert(dfs_from(start as int, n, len, cur) == dfs_from(start + 1, n, len, cur));
            }
        }
        start += 1;
    }
    proof {
        assert(dfs_from(start as int, n, len, (edges@, mark@, onstack@)) == (edges@, mark@, onstack@));
        let (f, t) = choose|f: Seq<int>, t: int| dfs_invariant(edges@, mark@, onstack@, f, t);
        assert forall|j: int|
            0 <= j < edges@.len() && !(#[trigger] edges@[j]).flat && edges@[j].tail < node_count
                implies edges@[j].head < node_count && f[edges@[j].head as int] < f[edges@[j].tail as int] by {
            assert(finished(mark@, onstack@, edges@[j].tail as int));
        }
        assert(ordered_by(edges@, node_count as int, f));
        assert(acyclic_below(edges@, node_count as int));
    }
}

} // verus!
