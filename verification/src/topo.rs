//! Kahn's topological order over the non-flat edges, with any nodes left on
//! cycles appended in index order.
use vstd::prelude::*;

use crate::edges::DirectedEdge;

verus! {

/// Non-flat edges among the first `m` whose head is `v` and whose tail is not
/// yet in `popped`.
pub open spec fn pending_in(edges: Seq<DirectedEdge>, v: usize, popped: Seq<usize>, m: int) -> nat
    decreases m,
{
    if m <= 0 {
        0
    } else {
        pending_in(edges, v, popped, m - 1) + (if !edges[m - 1].flat && edges[m - 1].head == v
            && !popped.contains(edges[m - 1].tail) {
            1nat
        } else {
            0nat
        })
    }
}

/// Non-flat edges among the first `m` from `u` to `v`.
pub open spec fn edges_between(edges: Seq<DirectedEdge>, u: usize, v: usize, m: int) -> nat
    decreases m,
{
    if m <= 0 {
        0
    } else {
        edges_between(edges, u, v, m - 1) + (if !edges[m - 1].flat && edges[m - 1].tail == u
            && edges[m - 1].head == v {
            1nat
        } else {
            0nat
        })
    }
}

/// Indices of the non-flat edges among the first `m` that leave `u`, in order.
pub open spec fn out_ids(edges: Seq<DirectedEdge>, u: usize, m: int) -> Seq<usize>
    decreases m,
{
    if m <= 0 {
        Seq::empty()
    } else if !edges[m - 1].flat && edges[m - 1].tail == u {
        out_ids(edges, u, m - 1).push((m - 1) as usize)
    } else {
        out_ids(edges, u, m - 1)
    }
}

/// Number of edge ids in `ids` whose edge ends at `v`.
pub open spec fn count_head(edges: Seq<DirectedEdge>, ids: Seq<usize>, v: usize) -> nat
    decreases ids.len(),
{
    if ids.len() == 0 {
        0
    } else {
        (if edges[ids[0] as int].head == v {
            1nat
        } else {
            0nat
        }) + count_head(edges, ids.drop_first(), v)
    }
}

proof fn lemma_count_head_concat(edges: Seq<DirectedEdge>, a: Seq<usize>, b: Seq<usize>, v: usize)
    ensures
        count_head(edges, a + b, v) == count_head(edges, a, v) + count_head(edges, b, v),
    decreases a.len(),
{
    if a.len() > 0 {
        assert((a + b).drop_first() =~= a.drop_first() + b);
        lemma_count_head_concat(edges, a.drop_first(), b, v);
    } else {
        assert(a + b =~= b);
    }
}

proof fn lemma_out_ids_count(edges: Seq<DirectedEdge>, u: usize, v: usize, m: int)
    requires
        0 <= m <= edges.len(),
        edges.len() <= usize::MAX,
    ensures
        count_head(edges, out_ids(edges, u, m), v) == edges_between(edges, u, v, m),
        forall|k: int| 0 <= k < out_ids(edges, u, m).len() ==> out_ids(edges, u, m)[k] < m
            && !edges[out_ids(edges, u, m)[k] as int].flat && edges[out_ids(edges, u, m)[k] as int].tail == u,
    decreases m,
{
    if m > 0 {
        lemma_out_ids_count(edges, u, v, m - 1);
        if !edges[m - 1].flat && edges[m - 1].tail == u {
            let prev = out_ids(edges, u, m - 1);
            lemma_count_head_concat(edges, prev, seq![(m - 1) as usize], v);
            assert(prev.push((m - 1) as usize) =~= prev + seq![(m - 1) as usize]);
            assert(count_head(edges, seq![(m - 1) as usize], v) == (if edges[m - 1].head == v {
                1nat
            } else {
                0nat
            })) by {
                assert(seq![(m - 1) as usize].drop_first() =~= Seq::<usize>::empty());
                assert(count_head(edges, Seq::<usize>::empty(), v) == 0);
                assert(seq![(m - 1) as usize][0] == (m - 1) as usize);
            }
            let cur = out_ids(edges, u, m);
            assert forall|k: int| 0 <= k < cur.len() implies cur[k] < m && !edges[cur[k] as int].flat
                && edges[cur[k] as int].tail == u by {
                if k < prev.len() {
                    assert(cur[k] == prev[k]);
                }
            }
        }
    }
}

proof fn lemma_pending_pop(edges: Seq<DirectedEdge>, v: usize, popped: Seq<usize>, u: usize, m: int)
    requires
        !popped.contains(u),
        0 <= m <= edges.len(),
    ensures
        pending_in(edges, v, popped.push(u), m) + edges_between(edges, u, v, m) == pending_in(
            edges,
            v,
            popped,
            m,
        ),
    decreases m,
{
    if m > 0 {
        lemma_pending_pop(edges, v, popped, u, m - 1);
        let e = edges[m - 1];
        assert(popped.push(u).contains(e.tail) <==> (popped.contains(e.tail) || e.tail == u)) by {
            if popped.push(u).contains(e.tail) {
                let i = choose|i: int| 0 <= i < popped.push(u).len() && popped.push(u)[i] == e.tail;
                if i < popped.len() {
                    assert(popped[i] == e.tail);
                }
            }
            if popped.contains(e.tail) {
                let i = choose|i: int| 0 <= i < popped.len() && popped[i] == e.tail;
                assert(popped.push(u)[i] == e.tail);
            }
            if e.tail == u {
                assert(popped.push(u)[popped.len() as int] == u);
            }
        }
    }
}

proof fn lemma_pending_zero(edges: Seq<DirectedEdge>, v: usize, popped: Seq<usize>, m: int)
    requires
        0 <= m <= edges.len(),
    ensures
        pending_in(edges, v, popped, m) == 0 ==> forall|e: int|
            0 <= e < m && !edges[e].flat && edges[e].head == v ==> popped.contains(edges[e].tail),
        pending_in(edges, v, popped, m) > 0 ==> exists|e: int|
            0 <= e < m && !edges[e].flat && edges[e].head == v && !popped.contains(edges[e].tail),
    decreases m,
{
    if m > 0 {
        lemma_pending_zero(edges, v, popped, m - 1);
    }
}

/// Kahn's order over the non-flat edges. Splitting `order` at `k`: every node
/// before `k` comes after the tails of all its non-flat in-edges; the nodes
/// from `k` on are in increasing index order, and each of them has a non-flat
/// in-edge from another node from `k` on (they all lie on or behind cycles).
pub open spec fn kahn_split(order: Seq<usize>, edges: Seq<DirectedEdge>, k: int) -> bool {
    &&& 0 <= k <= order.len()
    &&& kahn_prefix_ordered(order, edges, k)
    &&& forall|a: int, b: int| k <= a < b < order.len() ==> order[a] < order[b]
    &&& leftovers_have_leftover_predecessor(order, edges, k)
}

/// Each of the first `k` nodes follows the tails of all its non-flat in-edges.
pub open spec fn kahn_prefix_ordered(order: Seq<usize>, edges: Seq<DirectedEdge>, k: int) -> bool {
    forall|j: int, e: int|
        0 <= j < k && 0 <= e < edges.len() && !edges[e].flat && edges[e].head == order[j]
            ==> exists|i: int| 0 <= i < j && order[i] == edges[e].tail
}

/// Each node from position `k` on has a non-flat in-edge from a node that is
/// also from position `k` on.
pub open spec fn leftovers_have_leftover_predecessor(order: Seq<usize>, edges: Seq<DirectedEdge>, k: int) -> bool {
    forall|j: int| k <= j < order.len() ==> #[trigger] has_predecessor_from(order, edges, k, order[j])
}

/// Some non-flat edge into `v` starts at a node found at position `k` or later.
pub open spec fn has_predecessor_from(order: Seq<usize>, edges: Seq<DirectedEdge>, k: int, v: usize) -> bool {
    exists|e: int, i: int|
        0 <= e < edges.len() && !edges[e].flat && edges[e].head == v && k <= i < order.len()
            && order[i] == edges[e].tail
}

/// `order` lists each of the nodes `0..n` exactly once.
pub open spec fn is_node_permutation(order: Seq<usize>, n: int) -> bool {
    &&& order.len() == n
    &&& forall|i: int| 0 <= i < order.len() ==> order[i] < n
    &&& forall|i: int, j: int| 0 <= i < j < order.len() ==> order[i] != order[j]
}


proof fn lemma_pending_le(edges: Seq<DirectedEdge>, v: usize, popped: Seq<usize>, m: int)
    requires
        0 <= m,
    ensures
        pending_in(edges, v, popped, m) <= m,
    decreases m,
{
    if m > 0 {
        lemma_pending_le(edges, v, popped, m - 1);
    }
}

/// Non-flat edges only connect nodes below `n`.
pub open spec fn non_flat_in_range(edges: Seq<DirectedEdge>, n: int) -> bool {
    forall|e: int| 0 <= e < edges.len() && !edges[e].flat ==> edges[e].tail < n && edges[e].head < n
}

/// In-degree (over non-flat edges) and outgoing non-flat edge lists of each node.
fn build_in_out(node_count: usize, edges: &[DirectedEdge]) -> (res: (Vec<usize>, Vec<Vec<usize>>))
    requires
        non_flat_in_range(edges@, node_count as int),
    ensures
        res.0@.len() == node_count,
        res.1@.len() == node_count,
        forall|v: int| 0 <= v < node_count ==> res.0@[v] == pending_in(edges@, v as usize, Seq::empty(), edges@.len() as int),
        forall|u: int| 0 <= u < node_count ==> res.1@[u]@ == out_ids(edges@, u as usize, edges@.len() as int),
{
    let mut indegree: Vec<usize> = Vec::new();
    let mut outgoing: Vec<Vec<usize>> = Vec::new();
    let mut v: usize = 0;
    while v < node_count
        invariant
            v <= node_count,
            indegree@.len() == v,
            outgoing@.len() == v,
            forall|w: int| 0 <= w < v ==> indegree@[w] == 0,
            forall|w: int| 0 <= w < v ==> outgoing@[w]@ == Seq::<usize>::empty(),
        decreases node_count - v,
    {
        indegree.push(0);
        outgoing.push(Vec::new());
        v = v + 1;
    }
    let mut m: usize = 0;
    while m < edges.len()
        invariant
            m <= edges@.len(),
            non_flat_in_range(edges@, node_count as int),
            indegree@.len() == node_count,
            outgoing@.len() == node_count,
            forall|w: int| 0 <= w < node_count ==> indegree@[w] == pending_in(edges@, w as usize, Seq::empty(), m as int),
            forall|u: int| 0 <= u < node_count ==> outgoing@[u]@ == out_ids(edges@, u as usize, m as int),
        decreases edges.len() - m,
    {
        if !edges[m].flat {
            let head = edges[m].head;
            let tail = edges[m].tail;
            proof {
                lemma_pending_le(edges@, head, Seq::empty(), m as int);
            }
            indegree.set(head, indegree[head] + 1);
            outgoing[tail].push(m);
        }
        m = m + 1;
    }
    (indegree, outgoing)
}

/// The nodes below `v` that no non-flat edge enters, in increasing order.
pub open spec fn initial_queue(edges: Seq<DirectedEdge>, v: int) -> Seq<usize>
    decreases v,
{
    if v <= 0 {
        Seq::empty()
    } else {
        let q = initial_queue(edges, v - 1);
        if pending_in(edges, (v - 1) as usize, Seq::empty(), edges.len() as int) == 0 {
            q.push((v - 1) as usize)
        } else {
            q
        }
    }
}

/// The queue and the remaining in-degrees after the first `k` edges of `ids`
/// were taken away: each edge lowers the in-degree of its head when that is
/// positive, and a head whose in-degree reaches zero joins the queue.
pub open spec fn release_heads(
    queue: Seq<usize>,
    indeg: Seq<usize>,
    ids: Seq<usize>,
    edges: Seq<DirectedEdge>,
    k: int,
) -> (Seq<usize>, Seq<usize>)
    decreases k,
{
    if k <= 0 {
        (queue, indeg)
    } else {
        let (q, d) = release_heads(queue, indeg, ids, edges, k - 1);
        let head = edges[ids[k - 1] as int].head as int;
        if d[head] > 0 {
            let d1 = d.update(head, (d[head] - 1) as usize);
            if d1[head] == 0 {
                (q.push(head as usize), d1)
            } else {
                (q, d1)
            }
        } else {
            (q, d)
        }
    }
}

/// The queue and in-degrees of first-in first-out Kahn's algorithm on the
/// nodes `0..n` after `j` nodes were taken from the front of the queue (or
/// all of it, when it holds fewer).
pub open spec fn kahn_state(n: int, edges: Seq<DirectedEdge>, j: nat) -> (Seq<usize>, Seq<usize>)
    decreases j,
{
    if j == 0 {
        (
            initial_queue(edges, n),
            Seq::new(n as nat, |w: int| pending_in(edges, w as usize, Seq::empty(), edges.len() as int) as usize),
        )
    } else {
        let (q, d) = kahn_state(n, edges, (j - 1) as nat);
        if j - 1 < q.len() {
            let ids = out_ids(edges, q[j - 1], edges.len() as int);
            release_heads(q, d, ids, edges, ids.len() as int)
        } else {
            (q, d)
        }
    }
}

/// The nodes below `v` that `kahn` does not hold, in increasing order.
pub open spec fn leftover_nodes(kahn: Seq<usize>, v: int) -> Seq<usize>
    decreases v,
{
    if v <= 0 {
        Seq::empty()
    } else {
        let r = leftover_nodes(kahn, v - 1);
        if kahn.contains((v - 1) as usize) {
            r
        } else {
            r.push((v - 1) as usize)
        }
    }
}

/// What `topo_order` returns: the order in which first-in first-out Kahn's
/// algorithm takes the nodes, then the nodes it never reaches in increasing
/// order.
pub open spec fn topo_spec(n: int, edges: Seq<DirectedEdge>) -> Seq<usize> {
    let kahn = kahn_state(n, edges, n as nat).0;
    kahn + leftover_nodes(kahn, n)
}

proof fn lemma_kahn_state_stays(n: int, edges: Seq<DirectedEdge>, j: nat, q: nat)
    requires
        j <= q,
        kahn_state(n, edges, j).0.len() <= j,
    ensures
        kahn_state(n, edges, q) == kahn_state(n, edges, j),
    decreases q - j,
{
    if j < q {
        lemma_kahn_state_stays(n, edges, j, (q - 1) as nat);
    }
}

/// Topological order of the nodes `0..node_count` over the non-flat edges
/// (Kahn's algorithm, first-in first-out, sources in index order). Nodes that
/// Kahn's algorithm cannot reach because they lie on or behind a cycle follow
/// in increasing index order.
pub fn topo_order(node_count: usize, edges: &[DirectedEdge]) -> (order: Vec<usize>)
    requires
        non_flat_in_range(edges@, node_count as int),
    ensures
        order@ == topo_spec(node_count as int, edges@),
        is_node_permutation(order@, node_count as int),
        exists|k: int| kahn_split(order@, edges@, k),
{
    let (mut indegree, outgoing) = build_in_out(node_count, edges);
    let elen = edges.len();
    assert(edges@.len() <= usize::MAX);
    let ghost total = edges@.len() as int;
    let mut queue: Vec<usize> = Vec::new();
    let mut v: usize = 0;
    while v < node_count
        invariant
            v <= node_count,
            indegree@.len() == node_count,
            forall|w: int| 0 <= w < node_count ==> indegree@[w] == pending_in(edges@, w as usize, Seq::empty(), total),
            forall|i: int| 0 <= i < queue@.len() ==> queue@[i] < v && indegree@[queue@[i] as int] == 0,
            forall|a: int, b: int| 0 <= a < b < queue@.len() ==> queue@[a] < queue@[b],
            forall|w: int| 0 <= w < v && indegree@[w] == 0 ==> queue@.contains(w as usize),
            queue@ == initial_queue(edges@, v as int),
            total == edges@.len(),
        decreases node_count - v,
    {
        assert(indegree@[v as int] == pending_in(edges@, v, Seq::empty(), total));
        proof {
            let q = initial_queue(edges@, v as int);
            assert(initial_queue(edges@, v + 1) == (if pending_in(edges@, v, Seq::empty(), edges@.len() as int) == 0 {
                q.push(v)
            } else {
                q
            }));
        }
        if indegree[v] == 0 {
            let ghost before = queue@;
            queue.push(v);
            assert(queue@[queue@.len() - 1] == v);
            assert forall|w: int| 0 <= w < v + 1 && indegree@[w] == 0 implies queue@.contains(w as usize) by {
                if w < v {
                    let i = choose|i: int| 0 <= i < before.len() && before[i] == w as usize;
                    assert(queue@[i] == w as usize);
                }
            }
        }
        v = v + 1;
    }
    proof {
        assert(queue@.subrange(0, 0) =~= Seq::<usize>::empty());
        assert forall|j: int, e: int|
            0 <= j < queue@.len() && 0 <= e < edges@.len() && !edges@[e].flat && edges@[e].head == queue@[j]
            implies exists|i: int| 0 <= i < j && queue@[i] == edges@[e].tail by {
            lemma_pending_zero(edges@, queue@[j], Seq::empty(), total);
            assert(!Seq::<usize>::empty().contains(edges@[e].tail));
        }
        assert forall|w: int| 0 <= w < node_count implies (queue@.contains(w as usize) <==> indegree@[w] == 0) by {
            if queue@.contains(w as usize) {
                let i = choose|i: int| 0 <= i < queue@.len() && queue@[i] == w as usize;
            }
        }
        lemma_distinct_bounded(queue@, node_count as int);
    }
    assert(indegree@ =~= kahn_state(node_count as int, edges@, 0).1);
    let mut qh: usize = 0;
    while qh < queue.len()
        invariant
            (queue@, indegree@) == kahn_state(node_count as int, edges@, qh as nat),
            qh <= queue@.len(),
            queue@.len() <= node_count,
            non_flat_in_range(edges@, node_count as int),
            indegree@.len() == node_count,
            outgoing@.len() == node_count,
            total == edges@.len(),
            total <= usize::MAX,
            forall|u: int| 0 <= u < node_count ==> outgoing@[u]@ == out_ids(edges@, u as usize, total),
            forall|w: int| 0 <= w < node_count ==> indegree@[w] == pending_in(edges@, w as usize, queue@.subrange(0, qh as int), total),
            forall|i: int| 0 <= i < queue@.len() ==> queue@[i] < node_count,
            forall|a: int, b: int| 0 <= a < b < queue@.len() ==> queue@[a] != queue@[b],
            forall|w: int| 0 <= w < node_count ==> (queue@.contains(w as usize) <==> indegree@[w] == 0),
            forall|j: int, e: int|
                0 <= j < queue@.len() && 0 <= e < edges@.len() && !edges@[e].flat && edges@[e].head == queue@[j]
                    ==> exists|i: int| 0 <= i < j && queue@[i] == edges@[e].tail,
        decreases node_count - qh,
    {
        let node = queue[qh];
        let ghost popped = queue@.subrange(0, qh as int);
        let ghost q0 = queue@;
        let ghost d0 = indegree@;
        let ghost j0 = qh;
        proof {
            assert(!popped.contains(node)) by {
                if popped.contains(node) {
                    let i = choose|i: int| 0 <= i < popped.len() && popped[i] == node;
                    assert(queue@[i] == queue@[qh as int]);
                }
            }
            assert(queue@.subrange(0, qh + 1) =~= popped.push(node));
            assert forall|w: int| 0 <= w < node_count implies pending_in(edges@, w as usize, popped.push(node), total)
                + count_head(edges@, outgoing@[node as int]@, w as usize) == indegree@[w] by {
                lemma_pending_pop(edges@, w as usize, popped, node, total);
                lemma_out_ids_count(edges@, node, w as usize, total);
            }
        }
        qh = qh + 1;
        assert(queue@.subrange(0, qh as int) == popped.push(node));
        let outs = &outgoing[node];
        assert(outs@.subrange(0, outs@.len() as int) =~= outs@);
        proof {
            lemma_out_ids_count(edges@, node, 0, total);
        }
        let mut k: usize = 0;
        while k < outs.len()
            invariant
                (queue@, indegree@) == release_heads(q0, d0, outs@, edges@, k as int),
                qh == j0 + 1,
                j0 < q0.len(),
                node == q0[j0 as int],
                kahn_state(node_count as int, edges@, qh as nat) == release_heads(q0, d0, outs@, edges@, outs@.len() as int),
                k <= outs@.len(),
                outs@ == out_ids(edges@, node, total),
                qh <= queue@.len(),
                queue@.len() <= node_count,
                node < node_count,
                non_flat_in_range(edges@, node_count as int),
                total == edges@.len(),
                total <= usize::MAX,
                indegree@.len() == node_count,
                forall|kk: int| 0 <= kk < outs@.len() ==> outs@[kk] < total && !edges@[outs@[kk] as int].flat
                    && edges@[outs@[kk] as int].tail == node,
                forall|w: int| 0 <= w < node_count ==> indegree@[w] == pending_in(edges@, w as usize, queue@.subrange(0, qh as int), total)
                    + count_head(edges@, outs@.subrange(k as int, outs@.len() as int), w as usize),
                forall|i: int| 0 <= i < queue@.len() ==> queue@[i] < node_count,
                forall|a: int, b: int| 0 <= a < b < queue@.len() ==> queue@[a] != queue@[b],
                forall|w: int| 0 <= w < node_count ==> (queue@.contains(w as usize) <==> indegree@[w] == 0),
                forall|j: int, e: int|
                    0 <= j < queue@.len() && 0 <= e < edges@.len() && !edges@[e].flat && edges@[e].head == queue@[j]
                        ==> exists|i: int| 0 <= i < j && queue@[i] == edges@[e].tail,
            decreases outs.len() - k,
        {
            let edge_id = outs[k];
            let head = edges[edge_id].head;
            proof {
                let rest = outs@.subrange(k as int, outs@.len() as int);
                assert(rest.drop_first() =~= outs@.subrange(k + 1, outs@.len() as int));
                assert(rest[0] == edge_id);
            }
            if indegree[head] > 0 {
                indegree.set(head, indegree[head] - 1);
                if indegree[head] == 0 {
                    proof {
                        let popped = queue@.subrange(0, qh as int);
                        // every non-flat edge into `head` has its tail already popped
                        assert(count_head(edges@, outs@.subrange(k + 1, outs@.len() as int), head) == 0);
                        assert(pending_in(edges@, head, popped, total) == 0);
                        lemma_pending_zero(edges@, head, popped, total);
                        assert(!queue@.contains(head));
                    }
                    let ghost before = queue@;
                    queue.push(head);
                    proof {
                        assert forall|j: int, e: int|
                            0 <= j < queue@.len() && 0 <= e < edges@.len() && !edges@[e].flat && edges@[e].head == queue@[j]
                            implies exists|i: int| 0 <= i < j && queue@[i] == edges@[e].tail by {
                            if j < before.len() {
                                let i = choose|i: int| 0 <= i < j && before[i] == edges@[e].tail;
                                assert(queue@[i] == edges@[e].tail);
                            } else {
                                let popped = before.subrange(0, qh as int);
                                assert(popped.contains(edges@[e].tail));
                                let i = choose|i: int| 0 <= i < popped.len() && popped[i] == edges@[e].tail;
                                assert(queue@[i] == edges@[e].tail);
                            }
                        }
                        assert forall|w: int| 0 <= w < node_count implies (queue@.contains(w as usize) <==> indegree@[w] == 0) by {
                            if queue@.contains(w as usize) && w != head as int {
                                let i = choose|i: int| 0 <= i < queue@.len() && queue@[i] == w as usize;
                                assert(before[i] == w as usize);
                            }
                            if w != head as int && before.contains(w as usize) {
                                let i = choose|i: int| 0 <= i < before.len() && before[i] == w as usize;
                                assert(queue@[i] == w as usize);
                            }
                            if w == head as int {
                                assert(queue@[before.len() as int] == head);
                            }
                        }
                        assert(queue@.subrange(0, qh as int) =~= before.subrange(0, qh as int));
                        assert forall|a: int, b: int| 0 <= a < b < queue@.len() implies queue@[a] != queue@[b] by {
                            if b == before.len() {
                                assert(before.contains(queue@[a]) ==> queue@[a] != head);
                                assert(before[a] == queue@[a]);
                            }
                        }
                        assert(queue@.len() <= node_count) by {
                            lemma_distinct_bounded(queue@, node_count as int);
                        }
                    }
                }
            }
            k = k + 1;
        }
    }
    assert(queue@.subrange(0, qh as int) =~= queue@);
    proof {
        lemma_kahn_state_stays(node_count as int, edges@, qh as nat, node_count as nat);
    }
    let ghost kahn_len = queue@.len() as int;
    let ghost kahn = queue@;
    // mark what Kahn's order reached and append the rest in index order
    let mut seen: Vec<bool> = Vec::new();
    let mut w: usize = 0;
    while w < node_count
        invariant
            w <= node_count,
            seen@.len() == w,
            forall|x: int| 0 <= x < w ==> !seen@[x],
        decreases node_count - w,
    {
        seen.push(false);
        w = w + 1;
    }
    let mut i: usize = 0;
    while i < queue.len()
        invariant
            i <= queue@.len(),
            queue@ == kahn,
            seen@.len() == node_count,
            forall|x: int| 0 <= x < queue@.len() ==> queue@[x] < node_count,
            forall|x: int| 0 <= x < node_count ==> (seen@[x] <==> queue@.subrange(0, i as int).contains(x as usize)),
        decreases queue.len() - i,
    {
        let x = queue[i];
        seen.set(x, true);
        proof {
            assert forall|y: int| 0 <= y < node_count implies (seen@[y] <==> queue@.subrange(0, i + 1).contains(y as usize)) by {
                assert(queue@.subrange(0, i + 1) =~= queue@.subrange(0, i as int).push(x));
                if queue@.subrange(0, i + 1).contains(y as usize) && y != x as int {
                    let z = choose|z: int| 0 <= z < i + 1 && #[trigger] queue@.subrange(0, i + 1)[z] == y as usize;
                    assert(queue@.subrange(0, i as int)[z] == y as usize);
                }
                if queue@.subrange(0, i as int).contains(y as usize) {
                    let z = choose|z: int| 0 <= z < i && #[trigger] queue@.subrange(0, i as int)[z] == y as usize;
                    assert(queue@.subrange(0, i + 1)[z] == y as usize);
                }
                if y == x as int {
                    assert(queue@.subrange(0, i + 1)[i as int] == x);
                }
            }
        }
        i = i + 1;
    }
    assert(queue@.subrange(0, queue@.len() as int) =~= queue@);
    let mut order = queue;
    let mut node: usize = 0;
    while node < node_count
        invariant
            node <= node_count,
            kahn_len == kahn.len(),
            seen@.len() == node_count,
            order@.len() >= kahn_len,
            order@.subrange(0, kahn_len) == kahn,
            forall|x: int| 0 <= x < node_count ==> (seen@[x] <==> kahn.contains(x as usize)),
            forall|x: int| 0 <= x < kahn_len ==> kahn[x] < node_count,
            forall|a: int, b: int| 0 <= a < b < kahn_len ==> kahn[a] != kahn[b],
            forall|x: int| kahn_len <= x < order@.len() ==> order@[x] < node && !kahn.contains(order@[x]),
            forall|a: int, b: int| kahn_len <= a < b < order@.len() ==> order@[a] < order@[b],
            forall|y: usize| y < node && !#[trigger] kahn.contains(y) ==> exists|x: int|
                kahn_len <= x < order@.len() && order@[x] == y,
            order@ == kahn + leftover_nodes(kahn, node as int),
            kahn == kahn_state(node_count as int, edges@, node_count as nat).0,
        decreases node_count - node,
    {
        if !seen[node] {
            let ghost before = order@;
            order.push(node);
            proof {
                assert(order@ == before.push(node));
                assert(order@.len() == before.len() + 1);
                assert(before.len() >= kahn_len);
                assert forall|x: int| 0 <= x < before.len() implies order@[x] == before[x] by {
                    assert(before.push(node)[x] == before[x]);
                }
                assert(order@.subrange(0, kahn_len) =~= before.subrange(0, kahn_len));
                assert(order@[before.len() as int] == node);
                assert(!kahn.contains(node));
                assert forall|x: int| kahn_len <= x < order@.len() implies order@[x] < node + 1 && !kahn.contains(order@[x]) by {
                    if x < before.len() {
                        assert(order@[x] == before[x]);
                    } else {
                        assert(x == before.len());
                    }
                }
                assert forall|y: usize| y < node + 1 && !#[trigger] kahn.contains(y) implies exists|x: int|
                    kahn_len <= x < order@.len() && order@[x] == y by {
                    if y < node {
                        let x = choose|x: int| kahn_len <= x < before.len() && before[x] == y;
                        assert(order@[x] == y);
                    } else {
                        assert(order@[before.len() as int] == y);
                    }
                }
            }
        }
        node = node + 1;
    }
    proof {
        lemma_topo_final(order@, kahn, kahn_len, edges@, node_count as int, indegree@, total);
    }
    order
}

pub proof fn lemma_distinct_bounded(s: Seq<usize>, n: int)
    requires
        forall|i: int| 0 <= i < s.len() ==> s[i] < n,
        forall|a: int, b: int| 0 <= a < b < s.len() ==> s[a] != s[b],
        n >= 0,
    ensures
        s.len() <= n,
{
    let si = s.map_values(|x: usize| x as int);
    assert(si.no_duplicates()) by {
        assert forall|a: int, b: int| 0 <= a < si.len() && 0 <= b < si.len() && a != b implies si[a] != si[b] by {
            if a < b {
                assert(s[a] != s[b]);
            } else {
                assert(s[b] != s[a]);
            }
        }
    }
    si.unique_seq_to_set();
    vstd::set_lib::lemma_int_range(0, n);
    assert(si.to_set().subset_of(vstd::set_lib::set_int_range(0, n))) by {
        assert forall|x: int| si.to_set().contains(x) implies vstd::set_lib::set_int_range(0, n).contains(x) by {
            let i = choose|i: int| 0 <= i < si.len() && si[i] == x;
            assert(s[i] < n);
        }
    }
    vstd::set_lib::lemma_len_subset(si.to_set(), vstd::set_lib::set_int_range(0, n));
}

proof fn lemma_topo_final(
    order: Seq<usize>,
    kahn: Seq<usize>,
    kahn_len: int,
    edges: Seq<DirectedEdge>,
    n: int,
    indegree: Seq<usize>,
    total: int,
)
    requires
        kahn_len == kahn.len(),
        total == edges.len(),
        n <= usize::MAX,
        non_flat_in_range(edges, n),
        order.len() >= kahn_len,
        order.subrange(0, kahn_len) == kahn,
        indegree.len() == n,
        forall|x: int| 0 <= x < kahn_len ==> kahn[x] < n,
        forall|a: int, b: int| 0 <= a < b < kahn_len ==> kahn[a] != kahn[b],
        forall|x: int| kahn_len <= x < order.len() ==> order[x] < n && !kahn.contains(order[x]),
        forall|a: int, b: int| kahn_len <= a < b < order.len() ==> order[a] < order[b],
        forall|y: usize| y < n && !#[trigger] kahn.contains(y) ==> exists|x: int|
            kahn_len <= x < order.len() && order[x] == y,
        forall|w: int| 0 <= w < n ==> indegree[w] == pending_in(edges, w as usize, kahn, total),
        forall|w: int| 0 <= w < n ==> (kahn.contains(w as usize) <==> indegree[w] == 0),
        forall|j: int, e: int|
            0 <= j < kahn.len() && 0 <= e < edges.len() && !edges[e].flat && edges[e].head == kahn[j]
                ==> exists|i: int| 0 <= i < j && kahn[i] == edges[e].tail,
        n >= 0,
    ensures
        is_node_permutation(order, n),
        exists|k: int| kahn_split(order, edges, k),
{
    assert forall|x: int| 0 <= x < order.len() implies order[x] < n by {
        if x < kahn_len {
            assert(order[x] == kahn[x]);
        }
    }
    assert forall|a: int, b: int| 0 <= a < b < order.len() implies order[a] != order[b] by {
        if b < kahn_len {
            assert(order[a] == kahn[a] && order[b] == kahn[b]);
        } else if a < kahn_len {
            assert(order[a] == kahn[a]);
            assert(kahn.contains(order[a]));
        }
    }
    // every node below n occurs, so the length is n
    assert(order.len() == n) by {
        lemma_distinct_bounded(order, n);
        let oi = order.map_values(|x: usize| x as int);
        assert(oi.no_duplicates()) by {
            assert forall|a: int, b: int| 0 <= a < oi.len() && 0 <= b < oi.len() && a != b implies oi[a] != oi[b] by {
                if a < b {
                    assert(order[a] != order[b]);
                } else {
                    assert(order[b] != order[a]);
                }
            }
        }
        oi.unique_seq_to_set();
        vstd::set_lib::lemma_int_range(0, n);
        assert(vstd::set_lib::set_int_range(0, n).subset_of(oi.to_set())) by {
            assert forall|y: int| vstd::set_lib::set_int_range(0, n).contains(y) implies oi.to_set().contains(y) by {
                if kahn.contains(y as usize) {
                    let j = choose|j: int| 0 <= j < kahn.len() && kahn[j] == y as usize;
                    assert(order[j] == kahn[j]);
                    assert(order[j] as int == y);
                    assert(oi[j] == y);
                } else {
                    let x = choose|x: int| kahn_len <= x < order.len() && order[x] == y as usize;
                    assert(order[x] as int == y);
                    assert(oi[x] == y);
                }
            }
        }
        vstd::set_lib::lemma_len_subset(vstd::set_lib::set_int_range(0, n), oi.to_set());
    }
    assert(0 <= kahn_len <= order.len());
    assert(forall|a: int, b: int| kahn_len <= a < b < order.len() ==> order[a] < order[b]);
    assert(kahn_prefix_ordered(order, edges, kahn_len)) by {
        assert forall|j: int, e: int|
            0 <= j < kahn_len && 0 <= e < edges.len() && !edges[e].flat && edges[e].head == order[j]
            implies exists|i: int| 0 <= i < j && order[i] == edges[e].tail by {
            assert(order[j] == kahn[j]);
            let i = choose|i: int| 0 <= i < j && kahn[i] == edges[e].tail;
            assert(order[i] == kahn[i]);
        }
    }
    lemma_leftovers(order, kahn, kahn_len, edges, n, indegree, total);
    assert(kahn_split(order, edges, kahn_len));
}


proof fn lemma_leftovers(
    order: Seq<usize>,
    kahn: Seq<usize>,
    kahn_len: int,
    edges: Seq<DirectedEdge>,
    n: int,
    indegree: Seq<usize>,
    total: int,
)
    requires
        kahn_len == kahn.len(),
        total == edges.len(),
        n <= usize::MAX,
        non_flat_in_range(edges, n),
        order.len() >= kahn_len,
        indegree.len() == n,
        forall|x: int| 0 <= x < order.len() ==> order[x] < n,
        forall|x: int| kahn_len <= x < order.len() ==> order[x] < n && !kahn.contains(order[x]),
        forall|y: usize| y < n && !#[trigger] kahn.contains(y) ==> exists|x: int|
            kahn_len <= x < order.len() && order[x] == y,
        forall|w: int| 0 <= w < n ==> indegree[w] == pending_in(edges, w as usize, kahn, total),
        forall|w: int| 0 <= w < n ==> (kahn.contains(w as usize) <==> indegree[w] == 0),
    ensures
        leftovers_have_leftover_predecessor(order, edges, kahn_len),
{
    assert forall|j: int| kahn_len <= j < order.len() implies #[trigger] has_predecessor_from(order, edges, kahn_len, order[j]) by {
        let v = order[j];
        assert(v < n);
        assert(!kahn.contains(v));
        assert((v as int) as usize == v);
        assert(indegree[v as int] != 0);
        lemma_pending_zero(edges, v, kahn, total);
        let e = choose|e: int| 0 <= e < total && !edges[e].flat && edges[e].head == v && !kahn.contains(edges[e].tail);
        let t = edges[e].tail;
        assert(t < n);
        let i = choose|i: int| kahn_len <= i < order.len() && order[i] == t;
        assert(edges[e] == edges[e] && order[i] == order[i]);
    }
}


/// Position in `[k, len)` whose node has the smallest potential `f`.
proof fn lemma_min_potential(order: Seq<usize>, f: Seq<int>, k: int, hi: int) -> (j: int)
    requires
        0 <= k < hi <= order.len(),
        forall|x: int| 0 <= x < order.len() ==> order[x] < f.len(),
    ensures
        k <= j < hi,
        forall|x: int| k <= x < hi ==> f[order[j] as int] <= f[order[x] as int],
    decreases hi - k,
{
    if hi == k + 1 {
        k
    } else {
        let j0 = lemma_min_potential(order, f, k, hi - 1);
        if f[order[hi - 1] as int] < f[order[j0] as int] {
            hi - 1
        } else {
            j0
        }
    }
}

/// When the non-flat edges admit a potential that strictly grows along every
/// edge (they have no cycle), the whole of `topo_order`'s result is a
/// topological order: every node comes after the tails of its non-flat in-edges.
pub proof fn law_topo_order_is_topological_when_acyclic(
    order: Seq<usize>,
    edges: Seq<DirectedEdge>,
    n: int,
    f: Seq<int>,
)
    requires
        is_node_permutation(order, n),
        exists|k: int| kahn_split(order, edges, k),
        f.len() == n,
        non_flat_in_range(edges, n),
        forall|e: int| 0 <= e < edges.len() && !edges[e].flat ==> f[edges[e].tail as int] < f[
            edges[e].head as int
        ],
    ensures
        kahn_prefix_ordered(order, edges, n),
{
    let k = choose|k: int| kahn_split(order, edges, k);
    if k < n {
        let j = lemma_min_potential(order, f, k, n);
        assert(has_predecessor_from(order, edges, k, order[j]));
        let (e, i) = choose|e: int, i: int|
            0 <= e < edges.len() && !edges[e].flat && edges[e].head == order[j] && k <= i < order.len()
                && order[i] == edges[e].tail;
        assert(f[order[j] as int] <= f[order[i] as int]);
        assert(false);
    }
}


/// `a` and `b` have the same length, agree on which edges are flat, and
/// agree on the ends of every non-flat edge.
pub open spec fn same_non_flat_edges(a: Seq<DirectedEdge>, b: Seq<DirectedEdge>) -> bool {
    &&& a.len() == b.len()
    &&& forall|e: int| 0 <= e < a.len() ==> #[trigger] a[e].flat == b[e].flat
    &&& forall|e: int| 0 <= e < a.len() && !a[e].flat ==> #[trigger] a[e].tail == b[e].tail && a[e].head == b[e].head
}

proof fn lemma_same_pending_out(a: Seq<DirectedEdge>, b: Seq<DirectedEdge>, v: usize, popped: Seq<usize>, m: int)
    requires
        same_non_flat_edges(a, b),
        m <= a.len(),
    ensures
        pending_in(a, v, popped, m) == pending_in(b, v, popped, m),
        out_ids(a, v, m) == out_ids(b, v, m),
    decreases m,
{
    if m > 0 {
        lemma_same_pending_out(a, b, v, popped, m - 1);
        assert(a[m - 1].flat == b[m - 1].flat);
        if !a[m - 1].flat {
            assert(a[m - 1].tail == b[m - 1].tail);
        }
    }
}

proof fn lemma_out_ids_non_flat(edges: Seq<DirectedEdge>, u: usize, m: int)
    requires
        m <= edges.len(),
        m <= usize::MAX,
    ensures
        forall|k: int| 0 <= k < out_ids(edges, u, m).len() ==> #[trigger] out_ids(edges, u, m)[k] < m
            && !edges[out_ids(edges, u, m)[k] as int].flat,
    decreases m,
{
    if m > 0 {
        lemma_out_ids_non_flat(edges, u, m - 1);
        let prev = out_ids(edges, u, m - 1);
        let cur = out_ids(edges, u, m);
        assert forall|k: int| 0 <= k < cur.len() implies #[trigger] cur[k] < m && !edges[cur[k] as int].flat by {
            if !edges[m - 1].flat && edges[m - 1].tail == u {
                assert(cur == prev.push((m - 1) as usize));
                if k < prev.len() {
                    assert(cur[k] == prev[k]);
                }
            } else {
                assert(cur == prev);
                assert(prev[k] < m - 1);
            }
        }
    }
}

proof fn lemma_same_initial_queue(a: Seq<DirectedEdge>, b: Seq<DirectedEdge>, v: int)
    requires
        same_non_flat_edges(a, b),
    ensures
        initial_queue(a, v) == initial_queue(b, v),
    decreases v,
{
    if v > 0 {
        lemma_same_initial_queue(a, b, v - 1);
        lemma_same_pending_out(a, b, (v - 1) as usize, Seq::empty(), a.len() as int);
    }
}

proof fn lemma_same_release(
    queue: Seq<usize>,
    indeg: Seq<usize>,
    ids: Seq<usize>,
    a: Seq<DirectedEdge>,
    b: Seq<DirectedEdge>,
    k: int,
)
    requires
        same_non_flat_edges(a, b),
        k <= ids.len(),
        forall|i: int| 0 <= i < ids.len() ==> #[trigger] ids[i] < a.len() && !a[ids[i] as int].flat,
    ensures
        release_heads(queue, indeg, ids, a, k) == release_heads(queue, indeg, ids, b, k),
    decreases k,
{
    if k > 0 {
        lemma_same_release(queue, indeg, ids, a, b, k - 1);
        assert(ids[k - 1] < a.len() && !a[ids[k - 1] as int].flat);
        assert(a[ids[k - 1] as int].tail == b[ids[k - 1] as int].tail);
    }
}

proof fn lemma_same_kahn_state(n: int, a: Seq<DirectedEdge>, b: Seq<DirectedEdge>, j: nat)
    requires
        same_non_flat_edges(a, b),
        a.len() <= usize::MAX,
    ensures
        kahn_state(n, a, j) == kahn_state(n, b, j),
    decreases j,
{
    if j == 0 {
        lemma_same_initial_queue(a, b, n);
        assert forall|w: int| 0 <= w < kahn_state(n, a, j).1.len() implies #[trigger] kahn_state(n, a, j).1[w] == kahn_state(n, b, j).1[w] by {
            lemma_same_pending_out(a, b, w as usize, Seq::empty(), a.len() as int);
        }
        assert(kahn_state(n, a, j).1 =~= kahn_state(n, b, j).1);
    } else {
        lemma_same_kahn_state(n, a, b, (j - 1) as nat);
        let (q, d) = kahn_state(n, a, (j - 1) as nat);
        if j - 1 < q.len() {
            lemma_same_pending_out(a, b, q[j - 1], Seq::empty(), a.len() as int);
            lemma_out_ids_non_flat(a, q[j - 1], a.len() as int);
            let ids = out_ids(a, q[j - 1], a.len() as int);
            lemma_same_release(q, d, ids, a, b, ids.len() as int);
        }
    }
}

/// Flat edges play no part in `topo_order`: two edge lists that agree on
/// which edges are flat and on the ends of every non-flat edge give the same
/// order.
pub proof fn law_topo_order_ignores_flat_edges(n: int, a: Seq<DirectedEdge>, b: Seq<DirectedEdge>)
    requires
        same_non_flat_edges(a, b),
        a.len() <= usize::MAX,
    ensures
        topo_spec(n, a) == topo_spec(n, b),
{
    lemma_same_kahn_state(n, a, b, n as nat);
}

} // verus!
