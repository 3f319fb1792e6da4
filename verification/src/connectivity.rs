//! Connected components as connectivity classes: a walk of linked nodes
//! joins two nodes exactly when they share a part.
use vstd::prelude::*;

use crate::components::{closed_under_links, connected_by, is_partition, joined_by_edge, linked};
use crate::edges::InputEdge;

verus! {

/// `w` is a walk over nodes below `n` whose consecutive nodes are linked.
pub open spec fn is_walk(w: Seq<int>, edges: Seq<InputEdge>, paths: Seq<Vec<usize>>, n: int) -> bool {
    &&& w.len() > 0
    &&& forall|i: int| 0 <= i < w.len() ==> 0 <= #[trigger] w[i] < n
    &&& forall|i: int| 0 <= i < w.len() - 1 ==> linked(edges, paths, #[trigger] w[i], w[i + 1])
}

/// Some walk leads from `u` to `v`.
pub open spec fn connected(edges: Seq<InputEdge>, paths: Seq<Vec<usize>>, n: int, u: int, v: int) -> bool {
    exists|w: Seq<int>| #[trigger] is_walk(w, edges, paths, n) && w[0] == u && w.last() == v
}

/// How many entries of `s` come earlier than `o` in `order`.
spec fn earlier_count(s: Seq<usize>, order: Seq<int>, o: int) -> nat
    decreases s.len(),
{
    if s.len() == 0 {
        0
    } else {
        earlier_count(s.drop_last(), order, o) + (if order[s.last() as int] < o {
            1nat
        } else {
            0nat
        })
    }
}

proof fn lemma_earlier_count_mono(s: Seq<usize>, order: Seq<int>, o1: int, o2: int)
    requires
        o1 <= o2,
    ensures
        earlier_count(s, order, o1) <= earlier_count(s, order, o2),
    decreases s.len(),
{
    if s.len() > 0 {
        lemma_earlier_count_mono(s.drop_last(), order, o1, o2);
    }
}

proof fn lemma_earlier_count_strict(s: Seq<usize>, order: Seq<int>, k: int, o: int)
    requires
        0 <= k < s.len(),
        order[s[k] as int] < o,
    ensures
        earlier_count(s, order, order[s[k] as int]) < earlier_count(s, order, o),
    decreases s.len(),
{
    let a = order[s[k] as int];
    if k == s.len() - 1 {
        lemma_earlier_count_mono(s.drop_last(), order, a, o);
    } else {
        assert(s.drop_last()[k] == s[k]);
        lemma_earlier_count_strict(s.drop_last(), order, k, o);
    }
}

proof fn lemma_linked_symmetric(edges: Seq<InputEdge>, paths: Seq<Vec<usize>>, u: int, v: int)
    requires
        linked(edges, paths, u, v),
    ensures
        linked(edges, paths, v, u),
{
    if joined_by_edge(edges, u, v) {
        let j = choose|j: int|
            0 <= j < edges.len() && ((#[trigger] edges[j].tail == u && edges[j].head == v) || (edges[j].tail == v
                && edges[j].head == u));
        assert(edges[j].tail == v && edges[j].head == u || edges[j].tail == u && edges[j].head == v);
    } else {
        let c = choose|c: usize| #[trigger] paths[u]@.contains(c) && paths[v]@.contains(c);
        assert(paths[v]@.contains(c) && paths[u]@.contains(c));
    }
}

/// A walk inside part `c` from the part's first node to `x`.
proof fn lemma_walk_from_first(
    comps: Seq<Vec<usize>>,
    edges: Seq<InputEdge>,
    paths: Seq<Vec<usize>>,
    n: int,
    parent: Seq<usize>,
    order: Seq<int>,
    c: int,
    x: usize,
) -> (w: Seq<int>)
    requires
        is_partition(comps, n),
        connected_by(comps, edges, paths, parent, order),
        0 <= c < comps.len(),
        comps[c]@.contains(x),
    ensures
        is_walk(w, edges, paths, n),
        w[0] == comps[c]@[0] as int,
        w.last() == x as int,
    decreases earlier_count(comps[c]@, order, order[x as int]),
{
    assert(comps[c]@.len() > 0);
    assert(comps[c]@[0] < n);
    let k = choose|k: int| 0 <= k < comps[c]@.len() && comps[c]@[k] == x;
    assert(x < n);
    if x == comps[c]@[0] {
        let w = seq![x as int];
        w
    } else {
        let p = parent[x as int];
        assert(comps[c]@.contains(p));
        assert(linked(edges, paths, p as int, x as int));
        assert(order[p as int] < order[x as int]);
        let kp = choose|kp: int| 0 <= kp < comps[c]@.len() && comps[c]@[kp] == p;
        lemma_earlier_count_strict(comps[c]@, order, kp, order[x as int]);
        let w0 = lemma_walk_from_first(comps, edges, paths, n, parent, order, c, p);
        let w = w0.push(x as int);
        assert forall|i: int| 0 <= i < w.len() - 1 implies linked(edges, paths, #[trigger] w[i], w[i + 1]) by {
            if i < w0.len() - 1 {
                assert(w[i] == w0[i] && w[i + 1] == w0[i + 1]);
            } else {
                assert(w[i] == p as int);
            }
        }
        assert forall|i: int| 0 <= i < w.len() implies 0 <= #[trigger] w[i] < n by {
            if i < w0.len() {
                assert(w[i] == w0[i]);
            }
        }
        w
    }
}

proof fn lemma_walk_reversed(w: Seq<int>, edges: Seq<InputEdge>, paths: Seq<Vec<usize>>, n: int)
    requires
        is_walk(w, edges, paths, n),
    ensures
        is_walk(w.reverse(), edges, paths, n),
        w.reverse()[0] == w.last(),
        w.reverse().last() == w[0],
{
    let r = w.reverse();
    assert forall|i: int| 0 <= i < r.len() implies 0 <= #[trigger] r[i] < n by {
        assert(r[i] == w[w.len() - 1 - i]);
    }
    assert forall|i: int| 0 <= i < r.len() - 1 implies linked(edges, paths, #[trigger] r[i], r[i + 1]) by {
        let j = w.len() - 2 - i;
        assert(r[i] == w[j + 1]);
        assert(r[i + 1] == w[j]);
        assert(linked(edges, paths, w[j], w[j + 1]));
        lemma_linked_symmetric(edges, paths, w[j], w[j + 1]);
    }
}

proof fn lemma_walk_join(a: Seq<int>, b: Seq<int>, edges: Seq<InputEdge>, paths: Seq<Vec<usize>>, n: int)
    requires
        is_walk(a, edges, paths, n),
        is_walk(b, edges, paths, n),
        a.last() == b[0],
    ensures
        is_walk(a + b.drop_first(), edges, paths, n),
        (a + b.drop_first())[0] == a[0],
        (a + b.drop_first()).last() == b.last(),
{
    let w = a + b.drop_first();
    assert forall|i: int| 0 <= i < w.len() implies 0 <= #[trigger] w[i] < n by {
        if i < a.len() {
            assert(w[i] == a[i]);
        } else {
            assert(w[i] == b[i - a.len() + 1]);
        }
    }
    assert forall|i: int| 0 <= i < w.len() - 1 implies linked(edges, paths, #[trigger] w[i], w[i + 1]) by {
        if i < a.len() - 1 {
            assert(w[i] == a[i] && w[i + 1] == a[i + 1]);
        } else if i == a.len() - 1 {
            assert(w[i] == b[0]);
            assert(w[i + 1] == b[1]);
        } else {
            let j = i - a.len() + 1;
            assert(w[i] == b[j] && w[i + 1] == b[j + 1]);
        }
    }
    if b.len() == 1 {
        assert(w =~= a);
    }
}

proof fn lemma_walk_stays(
    comps: Seq<Vec<usize>>,
    edges: Seq<InputEdge>,
    paths: Seq<Vec<usize>>,
    n: int,
    c: int,
    w: Seq<int>,
    k: int,
)
    requires
        closed_under_links(comps, edges, paths, n),
        0 <= c < comps.len(),
        is_walk(w, edges, paths, n),
        comps[c]@.contains(w[0] as usize),
        0 <= k < w.len(),
        n <= usize::MAX,
    ensures
        comps[c]@.contains(w[k] as usize),
    decreases k,
{
    if k > 0 {
        lemma_walk_stays(comps, edges, paths, n, c, w, k - 1);
        assert(0 <= w[k - 1] < n && 0 <= w[k] < n);
        assert(linked(edges, paths, w[k - 1], w[k]));
        assert(linked(edges, paths, (w[k - 1] as usize) as int, (w[k] as usize) as int));
    }
}

/// Law: two nodes lie in the same part of `connected_components` exactly
/// when a walk of linked nodes (joined by an edge or sharing a cluster)
/// leads from one to the other.
pub proof fn law_components_are_connectivity_classes(
    comps: Seq<Vec<usize>>,
    edges: Seq<InputEdge>,
    paths: Seq<Vec<usize>>,
    n: int,
    c: int,
    u: usize,
    v: usize,
)
    requires
        is_partition(comps, n),
        closed_under_links(comps, edges, paths, n),
        exists|parent: Seq<usize>, order: Seq<int>| connected_by(comps, edges, paths, parent, order),
        0 <= c < comps.len(),
        comps[c]@.contains(u),
        v < n,
        n <= usize::MAX,
    ensures
        comps[c]@.contains(v) <==> connected(edges, paths, n, u as int, v as int),
{
    let (parent, order) = choose|parent: Seq<usize>, order: Seq<int>| connected_by(comps, edges, paths, parent, order);
    if comps[c]@.contains(v) {
        let wu = lemma_walk_from_first(comps, edges, paths, n, parent, order, c, u);
        let wv = lemma_walk_from_first(comps, edges, paths, n, parent, order, c, v);
        lemma_walk_reversed(wu, edges, paths, n);
        lemma_walk_join(wu.reverse(), wv, edges, paths, n);
        assert(is_walk(wu.reverse() + wv.drop_first(), edges, paths, n));
    }
    if connected(edges, paths, n, u as int, v as int) {
        let w = choose|w: Seq<int>| #[trigger] is_walk(w, edges, paths, n) && w[0] == u as int && w.last() == v as int;
        lemma_walk_stays(comps, edges, paths, n, c, w, w.len() - 1);
    }
}

} // verus!
