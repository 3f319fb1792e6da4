//! Splitting the input graph into the parts that are laid out separately:
//! nodes joined by an edge, or sharing a cluster, belong to one part.
use std::collections::HashMap;

use vstd::prelude::*;

use crate::edges::InputEdge;

verus! {

broadcast use vstd::std_specs::hash::group_hash_axioms;

/// Some edge joins `u` and `v`, in either direction.
pub open spec fn joined_by_edge(edges: Seq<InputEdge>, u: int, v: int) -> bool {
    exists|j: int|
        0 <= j < edges.len() && ((#[trigger] edges[j].tail == u && edges[j].head == v) || (edges[j].tail == v
            && edges[j].head == u))
}

/// `u` and `v` both lie in some cluster.
pub open spec fn share_cluster(paths: Seq<Vec<usize>>, u: int, v: int) -> bool {
    0 <= u < paths.len() && 0 <= v < paths.len() && exists|c: usize|
        #[trigger] paths[u]@.contains(c) && paths[v]@.contains(c)
}

/// `u` and `v` must be laid out together.
pub open spec fn linked(edges: Seq<InputEdge>, paths: Seq<Vec<usize>>, u: int, v: int) -> bool {
    joined_by_edge(edges, u, v) || share_cluster(paths, u, v)
}

/// `a` is `u` itself or one of its neighbours.
pub open spec fn at_or_next(adj: Seq<Vec<usize>>, u: int, a: usize) -> bool {
    a == u || adj[u]@.contains(a)
}

/// Adjacency lists over `n` nodes: symmetric, made of linked pairs, holding
/// every edge, and joining all nodes of a cluster through one hub node.
pub open spec fn adjacency_ok(
    adj: Seq<Vec<usize>>,
    n: int,
    edges: Seq<InputEdge>,
    paths: Seq<Vec<usize>>,
) -> bool {
    &&& adj.len() == n
    &&& forall|u: int, k: int|
        0 <= u < n && 0 <= k < adj[u]@.len() ==> (#[trigger] adj[u]@[k]) < n && linked(
            edges,
            paths,
            u,
            adj[u]@[k] as int,
        ) && adj[adj[u]@[k] as int]@.contains(u as usize)
    &&& forall|j: int|
        0 <= j < edges.len() ==> adj[(#[trigger] edges[j]).tail as int]@.contains(edges[j].head)
            && adj[edges[j].head as int]@.contains(edges[j].tail)
    &&& forall|u: int, v: int|
        0 <= u < n && 0 <= v < n && #[trigger] share_cluster(paths, u, v) ==> exists|a: usize|
            a < n && #[trigger] at_or_next(adj, u, a) && #[trigger] at_or_next(adj, v, a)
}

/// The edges name nodes below `n`, and only nodes below `n` lie in
/// clusters.
pub open spec fn graph_in_range(n: int, edges: Seq<InputEdge>, paths: Seq<Vec<usize>>) -> bool {
    &&& forall|j: int| 0 <= j < edges.len() ==> (#[trigger] edges[j]).tail < n && edges[j].head < n
    &&& forall|v: int| n <= v < paths.len() ==> (#[trigger] paths[v])@.len() == 0
}

/// What the adjacency lists hold once the first `m` edges are in.
spec fn edges_in(adj: Seq<Vec<usize>>, n: int, edges: Seq<InputEdge>, paths: Seq<Vec<usize>>, m: int) -> bool {
    &&& adj.len() == n
    &&& forall|u: int, k: int|
        0 <= u < n && 0 <= k < adj[u]@.len() ==> (#[trigger] adj[u]@[k]) < n && linked(
            edges,
            paths,
            u,
            adj[u]@[k] as int,
        ) && adj[adj[u]@[k] as int]@.contains(u as usize)
    &&& forall|j: int|
        0 <= j < m ==> adj[(#[trigger] edges[j]).tail as int]@.contains(edges[j].head)
            && adj[edges[j].head as int]@.contains(edges[j].tail)
}

/// Adds `b` to the list of `a` and `a` to the list of `b`.
fn link_both(adj: &mut Vec<Vec<usize>>, a: usize, b: usize)
    requires
        a < old(adj)@.len(),
        b < old(adj)@.len(),
    ensures
        final(adj)@.len() == old(adj)@.len(),
        forall|u: int|
            0 <= u < old(adj)@.len() && u != a && u != b ==> #[trigger] final(adj)@[u]@ == old(adj)@[u]@,
        a != b ==> final(adj)@[a as int]@ == old(adj)@[a as int]@.push(b),
        a != b ==> final(adj)@[b as int]@ == old(adj)@[b as int]@.push(a),
        a == b ==> final(adj)@[a as int]@ == old(adj)@[a as int]@.push(b).push(a),
{
    adj[a].push(b);
    adj[b].push(a);
}

proof fn lemma_link_keeps(
    before: Seq<Vec<usize>>,
    after: Seq<Vec<usize>>,
    a: usize,
    b: usize,
    u: int,
    x: usize,
)
    requires
        0 <= u < before.len(),
        a < before.len(),
        b < before.len(),
        after.len() == before.len(),
        forall|w: int| 0 <= w < before.len() && w != a && w != b ==> #[trigger] after[w]@ == before[w]@,
        a != b ==> after[a as int]@ == before[a as int]@.push(b),
        a != b ==> after[b as int]@ == before[b as int]@.push(a),
        a == b ==> after[a as int]@ == before[a as int]@.push(b).push(a),
        before[u]@.contains(x),
    ensures
        after[u]@.contains(x),
{
    let i = choose|i: int| 0 <= i < before[u]@.len() && before[u]@[i] == x;
    assert(after[u]@[i] == x);
}

/// Adjacency lists for `node_count` nodes from the edges, plus links from
/// each node to the first node that lies in the same cluster.
fn build_adjacency(node_count: usize, edges: &[InputEdge], node_cluster_paths: &[Vec<usize>]) -> (adj: Vec<
    Vec<usize>,
>)
    requires
        graph_in_range(node_count as int, edges@, node_cluster_paths@),
    ensures
        adjacency_ok(adj@, node_count as int, edges@, node_cluster_paths@),
{
    let ghost n = node_count as int;
    let ghost paths = node_cluster_paths@;
    let mut adj: Vec<Vec<usize>> = Vec::new();
    let mut v: usize = 0;
    while v < node_count
        invariant
            v <= node_count,
            adj@.len() == v,
            forall|w: int| 0 <= w < v ==> (#[trigger] adj@[w])@.len() == 0,
        decreases node_count - v,
    {
        adj.push(Vec::new());
        v += 1;
    }
    let mut m: usize = 0;
    while m < edges.len()
        invariant
            m <= edges@.len(),
            graph_in_range(n, edges@, paths),
            paths == node_cluster_paths@,
            n == node_count,
            edges_in(adj@, n, edges@, paths, m as int),
        decreases edges.len() - m,
    {
        let tail = edges[m].tail;
        let head = edges[m].head;
        let ghost before = adj@;
        link_both(&mut adj, tail, head);
        proof {
            assert(joined_by_edge(edges@, tail as int, head as int)) by {
                assert(edges@[m as int].tail == tail);
            }
            assert(joined_by_edge(edges@, head as int, tail as int)) by {
                assert(edges@[m as int].tail == tail);
            }
            assert forall|u: int, k: int| 0 <= u < n && 0 <= k < adj@[u]@.len() implies (#[trigger] adj@[u]@[k]) < n
                && linked(edges@, paths, u, adj@[u]@[k] as int) && adj@[adj@[u]@[k] as int]@.contains(
                u as usize,
            ) by {
                let x = adj@[u]@[k];
                if k < before[u]@.len() {
                    assert(x == before[u]@[k]);
                    lemma_link_keeps(before, adj@, tail, head, x as int, u as usize);
                } else {
                    if u == tail as int && x == head {
                        assert(adj@[head as int]@.contains(tail)) by {
                            if tail != head {
                                assert(adj@[head as int]@[before[head as int]@.len() as int] == tail);
                            } else {
                                assert(adj@[head as int]@[before[head as int]@.len() as int + 1] == tail);
                            }
                        }
                    } else {
                        assert(adj@[tail as int]@.contains(head)) by {
                            assert(adj@[tail as int]@[before[tail as int]@.len() as int] == head);
                        }
                    }
                }
            }
            assert forall|j: int| 0 <= j < m + 1 implies adj@[(#[trigger] edges@[j]).tail as int]@.contains(
                edges@[j].head,
            ) && adj@[edges@[j].head as int]@.contains(edges@[j].tail) by {
                if j < m {
                    lemma_link_keeps(before, adj@, tail, head, edges@[j].tail as int, edges@[j].head);
                    lemma_link_keeps(before, adj@, tail, head, edges@[j].head as int, edges@[j].tail);
                } else {
                    assert(adj@[tail as int]@[before[tail as int]@.len() as int] == head);
                    if tail != head {
                        assert(adj@[head as int]@[before[head as int]@.len() as int] == tail);
                    }
                }
            }
        }
        m += 1;
    }
    let mut anchor: HashMap<usize, usize> = HashMap::new();
    let mut v: usize = 0;
    while v < node_cluster_paths.len()
        invariant
            v <= paths.len(),
            graph_in_range(n, edges@, paths),
            paths == node_cluster_paths@,
            n == node_count,
            edges_in(adj@, n, edges@, paths, edges@.len() as int),
            forall|c: usize|
                #[trigger] anchor@.contains_key(c) ==> anchor@[c] < n && anchor@[c] < paths.len() && paths[anchor@[c] as int]@.contains(c),
            forall|w: int, i: int|
                0 <= w < v && 0 <= i < paths[w]@.len() ==> anchor@.contains_key(#[trigger] paths[w]@[i]) && (
                anchor@[paths[w]@[i]] == w || adj@[w]@.contains(anchor@[paths[w]@[i]])),
        decreases paths.len() - v,
    {
        let path = &node_cluster_paths[v];
        let mut i: usize = 0;
        while i < path.len()
            invariant
                i <= path@.len(),
                v < paths.len(),
                path@ == paths[v as int]@,
                graph_in_range(n, edges@, paths),
                paths == node_cluster_paths@,
                n == node_count,
                edges_in(adj@, n, edges@, paths, edges@.len() as int),
                forall|c: usize|
                    #[trigger] anchor@.contains_key(c) ==> anchor@[c] < n && anchor@[c] < paths.len() && paths[anchor@[c] as int]@.contains(c),
                forall|w: int, ii: int|
                    ((0 <= w < v && 0 <= ii < paths[w]@.len()) || (w == v && 0 <= ii < i))
                        ==> anchor@.contains_key(#[trigger] paths[w]@[ii]) && (anchor@[paths[w]@[ii]] == w
                        || adj@[w]@.contains(anchor@[paths[w]@[ii]])),
            decreases path.len() - i,
        {
            let cluster = path[i];
            proof {
                assert(paths[v as int]@.contains(cluster)) by {
                    assert(paths[v as int]@[i as int] == cluster);
                }
                assert(v < n) by {
                    if v >= n {
                        assert(paths[v as int]@.len() == 0);
                    }
                }
            }
            match anchor.get(&cluster) {
                Some(a) => {
                    let a = *a;
                    let ghost before = adj@;
                    link_both(&mut adj, v, a);
                    proof {
                        assert(share_cluster(paths, v as int, a as int)) by {
                            assert(paths[v as int]@.contains(cluster) && paths[a as int]@.contains(cluster));
                        }
                        assert(share_cluster(paths, a as int, v as int)) by {
                            assert(paths[a as int]@.contains(cluster) && paths[v as int]@.contains(cluster));
                        }
                        assert forall|u: int, k: int| 0 <= u < n && 0 <= k < adj@[u]@.len() implies (
                        #[trigger] adj@[u]@[k]) < n && linked(edges@, paths, u, adj@[u]@[k] as int)
                            && adj@[adj@[u]@[k] as int]@.contains(u as usize) by {
                            let x = adj@[u]@[k];
                            if k < before[u]@.len() {
                                assert(x == before[u]@[k]);
                                lemma_link_keeps(before, adj@, v, a, x as int, u as usize);
                            } else {
                                if u == v as int && x == a {
                                    assert(adj@[a as int]@.contains(v)) by {
                                        if v != a {
                                            assert(adj@[a as int]@[before[a as int]@.len() as int] == v);
                                        } else {
                                            assert(adj@[a as int]@[before[a as int]@.len() as int + 1] == v);
                                        }
                                    }
                                } else {
                                    assert(adj@[v as int]@.contains(a)) by {
                                        assert(adj@[v as int]@[before[v as int]@.len() as int] == a);
                                    }
                                }
                            }
                        }
                        assert forall|j: int| 0 <= j < edges@.len() implies adj@[(
                        #[trigger] edges@[j]).tail as int]@.contains(edges@[j].head) && adj@[edges@[j].head as int]@.contains(
                            edges@[j].tail,
                        ) by {
                            lemma_link_keeps(before, adj@, v, a, edges@[j].tail as int, edges@[j].head);
                            lemma_link_keeps(before, adj@, v, a, edges@[j].head as int, edges@[j].tail);
                        }
                        assert forall|w: int, ii: int|
                            ((0 <= w < v && 0 <= ii < paths[w]@.len()) || (w == v && 0 <= ii < i + 1))
                                implies anchor@.contains_key(#[trigger] paths[w]@[ii]) && (anchor@[paths[w]@[ii]]
                                == w || adj@[w]@.contains(anchor@[paths[w]@[ii]])) by {
                            if w == v && ii == i {
                                assert(adj@[v as int]@[before[v as int]@.len() as int] == a);
                            } else {
                                if anchor@[paths[w]@[ii]] != w {
                                    assert(0 <= w < n) by {
                                        if w >= n {
                                            assert(paths[w]@.len() == 0);
                                        }
                                    }
                                    lemma_link_keeps(before, adj@, v, a, w, anchor@[paths[w]@[ii]]);
                                }
                            }
                        }
                    }
                },
                None => {
                    anchor.insert(cluster, v);
                },
            }
            i += 1;
        }
        v += 1;
    }
    proof {
        assert forall|u: int, w: int| 0 <= u < n && 0 <= w < n && #[trigger] share_cluster(paths, u, w) implies exists|
            a: usize,
        | a < n && #[trigger] at_or_next(adj@, u, a) && #[trigger] at_or_next(adj@, w, a) by {
            let c = choose|c: usize| #[trigger] paths[u]@.contains(c) && paths[w]@.contains(c);
            let i = choose|i: int| 0 <= i < paths[u]@.len() && paths[u]@[i] == c;
            let k = choose|k: int| 0 <= k < paths[w]@.len() && paths[w]@[k] == c;
            assert(anchor@.contains_key(paths[u]@[i]));
            assert(anchor@.contains_key(paths[w]@[k]));
            let a = anchor@[c];
            assert(a < n);
            assert(at_or_next(adj@, u, a));
            assert(at_or_next(adj@, w, a));
        }
    }
    adj
}


/// Each entry is smaller than the next.
pub open spec fn strictly_increasing(s: Seq<usize>) -> bool {
    forall|i: int, j: int| 0 <= i < j < s.len() ==> s[i] < s[j]
}

/// No entry occurs twice.
pub open spec fn distinct(s: Seq<usize>) -> bool {
    forall|i: int, j: int| 0 <= i < j < s.len() ==> s[i] != s[j]
}

/// The same nodes in increasing order.
fn sort_nodes(list: &Vec<usize>) -> (sorted: Vec<usize>)
    requires
        distinct(list@),
    ensures
        strictly_increasing(sorted@),
        sorted@.len() == list@.len(),
        forall|x: usize| sorted@.contains(x) <==> list@.contains(x),
{
    broadcast use vstd::seq_lib::group_to_multiset_ensures;

    let mut sorted: Vec<usize> = Vec::new();
    let mut i: usize = 0;
    while i < list.len()
        invariant
            i <= list@.len(),
            distinct(list@),
            strictly_increasing(sorted@),
            sorted@.to_multiset() == list@.subrange(0, i as int).to_multiset(),
        decreases list.len() - i,
    {
        let x = list[i];
        proof {
            assert(!list@.subrange(0, i as int).contains(x)) by {
                if list@.subrange(0, i as int).contains(x) {
                    let j = choose|j: int| 0 <= j < i && list@.subrange(0, i as int)[j] == x;
                    assert(list@[j] == list@[i as int]);
                }
            }
            assert(!sorted@.contains(x)) by {
                vstd::seq_lib::to_multiset_contains(sorted@, x);
                vstd::seq_lib::to_multiset_contains(list@.subrange(0, i as int), x);
            }
        }
        let mut pos: usize = 0;
        while pos < sorted.len() && sorted[pos] < x
            invariant
                pos <= sorted@.len(),
                forall|k: int| 0 <= k < pos ==> #[trigger] sorted@[k] < x,
            decreases sorted.len() - pos,
        {
            pos += 1;
        }
        let ghost before = sorted@;
        sorted.insert(pos, x);
        proof {
            assert(list@.subrange(0, i + 1) =~= list@.subrange(0, i as int).push(x));
            vstd::seq_lib::to_multiset_insert(before, pos as int, x);
            vstd::seq_lib::to_multiset_build(list@.subrange(0, i as int), x);
            if pos < before.len() {
                assert(before[pos as int] != x) by {
                    assert(before.contains(before[pos as int]));
                }
            }
            assert forall|a: int, b: int| 0 <= a < b < sorted@.len() implies sorted@[a] < sorted@[b] by {
                if b < pos {
                } else if b == pos {
                    assert(sorted@[a] == before[a]);
                } else if a < pos {
                    assert(sorted@[a] == before[a]);
                    assert(sorted@[b] == before[b - 1]);
                } else if a == pos {
                    assert(sorted@[b] == before[b - 1]);
                    assert(before[pos as int] >= x);
                    assert(before[pos as int] <= before[b - 1]);
                } else {
                    assert(sorted@[a] == before[a - 1]);
                    assert(sorted@[b] == before[b - 1]);
                }
            }
        }
        i += 1;
    }
    proof {
        assert(list@.subrange(0, list@.len() as int) =~= list@);
        assert forall|x: usize| sorted@.contains(x) <==> list@.contains(x) by {
            vstd::seq_lib::to_multiset_contains(sorted@, x);
            vstd::seq_lib::to_multiset_contains(list@, x);
        }
        assert(sorted@.len() == sorted@.to_multiset().len());
        assert(list@.len() == list@.to_multiset().len());
    }
    sorted
}

/// Some part holds `v`.
pub open spec fn in_some_part(comps: Seq<Vec<usize>>, v: usize) -> bool {
    exists|c: int| 0 <= c < comps.len() && #[trigger] comps[c]@.contains(v)
}

/// `comps` splits the nodes `0..n` into non-empty parts, each listed in
/// increasing order, the parts ordered by their smallest node.
pub open spec fn is_partition(comps: Seq<Vec<usize>>, n: int) -> bool {
    &&& forall|c: int|
        0 <= c < comps.len() ==> (#[trigger] comps[c])@.len() > 0 && strictly_increasing(comps[c]@)
            && forall|i: int| 0 <= i < comps[c]@.len() ==> #[trigger] comps[c]@[i] < n
    &&& forall|c: int, d: int| 0 <= c < d < comps.len() ==> (#[trigger] comps[c])@[0] < (#[trigger] comps[d])@[0]
    &&& forall|v: usize| v < n ==> #[trigger] in_some_part(comps, v)
    &&& forall|c: int, d: int, v: usize|
        0 <= c < comps.len() && 0 <= d < comps.len() && #[trigger] comps[c]@.contains(v)
            && #[trigger] comps[d]@.contains(v) ==> c == d
}

/// No linked pair of nodes is split between two parts.
pub open spec fn closed_under_links(
    comps: Seq<Vec<usize>>,
    edges: Seq<InputEdge>,
    paths: Seq<Vec<usize>>,
    n: int,
) -> bool {
    forall|c: int, u: usize, v: usize|
        0 <= c < comps.len() && #[trigger] comps[c]@.contains(u) && v < n && #[trigger] linked(
            edges,
            paths,
            u as int,
            v as int,
        ) ==> comps[c]@.contains(v)
}

/// Every node of a part other than its smallest one is linked to a node of
/// the same part that comes earlier in `order`: each part is connected.
pub open spec fn connected_by(
    comps: Seq<Vec<usize>>,
    edges: Seq<InputEdge>,
    paths: Seq<Vec<usize>>,
    parent: Seq<usize>,
    order: Seq<int>,
) -> bool {
    forall|c: int, v: usize|
        0 <= c < comps.len() && #[trigger] comps[c]@.contains(v) && v != comps[c]@[0] ==> {
            &&& comps[c]@.contains(parent[v as int])
            &&& linked(edges, paths, parent[v as int] as int, v as int)
            &&& order[parent[v as int] as int] < order[v as int]
        }
}

/// The state of the breadth-first search of part `ci` from `root`: `queue`
/// holds exactly the nodes found so far (`id` equal to `ci`), every earlier
/// part is complete and closed, and `parent` and `order` record how each
/// node was found.
spec fn bfs_state(
    comps: Seq<Vec<usize>>,
    visited: Seq<bool>,
    adj: Seq<Vec<usize>>,
    queue: Seq<usize>,
    id: Seq<int>,
    parent: Seq<usize>,
    order: Seq<int>,
    time: int,
    n: int,
    ci: int,
    root: usize,
) -> bool {
    &&& queue.len() > 0
    &&& queue[0] == root
    &&& root < n
    &&& ci == comps.len()
    &&& visited.len() == n
    &&& id.len() == n
    &&& parent.len() == n
    &&& order.len() == n
    &&& distinct(queue)
    &&& queue.len() <= n
    &&& forall|i: int| 0 <= i < queue.len() ==> #[trigger] queue[i] < n && id[queue[i] as int] == ci
    &&& forall|w: int| 0 <= w < n && #[trigger] id[w] == ci ==> queue.contains(w as usize)
    &&& forall|w: int| 0 <= w < n ==> (visited[w] <==> #[trigger] id[w] >= 0)
    &&& forall|w: int| 0 <= w < n && #[trigger] id[w] >= 0 ==> id[w] <= ci && order[w] < time
    &&& forall|w: int| 0 <= w < n && 0 <= #[trigger] id[w] < ci ==> comps[id[w]]@.contains(w as usize)
    &&& forall|c: int, w: usize| 0 <= c < comps.len() && #[trigger] comps[c]@.contains(w) ==> w < n && id[w as int] == c
    &&& forall|u: int, k: int|
        0 <= u < n && 0 <= id[u] < ci && 0 <= k < adj[u]@.len() ==> #[trigger] id[adj[u]@[k] as int] == id[u]
    &&& forall|c: int|
        0 <= c < comps.len() ==> (#[trigger] comps[c])@.len() > 0 && strictly_increasing(comps[c]@)
    &&& forall|c: int, d: int| 0 <= c < d < comps.len() ==> (#[trigger] comps[c])@[0] < (#[trigger] comps[d])@[0]
    &&& forall|c: int| 0 <= c < comps.len() ==> (#[trigger] comps[c])@[0] < root
    &&& forall|w: int| 0 <= w < root ==> 0 <= #[trigger] id[w] < ci
    &&& forall|w: int|
        0 <= w < n && 0 <= id[w] < ci && w != comps[id[w]]@[0] ==> {
            &&& id[#[trigger] parent[w] as int] == id[w]
            &&& parent[w] < n
            &&& adj[parent[w] as int]@.contains(w as usize)
            &&& order[parent[w] as int] < order[w]
        }
    &&& forall|i: int|
        0 < i < queue.len() ==> {
            &&& id[parent[#[trigger] queue[i] as int] as int] == ci
            &&& parent[queue[i] as int] < n
            &&& adj[parent[queue[i] as int] as int]@.contains(queue[i])
            &&& order[parent[queue[i] as int] as int] < order[queue[i] as int]
        }
}

/// Every neighbour of the first `head` nodes of the queue is in part `ci`.
spec fn expanded(adj: Seq<Vec<usize>>, queue: Seq<usize>, id: Seq<int>, ci: int, head: int) -> bool {
    forall|i: int, k: int|
        0 <= i < head && 0 <= k < adj[queue[i] as int]@.len() ==> #[trigger] id[adj[queue[i] as int]@[k] as int] == ci
}

/// Puts every unvisited neighbour of `queue[head]` on the queue.
fn expand(
    head: usize,
    adj: &Vec<Vec<usize>>,
    visited: &mut Vec<bool>,
    queue: &mut Vec<usize>,
    Ghost(comps): Ghost<Seq<Vec<usize>>>,
    Ghost(id): Ghost<Seq<int>>,
    Ghost(parent): Ghost<Seq<usize>>,
    Ghost(order): Ghost<Seq<int>>,
    Ghost(time): Ghost<int>,
    Ghost(n): Ghost<int>,
    Ghost(ci): Ghost<int>,
    Ghost(root): Ghost<usize>,
) -> (res: Ghost<(Seq<int>, Seq<usize>, Seq<int>, int)>)
    requires
        head < old(queue)@.len(),
        adj@.len() == n,
        forall|u: int, k: int| 0 <= u < n && 0 <= k < adj@[u]@.len() ==> (#[trigger] adj@[u]@[k]) < n
            && adj@[adj@[u]@[k] as int]@.contains(u as usize),
        bfs_state(comps, old(visited)@, adj@, old(queue)@, id, parent, order, time, n, ci, root),
        expanded(adj@, old(queue)@, id, ci, head as int),
    ensures
        bfs_state(comps, final(visited)@, adj@, final(queue)@, res@.0, res@.1, res@.2, res@.3, n, ci, root),
        expanded(adj@, final(queue)@, res@.0, ci, head + 1),
        final(queue)@.len() >= old(queue)@.len(),
{
    let ghost q0 = queue@;
    let ghost mut id = id;
    let ghost mut parent = parent;
    let ghost mut order = order;
    let ghost mut time = time;
    let u = queue[head];
    let neighbours = &adj[u as usize];
    let mut k: usize = 0;
    while k < neighbours.len()
        invariant
            k <= neighbours@.len(),
            head < q0.len(),
            u == q0[head as int],
            u < n,
            neighbours@ == adj@[u as int]@,
            adj@.len() == n,
            forall|uu: int, kk: int| 0 <= uu < n && 0 <= kk < adj@[uu]@.len() ==> (#[trigger] adj@[uu]@[kk]) < n
                && adj@[adj@[uu]@[kk] as int]@.contains(uu as usize),
            bfs_state(comps, visited@, adj@, queue@, id, parent, order, time, n, ci, root),
            queue@.len() >= q0.len(),
            forall|i: int| 0 <= i < q0.len() ==> #[trigger] queue@[i] == q0[i],
            expanded(adj@, queue@, id, ci, head as int),
            forall|kk: int| 0 <= kk < k ==> #[trigger] id[adj@[u as int]@[kk] as int] == ci,
        decreases neighbours.len() - k,
    {
        let w = neighbours[k];
        proof {
            assert(w == adj@[u as int]@[k as int]);
            assert(queue@[head as int] == u);
        }
        if !visited[w] {
            let ghost old_queue = queue@;
            let ghost old_id = id;
            proof {
                assert(adj@[u as int]@.contains(w)) by {
                    assert(adj@[u as int]@[k as int] == w);
                }
                assert(!queue@.contains(w)) by {
                    if queue@.contains(w) {
                        let i = choose|i: int| 0 <= i < queue@.len() && queue@[i] == w;
                        assert(id[queue@[i] as int] == ci);
                    }
                }
                id = id.update(w as int, ci);
                parent = parent.update(w as int, u);
                order = order.update(w as int, time);
                time = time + 1;
            }
            visited.set(w, true);
            queue.push(w);
            proof {
                assert(distinct(queue@)) by {
                    assert forall|a: int, b: int| 0 <= a < b < queue@.len() implies queue@[a] != queue@[b] by {
                        if b == queue@.len() - 1 {
                            assert(old_queue.contains(queue@[a]) ==> queue@[a] != w);
                            assert(old_queue[a] == queue@[a]);
                        }
                    }
                }
                crate::topo::lemma_distinct_bounded(queue@, n);
                assert forall|ww: int| 0 <= ww < n && #[trigger] id[ww] == ci implies queue@.contains(ww as usize) by {
                    if ww != w {
                        assert(old_queue.contains(ww as usize));
                        let i = choose|i: int| 0 <= i < old_queue.len() && old_queue[i] == ww as usize;
                        assert(queue@[i] == ww as usize);
                    } else {
                        assert(queue@[queue@.len() - 1] == w);
                    }
                }
                assert(expanded(adj@, queue@, id, ci, head as int)) by {
                    assert forall|i: int, kk: int| 0 <= i < head && 0 <= kk < adj@[queue@[i] as int]@.len()
                        implies #[trigger] id[adj@[queue@[i] as int]@[kk] as int] == ci by {
                        assert(queue@[i] == old_queue[i]);
                        assert(old_id[adj@[old_queue[i] as int]@[kk] as int] == ci);
                    }
                }
            }
        } else {
            proof {
                if id[w as int] < ci {
                    assert(adj@[w as int]@.contains(u));
                    let kk = choose|kk: int| 0 <= kk < adj@[w as int]@.len() && adj@[w as int]@[kk] == u;
                    assert(id[adj@[w as int]@[kk] as int] == id[w as int]);
                }
            }
        }
        k += 1;
    }
    proof {
        assert forall|i: int, kk: int| 0 <= i < head + 1 && 0 <= kk < adj@[queue@[i] as int]@.len()
            implies #[trigger] id[adj@[queue@[i] as int]@[kk] as int] == ci by {
            if i == head {
                assert(queue@[i] == u);
            }
        }
    }
    Ghost((id, parent, order, time))
}

/// The state of the search between parts: `id` names the part of each
/// visited node.
spec fn search_state(
    comps: Seq<Vec<usize>>,
    visited: Seq<bool>,
    adj: Seq<Vec<usize>>,
    id: Seq<int>,
    parent: Seq<usize>,
    order: Seq<int>,
    time: int,
    n: int,
) -> bool {
    &&& visited.len() == n
    &&& id.len() == n
    &&& parent.len() == n
    &&& order.len() == n
    &&& forall|v: int| 0 <= v < n ==> (visited[v] <==> #[trigger] id[v] >= 0)
    &&& forall|v: int| 0 <= v < n && #[trigger] id[v] >= 0 ==> id[v] < comps.len() && comps[id[v]]@.contains(
        v as usize,
    ) && order[v] < time
    &&& forall|c: int, v: usize| 0 <= c < comps.len() && #[trigger] comps[c]@.contains(v) ==> v < n && id[v as int] == c
    &&& forall|u: int, k: int|
        0 <= u < n && id[u] >= 0 && 0 <= k < adj[u]@.len() ==> #[trigger] id[adj[u]@[k] as int] == id[u]
    &&& forall|c: int|
        0 <= c < comps.len() ==> (#[trigger] comps[c])@.len() > 0 && strictly_increasing(comps[c]@)
    &&& forall|c: int, d: int| 0 <= c < d < comps.len() ==> (#[trigger] comps[c])@[0] < (#[trigger] comps[d])@[0]
    &&& forall|v: int|
        0 <= v < n && id[v] >= 0 && v != comps[id[v]]@[0] ==> {
            &&& id[#[trigger] parent[v] as int] == id[v]
            &&& parent[v] < n
            &&& adj[parent[v] as int]@.contains(v as usize)
            &&& order[parent[v] as int] < order[v]
        }
}

/// Splits the nodes `0..node_count` into the parts that are laid out
/// separately: breadth-first search over the edges (both directions) and
/// over links from each node to the first node that shares one of its
/// clusters. Each part is sorted; the parts are ordered by their smallest
/// node.
pub fn connected_components(
    node_count: usize,
    edges: &[InputEdge],
    node_cluster_paths: &[Vec<usize>],
) -> (components: Vec<Vec<usize>>)
    requires
        graph_in_range(node_count as int, edges@, node_cluster_paths@),
    ensures
        is_partition(components@, node_count as int),
        closed_under_links(components@, edges@, node_cluster_paths@, node_count as int),
        exists|parent: Seq<usize>, order: Seq<int>|
            connected_by(components@, edges@, node_cluster_paths@, parent, order),
{
    let ghost n = node_count as int;
    let adj = build_adjacency(node_count, edges, node_cluster_paths);
    let mut visited: Vec<bool> = Vec::new();
    let mut v: usize = 0;
    while v < node_count
        invariant
            v <= node_count,
            visited@.len() == v,
            forall|w: int| 0 <= w < v ==> !visited@[w],
        decreases node_count - v,
    {
        visited.push(false);
        v += 1;
    }
    let ghost mut id: Seq<int> = Seq::new(n as nat, |i: int| -1int);
    let ghost mut parent: Seq<usize> = Seq::new(n as nat, |i: int| 0usize);
    let ghost mut order: Seq<int> = Seq::new(n as nat, |i: int| 0int);
    let ghost mut time: int = 0;
    let mut components: Vec<Vec<usize>> = Vec::new();
    let mut root: usize = 0;
    while root < node_count
        invariant
            root <= node_count,
            n == node_count,
            adjacency_ok(adj@, n, edges@, node_cluster_paths@),
            search_state(components@, visited@, adj@, id, parent, order, time, n),
            forall|w: int| 0 <= w < root ==> visited@[w],
            forall|c: int| 0 <= c < components@.len() ==> (#[trigger] components@[c])@[0] < root,
        decreases node_count - root,
    {
        if !visited[root] {
            let ghost ci = components@.len() as int;
            visited.set(root, true);
            let mut queue: Vec<usize> = Vec::new();
            queue.push(root);
            proof {
                assert forall|w: int| 0 <= w < n implies #[trigger] id[w] != ci by {
                    if id[w] >= 0 {
                        assert(id[w] < components@.len());
                    }
                }
                id = id.update(root as int, ci);
                order = order.update(root as int, time);
                time = time + 1;
                assert forall|w: int| 0 <= w < n && #[trigger] id[w] == ci implies queue@.contains(w as usize) by {
                    assert(w == root);
                    assert(queue@[0] == root);
                }
                assert forall|w: int| 0 <= w < root implies 0 <= #[trigger] id[w] < ci by {
                    assert(visited@[w]);
                }
                assert(bfs_state(components@, visited@, adj@, queue@, id, parent, order, time, n, ci, root));
            }
            let mut head: usize = 0;
            while head < queue.len()
                invariant
                    head <= queue@.len(),
                    n == node_count,
                    adjacency_ok(adj@, n, edges@, node_cluster_paths@),
                    bfs_state(components@, visited@, adj@, queue@, id, parent, order, time, n, ci, root),
                    expanded(adj@, queue@, id, ci, head as int),
                decreases n - head,
            {
                let Ghost(st) = expand(
                    head,
                    &adj,
                    &mut visited,
                    &mut queue,
                    Ghost(components@),
                    Ghost(id),
                    Ghost(parent),
                    Ghost(order),
                    Ghost(time),
                    Ghost(n),
                    Ghost(ci),
                    Ghost(root),
                );
                proof {
                    id = st.0;
                    parent = st.1;
                    order = st.2;
                    time = st.3;
                }
                head += 1;
            }
            let sorted = sort_nodes(&queue);
            proof {
                assert(sorted@.contains(root)) by {
                    assert(queue@.contains(root)) by {
                        assert(queue@[0] == root);
                    }
                }
                let j = choose|j: int| 0 <= j < sorted@.len() && sorted@[j] == root;
                assert(sorted@[0] == root) by {
                    assert(sorted@.contains(sorted@[0]));
                    assert(queue@.contains(sorted@[0]));
                    let i = choose|i: int| 0 <= i < queue@.len() && queue@[i] == sorted@[0];
                    if sorted@[0] < root {
                        assert(0 <= id[sorted@[0] as int] < ci);
                    }
                    if j > 0 {
                        assert(sorted@[0] < sorted@[j]);
                    }
                }
            }
            components.push(sorted);
            proof {
                lemma_close_part(components@, visited@, adj@, queue@, sorted@, id, parent, order, time, n, ci, root);
            }
        }
        root += 1;
    }
    proof {
        lemma_search_done(components@, visited@, adj@, edges@, node_cluster_paths@, id, parent, order, time, n);
    }
    components
}

/// Once the queue of part `ci` is fully expanded and the part is stored in
/// sorted form, the search state holds again with one more part.
proof fn lemma_close_part(
    comps: Seq<Vec<usize>>,
    visited: Seq<bool>,
    adj: Seq<Vec<usize>>,
    queue: Seq<usize>,
    sorted: Seq<usize>,
    id: Seq<int>,
    parent: Seq<usize>,
    order: Seq<int>,
    time: int,
    n: int,
    ci: int,
    root: usize,
)
    requires
        comps.len() == ci + 1,
        0 <= ci,
        adj.len() == n,
        n <= usize::MAX,
        comps[ci]@ == sorted,
        bfs_state(comps.drop_last(), visited, adj, queue, id, parent, order, time, n, ci, root),
        expanded(adj, queue, id, ci, queue.len() as int),
        strictly_increasing(sorted),
        forall|x: usize| sorted.contains(x) <==> queue.contains(x),
        sorted[0] == root,
    ensures
        search_state(comps, visited, adj, id, parent, order, time, n),
        forall|w: int| 0 <= w <= root ==> visited[w],
        forall|c: int| 0 <= c < comps.len() ==> (#[trigger] comps[c])@[0] <= root,
{
    let prev = comps.drop_last();
    assert(queue[0] == root);
    assert(prev.len() == ci);
    assert forall|c: int| 0 <= c < ci implies #[trigger] comps[c] == prev[c] by {}
    assert forall|c: int, w: usize| 0 <= c < comps.len() && #[trigger] comps[c]@.contains(w) implies w < n && id[w as int]
        == c by {
        if c == ci {
            assert(queue.contains(w));
            let i = choose|i: int| 0 <= i < queue.len() && queue[i] == w;
        } else {
            assert(prev[c]@.contains(w));
        }
    }
    assert forall|w: int| 0 <= w < n && #[trigger] id[w] >= 0 implies id[w] < comps.len() && comps[id[w]]@.contains(
        w as usize,
    ) && order[w] < time by {
        if id[w] == ci {
            assert(queue.contains(w as usize));
        } else {
            assert(prev[id[w]]@.contains(w as usize));
        }
    }
    assert forall|u: int, k: int| 0 <= u < n && id[u] >= 0 && 0 <= k < adj[u]@.len() implies #[trigger] id[adj[u]@[k]
        as int] == id[u] by {
        if id[u] == ci {
            assert(queue.contains(u as usize));
            let i = choose|i: int| 0 <= i < queue.len() && queue[i] == u as usize;
            assert(id[adj[queue[i] as int]@[k] as int] == ci);
        }
    }
    assert forall|c: int| 0 <= c < comps.len() implies (#[trigger] comps[c])@.len() > 0 && strictly_increasing(
        comps[c]@,
    ) by {
        if c == ci {
            assert(queue.contains(root)) by {
                assert(queue[0] == root);
            }
        } else {
            assert(prev[c]@.len() > 0);
        }
    }
    assert forall|c: int, d: int| 0 <= c < d < comps.len() implies (#[trigger] comps[c])@[0] < (
    #[trigger] comps[d])@[0] by {
        if d == ci {
            assert(prev[c]@[0] < root);
        } else {
            assert(prev[c]@[0] < prev[d]@[0]);
        }
    }
    assert forall|w: int|
        0 <= w < n && id[w] >= 0 && w != comps[id[w]]@[0] implies {
            &&& id[#[trigger] parent[w] as int] == id[w]
            &&& parent[w] < n
            &&& adj[parent[w] as int]@.contains(w as usize)
            &&& order[parent[w] as int] < order[w]
        } by {
        if id[w] == ci {
            assert(queue.contains(w as usize));
            let i = choose|i: int| 0 <= i < queue.len() && queue[i] == w as usize;
            if i == 0 {
                assert(w == root);
            }
        } else {
            assert(comps[id[w]] == prev[id[w]]);
        }
    }
    assert forall|w: int| 0 <= w <= root implies visited[w] by {
        if w == root {
            assert(id[queue[0] as int] == ci);
        } else {
            assert(0 <= id[w] < ci);
        }
    }
    assert forall|c: int| 0 <= c < comps.len() implies (#[trigger] comps[c])@[0] <= root by {
        if c < ci {
            assert(prev[c]@[0] < root);
        }
    }
}

/// When every node is visited, the parts form a partition closed under
/// links and connected through the recorded parents.
proof fn lemma_search_done(
    comps: Seq<Vec<usize>>,
    visited: Seq<bool>,
    adj: Seq<Vec<usize>>,
    edges: Seq<InputEdge>,
    paths: Seq<Vec<usize>>,
    id: Seq<int>,
    parent: Seq<usize>,
    order: Seq<int>,
    time: int,
    n: int,
)
    requires
        n <= usize::MAX,
        adjacency_ok(adj, n, edges, paths),
        search_state(comps, visited, adj, id, parent, order, time, n),
        forall|w: int| 0 <= w < n ==> visited[w],
    ensures
        is_partition(comps, n),
        closed_under_links(comps, edges, paths, n),
        exists|parent: Seq<usize>, order: Seq<int>| connected_by(comps, edges, paths, parent, order),
{
    assert forall|c: int| 0 <= c < comps.len() implies (#[trigger] comps[c])@.len() > 0 && strictly_increasing(comps[c]@)
        && forall|i: int| 0 <= i < comps[c]@.len() ==> #[trigger] comps[c]@[i] < n by {
        assert forall|i: int| 0 <= i < comps[c]@.len() implies #[trigger] comps[c]@[i] < n by {
            assert(comps[c]@.contains(comps[c]@[i]));
        }
    }
    assert forall|w: usize| w < n implies #[trigger] in_some_part(comps, w) by {
        assert(visited[w as int]);
        assert(comps[id[w as int]]@.contains(w));
    }
    assert forall|c: int, u: usize, w: usize|
        0 <= c < comps.len() && #[trigger] comps[c]@.contains(u) && w < n && #[trigger] linked(edges, paths, u as int, w as int)
            implies comps[c]@.contains(w) by {
        assert(id[u as int] == c);
        if joined_by_edge(edges, u as int, w as int) {
            let j = choose|j: int|
                0 <= j < edges.len() && ((#[trigger] edges[j].tail == u as int && edges[j].head == w as int) || (
                edges[j].tail == w as int && edges[j].head == u as int));
            assert(adj[u as int]@.contains(w));
            let kk = choose|kk: int| 0 <= kk < adj[u as int]@.len() && adj[u as int]@[kk] == w;
            assert(id[adj[u as int]@[kk] as int] == id[u as int]);
        } else {
            assert(share_cluster(paths, u as int, w as int));
            let a = choose|a: usize| a < n && #[trigger] at_or_next(adj, u as int, a) && #[trigger] at_or_next(adj, w as int, a);
            if a != u {
                let kk = choose|kk: int| 0 <= kk < adj[u as int]@.len() && adj[u as int]@[kk] == a;
                assert(id[adj[u as int]@[kk] as int] == id[u as int]);
            }
            assert(id[a as int] == c);
            if a != w {
                assert(visited[w as int]);
                let kk = choose|kk: int| 0 <= kk < adj[w as int]@.len() && adj[w as int]@[kk] == a;
                assert(id[adj[w as int]@[kk] as int] == id[w as int]);
            }
            assert(id[w as int] == c);
        }
    }
    assert forall|c: int, w: usize|
        0 <= c < comps.len() && #[trigger] comps[c]@.contains(w) && w != comps[c]@[0] implies {
            &&& comps[c]@.contains(parent[w as int])
            &&& linked(edges, paths, parent[w as int] as int, w as int)
            &&& order[parent[w as int] as int] < order[w as int]
        } by {
        assert(id[w as int] == c);
        let p = parent[w as int];
        assert(adj[p as int]@.contains(w));
        let kk = choose|kk: int| 0 <= kk < adj[p as int]@.len() && adj[p as int]@[kk] == w;
        assert(linked(edges, paths, p as int, adj[p as int]@[kk] as int));
    }
    assert(connected_by(comps, edges, paths, parent, order));
}

} // verus!
