//! Transposition: swapping neighbouring nodes of a rank while that lowers
//! the weighted crossings of their segments. The loop ends because every
//! swap lowers a crossing potential by exactly the gain it was made for.
use vstd::prelude::*;

use crate::crossings::LayerNode;
use crate::edges::{mincross_weight_spec, SegmentEdge};
use crate::finite_sums::{
    double_sum, lemma_double_sum_le, lemma_double_sum_linear, lemma_double_sum_lists,
    lemma_double_sum_nonneg, lemma_double_sum_product, lemma_double_sum_transpose, lemma_sum_le,
    lemma_sum_list_congr, lemma_sum_nonneg, lemma_sum_over_list, sum_list, sum_range,
};
use crate::layer_order::{
    cross_term, far_end, left_to_right, must_stay_left, lemma_side_cross_sum, listed_cross, listed_fit,
    refresh_layer_order, refreshed, side_cross, weight_fits, weight_sum, weighted_in_cross,
    weighted_out_cross, with_order,
};

verus! {

/// Order of node `x`.
pub open spec fn ord(nodes: Seq<LayerNode>, x: usize) -> int {
    nodes[x as int].order as int
}

/// Rank of node `x`.
pub open spec fn rk(nodes: Seq<LayerNode>, x: usize) -> int {
    nodes[x as int].rank as int
}

/// The weight the ordered pair of segments `e`, `f` adds to the crossing
/// potential: the product of their weights when their heads lie on one rank
/// with `e`'s head to the left and `e`'s tail to the right of `f`'s (or on the
/// same tail with the higher edge index), and again when they share a head
/// and `e`'s tail lies to the left with the higher edge index.
pub open spec fn pair_weight(e: SegmentEdge, f: SegmentEdge, nodes: Seq<LayerNode>) -> int {
    if e.flat || f.flat {
        0
    } else {
        let ww = mincross_weight_spec(e) * mincross_weight_spec(f);
        (if rk(nodes, e.to) == rk(nodes, f.to) && ord(nodes, e.to) < ord(nodes, f.to) && (ord(nodes, e.from) > ord(
            nodes,
            f.from,
        ) || (ord(nodes, e.from) == ord(nodes, f.from) && e.edge_index > f.edge_index)) {
            ww
        } else {
            0
        }) + (if e.to == f.to && rk(nodes, e.from) == rk(nodes, f.from) && ord(nodes, e.from) < ord(nodes, f.from)
            && e.edge_index > f.edge_index {
            ww
        } else {
            0
        })
    }
}

/// The crossing potential of an ordering: the pair weights of all ordered
/// pairs of segments.
pub open spec fn crossing_potential(segs: Seq<SegmentEdge>, nodes: Seq<LayerNode>) -> int {
    double_sum(segs.len() as int, |a: int, b: int| pair_weight(segs[a], segs[b], nodes))
}

/// Every layer lists nodes of its rank at their recorded orders, and every
/// node is listed in the layer of its rank at its order.
pub open spec fn layered(layers: Seq<Vec<usize>>, nodes: Seq<LayerNode>) -> bool {
    &&& forall|r: int, i: int|
        0 <= r < layers.len() && 0 <= i < layers[r]@.len() ==> (#[trigger] layers[r]@[i]) < nodes.len()
            && nodes[layers[r]@[i] as int].rank == r && nodes[layers[r]@[i] as int].order == i
    &&& forall|x: int|
        0 <= x < nodes.len() ==> (#[trigger] nodes[x]).rank < layers.len() && nodes[x].order
            < layers[nodes[x].rank as int]@.len() && layers[nodes[x].rank as int]@[nodes[x].order as int] == x
}

/// Every segment that is not flat joins a node to a node on the next rank.
pub open spec fn segments_layered(segs: Seq<SegmentEdge>, nodes: Seq<LayerNode>) -> bool {
    forall|s: int|
        0 <= s < segs.len() && !(#[trigger] segs[s]).flat ==> segs[s].from < nodes.len() && segs[s].to < nodes.len()
            && nodes[segs[s].to as int].rank == nodes[segs[s].from as int].rank + 1
}

/// The end of a segment a list is kept at: its head for incoming lists,
/// its tail for outgoing lists.
pub open spec fn near_end(s: SegmentEdge, at_head: bool) -> usize {
    if at_head {
        s.to
    } else {
        s.from
    }
}

/// `lists[x]` names, in increasing order, exactly the segments that are not
/// flat and whose near end is `x`.
pub open spec fn lists_exact(lists: Seq<Vec<usize>>, segs: Seq<SegmentEdge>, at_head: bool) -> bool {
    &&& forall|x: int, k: int|
        0 <= x < lists.len() && 0 <= k < lists[x]@.len() ==> (#[trigger] lists[x]@[k]) < segs.len()
            && !segs[lists[x]@[k] as int].flat && near_end(segs[lists[x]@[k] as int], at_head) == x
    &&& forall|x: int, a: int, b: int|
        0 <= x < lists.len() && 0 <= a < b < lists[x]@.len() ==> #[trigger] lists[x]@[a] < #[trigger] lists[x]@[b]
    &&& forall|s: int|
        0 <= s < segs.len() && !(#[trigger] segs[s]).flat && near_end(segs[s], at_head) < lists.len()
            ==> lists[near_end(segs[s], at_head) as int]@.contains(s as usize)
}

/// `layer` with the entries at `i` and `i + 1` exchanged.
pub open spec fn swapped(layer: Seq<usize>, i: int) -> Seq<usize> {
    layer.update(i, layer[i + 1]).update(i + 1, layer[i])
}

/// The nodes with the orders of `v` and `w` exchanged.
pub open spec fn orders_exchanged(nodes: Seq<LayerNode>, v: usize, w: usize) -> Seq<LayerNode> {
    nodes.update(v as int, with_order(nodes[v as int], nodes[w as int].order as int)).update(
        w as int,
        with_order(nodes[w as int], nodes[v as int].order as int),
    )
}

proof fn lemma_layer_distinct(layers: Seq<Vec<usize>>, nodes: Seq<LayerNode>, r: int, a: int, b: int)
    requires
        layered(layers, nodes),
        0 <= r < layers.len(),
        0 <= a < layers[r]@.len(),
        0 <= b < layers[r]@.len(),
        a != b,
    ensures
        layers[r]@[a] != layers[r]@[b],
{
    assert(nodes[layers[r]@[a] as int].order == a);
    assert(nodes[layers[r]@[b] as int].order == b);
}

/// Refreshing the orders after exchanging two neighbours of a layer
/// exchanges their orders and keeps everything else; the result is layered
/// again.
proof fn lemma_refresh_swapped(layers: Seq<Vec<usize>>, nodes: Seq<LayerNode>, r: int, i: int, nl: Vec<usize>)
    requires
        layered(layers, nodes),
        0 <= r < layers.len(),
        0 <= i,
        i + 1 < layers[r]@.len(),
        nl@ == swapped(layers[r]@, i),
        nodes.len() <= usize::MAX,
    ensures
        refreshed(nl@, nodes) == orders_exchanged(nodes, layers[r]@[i], layers[r]@[i + 1]),
        layered(layers.update(r, nl), orders_exchanged(nodes, layers[r]@[i], layers[r]@[i + 1])),
{
    let layer = layers[r]@;
    let v = layer[i];
    let w = layer[i + 1];
    lemma_layer_distinct(layers, nodes, r, i, i + 1);
    let n2 = orders_exchanged(nodes, v, w);
    assert forall|x: int| 0 <= x < nodes.len() implies refreshed(nl@, nodes)[x] == n2[x] by {
        if nl@.contains(x as usize) {
            let k = choose|k: int| 0 <= k < nl@.len() && nl@[k] == x as usize;
            assert forall|j: int| 0 <= j < nl@.len() && j != k implies nl@[j] != x as usize by {
                let kk = if k == i {
                    i + 1
                } else if k == i + 1 {
                    i
                } else {
                    k
                };
                let jj = if j == i {
                    i + 1
                } else if j == i + 1 {
                    i
                } else {
                    j
                };
                assert(nl@[k] == layer[kk]);
                assert(nl@[j] == layer[jj]);
                lemma_layer_distinct(layers, nodes, r, kk, jj);
            }
            crate::layer_order::lemma_last_pos_unique(nl@, x as usize, k);
            let kk = if k == i {
                i + 1
            } else if k == i + 1 {
                i
            } else {
                k
            };
            assert(nl@[k] == layer[kk]);
            assert(nodes[x].order == kk);
            if x == v as int {
                assert(k == i + 1);
            } else if x == w as int {
                assert(k == i);
            } else {
                assert(k == kk);
                assert(with_order(nodes[x], k) == nodes[x]);
            }
        } else {
            if x == v as int {
                assert(nl@[i + 1] == v);
            }
            if x == w as int {
                assert(nl@[i] == w);
            }
        }
    }
    assert(refreshed(nl@, nodes) =~= n2);
    let l2 = layers.update(r, nl);
    assert forall|q: int, j: int| 0 <= q < l2.len() && 0 <= j < l2[q]@.len() implies (#[trigger] l2[q]@[j])
        < n2.len() && n2[l2[q]@[j] as int].rank == q && n2[l2[q]@[j] as int].order == j by {
        if q == r {
            let jj = if j == i {
                i + 1
            } else if j == i + 1 {
                i
            } else {
                j
            };
            assert(l2[q]@[j] == layer[jj]);
            if jj != i && jj != i + 1 {
                lemma_layer_distinct(layers, nodes, r, jj, i);
                lemma_layer_distinct(layers, nodes, r, jj, i + 1);
            }
        } else {
            assert(l2[q] == layers[q]);
            let y = layers[q]@[j];
            assert(nodes[y as int].rank == q);
        }
    }
    assert forall|x: int| 0 <= x < n2.len() implies (#[trigger] n2[x]).rank < l2.len() && n2[x].order
        < l2[n2[x].rank as int]@.len() && l2[n2[x].rank as int]@[n2[x].order as int] == x by {
        assert(nodes[x].rank < layers.len());
        if x == v as int {
            assert(n2[x].order == i + 1);
            assert(nl@[i + 1] == v);
        } else if x == w as int {
            assert(n2[x].order == i);
            assert(nl@[i] == w);
        } else {
            assert(n2[x] == nodes[x]);
            if nodes[x].rank == r {
                let o = nodes[x].order as int;
                assert(layer[o] == x);
                assert(o != i && o != i + 1);
                assert(nl@[o] == layer[o]);
            }
        }
    }
}

/// `e` is a segment that is not flat and enters `x`.
pub open spec fn enters(e: SegmentEdge, x: usize) -> bool {
    !e.flat && e.to == x
}

/// `e` is a segment that is not flat and leaves `x`.
pub open spec fn leaves(e: SegmentEdge, x: usize) -> bool {
    !e.flat && e.from == x
}

/// Crossing weight of `e` against `f` counted at their heads.
pub open spec fn head_cross(e: SegmentEdge, f: SegmentEdge, nodes: Seq<LayerNode>) -> int {
    cross_term(e, f, ord(nodes, e.from), ord(nodes, f.from))
}

/// Crossing weight of `e` against `f` counted at their tails.
pub open spec fn tail_cross(e: SegmentEdge, f: SegmentEdge, nodes: Seq<LayerNode>) -> int {
    cross_term(e, f, ord(nodes, e.to), ord(nodes, f.to))
}

spec fn both_weights(e: SegmentEdge, f: SegmentEdge) -> int {
    mincross_weight_spec(e) * mincross_weight_spec(f)
}

/// The part of the change of a pair weight that comes from pairs leaving
/// the exchanged nodes and ending on different heads, before the pair is
/// read the other way round.
spec fn tail_shift(e: SegmentEdge, f: SegmentEdge, nodes: Seq<LayerNode>, v: usize, w: usize) -> int {
    (if leaves(e, v) && leaves(f, w) && ord(nodes, e.to) < ord(nodes, f.to) {
        both_weights(e, f)
    } else {
        0
    }) - (if leaves(e, w) && leaves(f, v) && ord(nodes, e.to) < ord(nodes, f.to) {
        both_weights(e, f)
    } else {
        0
    })
}

/// The part of the change of a pair weight that comes from pairs leaving
/// the exchanged nodes towards one head.
spec fn tie_shift(e: SegmentEdge, f: SegmentEdge, v: usize, w: usize) -> int {
    (if leaves(e, w) && leaves(f, v) && e.to == f.to && e.edge_index > f.edge_index {
        both_weights(e, f)
    } else {
        0
    }) - (if leaves(e, v) && leaves(f, w) && e.to == f.to && e.edge_index > f.edge_index {
        both_weights(e, f)
    } else {
        0
    })
}

/// Head-side crossing weight of `e` into `x` against `f` into `y`.
spec fn in_term(e: SegmentEdge, f: SegmentEdge, nodes: Seq<LayerNode>, x: usize, y: usize) -> int {
    if enters(e, x) && enters(f, y) {
        head_cross(e, f, nodes)
    } else {
        0
    }
}

/// Tail-side crossing weight of `e` out of `x` against `f` out of `y`.
spec fn out_term(e: SegmentEdge, f: SegmentEdge, nodes: Seq<LayerNode>, x: usize, y: usize) -> int {
    if leaves(e, x) && leaves(f, y) {
        tail_cross(e, f, nodes)
    } else {
        0
    }
}

/// Facts about the orders of one rank after two neighbours exchanged
/// their orders.
proof fn lemma_exchange_facts(layers: Seq<Vec<usize>>, nodes: Seq<LayerNode>, r: int, i: int, x: usize, y: usize)
    requires
        layered(layers, nodes),
        0 <= r < layers.len(),
        0 <= i,
        i + 1 < layers[r]@.len(),
        x < nodes.len(),
        y < nodes.len(),
        nodes[x as int].rank == nodes[y as int].rank,
    ensures
        ({
            let v = layers[r]@[i];
            let w = layers[r]@[i + 1];
            let n2 = orders_exchanged(nodes, v, w);
            &&& (ord(nodes, x) == ord(nodes, y) <==> x == y)
            &&& (ord(n2, x) == ord(n2, y) <==> x == y)
            &&& rk(n2, x) == rk(nodes, x)
            &&& (x != v && x != w ==> ord(n2, x) == ord(nodes, x))
            &&& ord(n2, v) == i + 1
            &&& ord(n2, w) == i
            &&& ord(nodes, v) == i
            &&& ord(nodes, w) == i + 1
            &&& (!((x == v && y == w) || (x == w && y == v)) ==> (ord(n2, x) < ord(n2, y) <==> ord(nodes, x) < ord(
                nodes,
                y,
            )))
        }),
{
    let v = layers[r]@[i];
    let w = layers[r]@[i + 1];
    lemma_layer_distinct(layers, nodes, r, i, i + 1);
    let n2 = orders_exchanged(nodes, v, w);
    assert(nodes[x as int].rank < layers.len());
    assert(layers[nodes[x as int].rank as int]@[nodes[x as int].order as int] == x);
    assert(layers[nodes[y as int].rank as int]@[nodes[y as int].order as int] == y);
    assert(nodes[v as int].rank == r && nodes[w as int].rank == r);
    if nodes[x as int].rank == r {
        if x != v && x != w {
            assert(ord(nodes, x) != i && ord(nodes, x) != i + 1);
        }
        if y != v && y != w {
            assert(ord(nodes, y) != i && ord(nodes, y) != i + 1);
        }
    }
}

/// How the weight of one ordered pair of segments changes when two
/// neighbours exchange their orders.
proof fn lemma_pair_weight_change(
    layers: Seq<Vec<usize>>,
    nodes: Seq<LayerNode>,
    segs: Seq<SegmentEdge>,
    r: int,
    i: int,
    a: int,
    b: int,
)
    requires
        layered(layers, nodes),
        segments_layered(segs, nodes),
        0 <= r < layers.len(),
        0 <= i,
        i + 1 < layers[r]@.len(),
        0 <= a < segs.len(),
        0 <= b < segs.len(),
    ensures
        ({
            let v = layers[r]@[i];
            let w = layers[r]@[i + 1];
            let n2 = orders_exchanged(nodes, v, w);
            let e = segs[a];
            let f = segs[b];
            pair_weight(e, f, n2) == pair_weight(e, f, nodes) + in_term(e, f, nodes, w, v) - in_term(e, f, nodes, v, w)
                + tail_shift(e, f, nodes, v, w) + tie_shift(e, f, v, w)
        }),
{
    let v = layers[r]@[i];
    let w = layers[r]@[i + 1];
    let e = segs[a];
    let f = segs[b];
    if !e.flat && !f.flat {
        assert(segs[a].from < nodes.len() && segs[b].from < nodes.len());
        if nodes[e.to as int].rank == nodes[f.to as int].rank {
            lemma_exchange_facts(layers, nodes, r, i, e.to, f.to);
            lemma_exchange_facts(layers, nodes, r, i, e.from, f.from);
        }
        if nodes[e.from as int].rank == nodes[f.from as int].rank {
            lemma_exchange_facts(layers, nodes, r, i, e.from, f.from);
            lemma_exchange_facts(layers, nodes, r, i, e.to, f.to);
        }
        lemma_exchange_facts(layers, nodes, r, i, e.to, e.to);
        lemma_exchange_facts(layers, nodes, r, i, f.to, f.to);
        lemma_exchange_facts(layers, nodes, r, i, e.from, e.from);
        lemma_exchange_facts(layers, nodes, r, i, f.from, f.from);
        assert(nodes[v as int].rank == r && nodes[w as int].rank == r);
    }
}

/// The tail-side part of a pair's change, read the other way round, plus
/// its tie part, is the change of the tail-side crossing weight.
proof fn lemma_tail_identity(
    layers: Seq<Vec<usize>>,
    nodes: Seq<LayerNode>,
    segs: Seq<SegmentEdge>,
    r: int,
    i: int,
    a: int,
    b: int,
)
    requires
        layered(layers, nodes),
        segments_layered(segs, nodes),
        0 <= r < layers.len(),
        0 <= i,
        i + 1 < layers[r]@.len(),
        0 <= a < segs.len(),
        0 <= b < segs.len(),
    ensures
        ({
            let v = layers[r]@[i];
            let w = layers[r]@[i + 1];
            let e = segs[a];
            let f = segs[b];
            tail_shift(f, e, nodes, v, w) + tie_shift(e, f, v, w) == out_term(e, f, nodes, w, v) - out_term(
                e,
                f,
                nodes,
                v,
                w,
            )
        }),
{
    let v = layers[r]@[i];
    let w = layers[r]@[i + 1];
    let e = segs[a];
    let f = segs[b];
    lemma_layer_distinct(layers, nodes, r, i, i + 1);
    if !e.flat && !f.flat {
        assert(nodes[v as int].rank == r && nodes[w as int].rank == r);
        if (e.from == v && f.from == w) || (e.from == w && f.from == v) {
            lemma_exchange_facts(layers, nodes, r, i, e.to, f.to);
        }
        assert(both_weights(f, e) == both_weights(e, f)) by (nonlinear_arith);
    }
}

/// Membership in an exact list is the property the list collects.
proof fn lemma_list_membership(lists: Seq<Vec<usize>>, segs: Seq<SegmentEdge>, at_head: bool, x: usize, s: int)
    requires
        lists_exact(lists, segs, at_head),
        x < lists.len(),
        0 <= s < segs.len(),
        segs.len() <= usize::MAX,
    ensures
        lists[x as int]@.contains(s as usize) <==> (!segs[s].flat && near_end(segs[s], at_head) == x),
{
    if lists[x as int]@.contains(s as usize) {
        let k = choose|k: int| 0 <= k < lists[x as int]@.len() && lists[x as int]@[k] == s as usize;
        assert(lists[x as int]@[k] < segs.len());
    }
}

/// The double sum of the head-side terms of `x` against `y` is what the
/// incoming lists give.
proof fn lemma_in_sum(segs: Seq<SegmentEdge>, nodes: Seq<LayerNode>, inc: Seq<Vec<usize>>, x: usize, y: usize)
    requires
        lists_exact(inc, segs, true),
        x < inc.len(),
        y < inc.len(),
        segs.len() <= usize::MAX,
    ensures
        double_sum(segs.len() as int, |a: int, b: int| in_term(segs[a], segs[b], nodes, x, y)) == side_cross(
            inc[x as int]@,
            inc[y as int]@,
            segs,
            nodes,
            true,
        ),
{
    let n = segs.len() as int;
    let la = inc[x as int]@;
    let lb = inc[y as int]@;
    let big = |a: int, b: int| listed_cross(segs, nodes, true, a, b);
    let g = |a: int, b: int| in_term(segs[a], segs[b], nodes, x, y);
    assert forall|a: int, b: int| 0 <= a < n && 0 <= b < n implies #[trigger] g(a, b) == (if la.contains(a as usize)
        && lb.contains(b as usize) {
        big(a, b)
    } else {
        0
    }) by {
        lemma_list_membership(inc, segs, true, x, a);
        lemma_list_membership(inc, segs, true, y, b);
    }
    lemma_double_sum_lists(n, la, lb, big, g);
    lemma_side_cross_sum(la, lb, segs, nodes, true);
    let f1 = |b: int| sum_list(la, |a: int| big(a, b));
    let f2 = |b: int| sum_list(la, |a: int| listed_cross(segs, nodes, true, a, b));
    assert forall|k: int| 0 <= k < lb.len() implies f1(#[trigger] lb[k] as int) == f2(lb[k] as int) by {
        let b = lb[k] as int;
        lemma_sum_list_congr(la, |a: int| big(a, b), |a: int| listed_cross(segs, nodes, true, a, b));
    }
    lemma_sum_list_congr(lb, f1, f2);
}

/// The double sum of the tail-side terms of `x` against `y` is what the
/// outgoing lists give.
proof fn lemma_out_sum(segs: Seq<SegmentEdge>, nodes: Seq<LayerNode>, outg: Seq<Vec<usize>>, x: usize, y: usize)
    requires
        lists_exact(outg, segs, false),
        x < outg.len(),
        y < outg.len(),
        segs.len() <= usize::MAX,
    ensures
        double_sum(segs.len() as int, |a: int, b: int| out_term(segs[a], segs[b], nodes, x, y)) == side_cross(
            outg[x as int]@,
            outg[y as int]@,
            segs,
            nodes,
            false,
        ),
{
    let n = segs.len() as int;
    let la = outg[x as int]@;
    let lb = outg[y as int]@;
    let big = |a: int, b: int| listed_cross(segs, nodes, false, a, b);
    let g = |a: int, b: int| out_term(segs[a], segs[b], nodes, x, y);
    assert forall|a: int, b: int| 0 <= a < n && 0 <= b < n implies #[trigger] g(a, b) == (if la.contains(a as usize)
        && lb.contains(b as usize) {
        big(a, b)
    } else {
        0
    }) by {
        lemma_list_membership(outg, segs, false, x, a);
        lemma_list_membership(outg, segs, false, y, b);
    }
    lemma_double_sum_lists(n, la, lb, big, g);
    lemma_side_cross_sum(la, lb, segs, nodes, false);
    let f1 = |b: int| sum_list(la, |a: int| big(a, b));
    let f2 = |b: int| sum_list(la, |a: int| listed_cross(segs, nodes, false, a, b));
    assert forall|k: int| 0 <= k < lb.len() implies f1(#[trigger] lb[k] as int) == f2(lb[k] as int) by {
        let b = lb[k] as int;
        lemma_sum_list_congr(la, |a: int| big(a, b), |a: int| listed_cross(segs, nodes, false, a, b));
    }
    lemma_sum_list_congr(lb, f1, f2);
}

/// Exchanging the orders of two neighbours `v`, `w` of a rank changes the
/// crossing potential by exactly the difference between the crossing
/// weights of their segments read with `w` first and with `v` first.
pub proof fn lemma_swap_changes_potential(
    layers: Seq<Vec<usize>>,
    nodes: Seq<LayerNode>,
    segs: Seq<SegmentEdge>,
    inc: Seq<Vec<usize>>,
    outg: Seq<Vec<usize>>,
    r: int,
    i: int,
)
    requires
        layered(layers, nodes),
        segments_layered(segs, nodes),
        lists_exact(inc, segs, true),
        lists_exact(outg, segs, false),
        inc.len() == nodes.len(),
        outg.len() == nodes.len(),
        segs.len() <= usize::MAX,
        0 <= r < layers.len(),
        0 <= i,
        i + 1 < layers[r]@.len(),
    ensures
        ({
            let v = layers[r]@[i];
            let w = layers[r]@[i + 1];
            crossing_potential(segs, orders_exchanged(nodes, v, w)) == crossing_potential(segs, nodes)
                + side_cross(inc[w as int]@, inc[v as int]@, segs, nodes, true) - side_cross(
                inc[v as int]@,
                inc[w as int]@,
                segs,
                nodes,
                true,
            ) + side_cross(outg[w as int]@, outg[v as int]@, segs, nodes, false) - side_cross(
                outg[v as int]@,
                outg[w as int]@,
                segs,
                nodes,
                false,
            )
        }),
{
    let v = layers[r]@[i];
    let w = layers[r]@[i + 1];
    let n = segs.len() as int;
    let n2 = orders_exchanged(nodes, v, w);
    assert(v < nodes.len() && w < nodes.len());
    let p2 = |a: int, b: int| pair_weight(segs[a], segs[b], n2);
    let p1 = |a: int, b: int| pair_weight(segs[a], segs[b], nodes);
    let iwv = |a: int, b: int| in_term(segs[a], segs[b], nodes, w, v);
    let ivw = |a: int, b: int| in_term(segs[a], segs[b], nodes, v, w);
    let ts = |a: int, b: int| tail_shift(segs[a], segs[b], nodes, v, w);
    let tst = |a: int, b: int| tail_shift(segs[b], segs[a], nodes, v, w);
    let ti = |a: int, b: int| tie_shift(segs[a], segs[b], v, w);
    let owv = |a: int, b: int| out_term(segs[a], segs[b], nodes, w, v);
    let ovw = |a: int, b: int| out_term(segs[a], segs[b], nodes, v, w);
    let zero = |a: int, b: int| 0int;
    assert forall|a: int, b: int| 0 <= a < n && 0 <= b < n implies #[trigger] p2(a, b) == p1(a, b) + iwv(a, b) - ivw(
        a,
        b,
    ) + ts(a, b) + ti(a, b) by {
        lemma_pair_weight_change(layers, nodes, segs, r, i, a, b);
    }
    lemma_double_sum_linear(n, p1, iwv, ivw, ts, ti, p2);
    lemma_double_sum_transpose(n, ts, tst);
    assert forall|a: int, b: int| 0 <= a < n && 0 <= b < n implies #[trigger] owv(a, b) == ovw(a, b) + tst(a, b)
        - zero(a, b) + ti(a, b) + zero(a, b) by {
        lemma_tail_identity(layers, nodes, segs, r, i, a, b);
    }
    lemma_double_sum_linear(n, ovw, tst, zero, ti, zero, owv);
    assert(double_sum(n, zero) == 0) by {
        assert forall|a: int, b: int| 0 <= a < n && 0 <= b < n implies #[trigger] zero(a, b) == zero(a, b) + zero(a, b)
            - zero(a, b) + zero(a, b) + zero(a, b) by {}
        lemma_double_sum_linear(n, zero, zero, zero, zero, zero, zero);
    }
    lemma_in_sum(segs, nodes, inc, w, v);
    lemma_in_sum(segs, nodes, inc, v, w);
    lemma_out_sum(segs, nodes, outg, w, v);
    lemma_out_sum(segs, nodes, outg, v, w);
}

/// The crossing weight a segment carries, zero for a flat one.
pub open spec fn segment_load(s: SegmentEdge) -> int {
    if s.flat {
        0
    } else {
        mincross_weight_spec(s)
    }
}

/// The crossing weights of all segments that are not flat, summed.
pub open spec fn total_load(segs: Seq<SegmentEdge>) -> int {
    sum_range(segs.len() as int, |k: int| segment_load(segs[k]))
}

proof fn lemma_mincross_weight_pos(s: SegmentEdge)
    ensures
        mincross_weight_spec(s) >= 1,
{
}

/// The crossing potential lies between zero and twice the square of the
/// total load.
pub proof fn lemma_potential_bounds(segs: Seq<SegmentEdge>, nodes: Seq<LayerNode>)
    ensures
        0 <= crossing_potential(segs, nodes) <= 2 * total_load(segs) * total_load(segs),
{
    let n = segs.len() as int;
    let pw = |a: int, b: int| pair_weight(segs[a], segs[b], nodes);
    let load = |k: int| segment_load(segs[k]);
    let cap = |a: int, b: int| 2 * load(a) * load(b);
    assert forall|a: int, b: int| 0 <= a < n && 0 <= b < n implies 0 <= #[trigger] pw(a, b) <= cap(a, b) by {
        lemma_mincross_weight_pos(segs[a]);
        lemma_mincross_weight_pos(segs[b]);
        let wa = mincross_weight_spec(segs[a]);
        let wb = mincross_weight_spec(segs[b]);
        assert(wa * wb >= 1 && 2 * wa * wb == wa * wb + wa * wb) by (nonlinear_arith)
            requires
                wa >= 1,
                wb >= 1,
        ;
    }
    lemma_double_sum_nonneg(n, pw);
    lemma_double_sum_le(n, pw, cap);
    lemma_double_sum_product(n, 2, load, cap);
}

proof fn lemma_weight_sum_list(l: Seq<usize>, segs: Seq<SegmentEdge>)
    ensures
        weight_sum(l, segs) == sum_list(l, |k: int| mincross_weight_spec(segs[k])),
    decreases l.len(),
{
    if l.len() > 0 {
        lemma_weight_sum_list(l.drop_last(), segs);
    }
}

/// The segments of one exact list carry at most the total load.
pub proof fn lemma_list_load(lists: Seq<Vec<usize>>, segs: Seq<SegmentEdge>, at_head: bool, x: int)
    requires
        lists_exact(lists, segs, at_head),
        0 <= x < lists.len(),
        segs.len() <= usize::MAX,
    ensures
        0 <= weight_sum(lists[x]@, segs) <= total_load(segs),
{
    let n = segs.len() as int;
    let l = lists[x]@;
    let w = |k: int| mincross_weight_spec(segs[k]);
    let f = |k: int| if l.contains(k as usize) {
        w(k)
    } else {
        0
    };
    let load = |k: int| segment_load(segs[k]);
    lemma_weight_sum_list(l, segs);
    lemma_sum_over_list(n, l, w, f);
    assert forall|k: int| 0 <= k < n implies 0 <= #[trigger] f(k) <= load(k) by {
        lemma_mincross_weight_pos(segs[k]);
        if l.contains(k as usize) {
            let j = choose|j: int| 0 <= j < l.len() && l[j] == k as usize;
            assert(l[j] < segs.len() && !segs[l[j] as int].flat);
        }
    }
    lemma_sum_le(n, f, load);
    lemma_sum_nonneg(n, f);
}

/// The layered graph transposition works on is consistent, and its numbers
/// are small enough that no count overflows.
pub open spec fn transpose_ready(
    layers: Seq<Vec<usize>>,
    nodes: Seq<LayerNode>,
    segs: Seq<SegmentEdge>,
    inc: Seq<Vec<usize>>,
    outg: Seq<Vec<usize>>,
) -> bool {
    &&& layered(layers, nodes)
    &&& segments_layered(segs, nodes)
    &&& lists_exact(inc, segs, true)
    &&& lists_exact(outg, segs, false)
    &&& inc.len() == nodes.len()
    &&& outg.len() == nodes.len()
    &&& segs.len() <= usize::MAX
    &&& forall|r: int| 0 <= r < layers.len() ==> (#[trigger] layers[r])@.len() <= i32::MAX
    &&& forall|s: int| 0 <= s < segs.len() && !(#[trigger] segs[s]).flat ==> weight_fits(segs[s])
    &&& 4 * total_load(segs) * total_load(segs) <= i64::MAX
    &&& forall|x: int| 0 <= x < nodes.len() ==> (#[trigger] nodes[x]).cluster_path@.len() <= usize::MAX / 2
}

/// In a ready graph every list of a node can be counted.
proof fn lemma_ready_listed_fit(
    layers: Seq<Vec<usize>>,
    nodes: Seq<LayerNode>,
    segs: Seq<SegmentEdge>,
    inc: Seq<Vec<usize>>,
    outg: Seq<Vec<usize>>,
    x: int,
)
    requires
        transpose_ready(layers, nodes, segs, inc, outg),
        0 <= x < nodes.len(),
    ensures
        listed_fit(inc[x]@, segs, nodes, true),
        listed_fit(outg[x]@, segs, nodes, false),
        0 <= weight_sum(inc[x]@, segs) <= total_load(segs),
        0 <= weight_sum(outg[x]@, segs) <= total_load(segs),
{
    assert forall|k: int| 0 <= k < inc[x]@.len() implies (#[trigger] inc[x]@[k]) < segs.len() && far_end(
        segs[inc[x]@[k] as int],
        true,
    ) < nodes.len() && nodes[far_end(segs[inc[x]@[k] as int], true) as int].order <= i32::MAX && weight_fits(
        segs[inc[x]@[k] as int],
    ) by {
        let s = inc[x]@[k] as int;
        assert(!segs[s].flat);
        let t = segs[s].from as int;
        assert(nodes[t].rank < layers.len());
        assert(layers[nodes[t].rank as int]@.len() <= i32::MAX);
    }
    assert forall|k: int| 0 <= k < outg[x]@.len() implies (#[trigger] outg[x]@[k]) < segs.len() && far_end(
        segs[outg[x]@[k] as int],
        false,
    ) < nodes.len() && nodes[far_end(segs[outg[x]@[k] as int], false) as int].order <= i32::MAX && weight_fits(
        segs[outg[x]@[k] as int],
    ) by {
        let s = outg[x]@[k] as int;
        assert(!segs[s].flat);
        let h = segs[s].to as int;
        assert(nodes[h].rank < layers.len());
        assert(layers[nodes[h].rank as int]@.len() <= i32::MAX);
    }
    lemma_list_load(inc, segs, true, x);
    lemma_list_load(outg, segs, false, x);
}

/// Exchanging two neighbours keeps the graph ready.
proof fn lemma_ready_after_swap(
    layers: Seq<Vec<usize>>,
    nodes: Seq<LayerNode>,
    segs: Seq<SegmentEdge>,
    inc: Seq<Vec<usize>>,
    outg: Seq<Vec<usize>>,
    r: int,
    i: int,
    nl: Vec<usize>,
)
    requires
        transpose_ready(layers, nodes, segs, inc, outg),
        0 <= r < layers.len(),
        0 <= i,
        i + 1 < layers[r]@.len(),
        nl@ == swapped(layers[r]@, i),
        nodes.len() <= usize::MAX,
    ensures
        transpose_ready(
            layers.update(r, nl),
            orders_exchanged(nodes, layers[r]@[i], layers[r]@[i + 1]),
            segs,
            inc,
            outg,
        ),
        refreshed(nl@, nodes) == orders_exchanged(nodes, layers[r]@[i], layers[r]@[i + 1]),
{
    let v = layers[r]@[i];
    let w = layers[r]@[i + 1];
    let n2 = orders_exchanged(nodes, v, w);
    let l2 = layers.update(r, nl);
    lemma_refresh_swapped(layers, nodes, r, i, nl);
    assert(segments_layered(segs, n2)) by {
        assert forall|s: int| 0 <= s < segs.len() && !(#[trigger] segs[s]).flat implies segs[s].from < n2.len()
            && segs[s].to < n2.len() && n2[segs[s].to as int].rank == n2[segs[s].from as int].rank + 1 by {
            assert(n2[segs[s].to as int].rank == nodes[segs[s].to as int].rank);
            assert(n2[segs[s].from as int].rank == nodes[segs[s].from as int].rank);
        }
    }
    assert forall|q: int| 0 <= q < l2.len() implies (#[trigger] l2[q])@.len() <= i32::MAX by {
        if q != r {
            assert(l2[q] == layers[q]);
        }
    }
    assert forall|x: int| 0 <= x < n2.len() implies (#[trigger] n2[x]).cluster_path@.len() <= usize::MAX / 2 by {
        assert(n2[x].cluster_path == nodes[x].cluster_path);
    }
}

/// The crossing weight of the segments at `v` and `w` with `v` to the left.
pub open spec fn pair_cross(
    nodes: Seq<LayerNode>,
    segs: Seq<SegmentEdge>,
    inc: Seq<Vec<usize>>,
    outg: Seq<Vec<usize>>,
    v: usize,
    w: usize,
) -> int {
    side_cross(inc[v as int]@, inc[w as int]@, segs, nodes, true) + side_cross(
        outg[v as int]@,
        outg[w as int]@,
        segs,
        nodes,
        false,
    )
}

/// Swapping the neighbours at positions `i` and `i + 1` of rank `q` would
/// not lower the crossing weight of their segments, or they must keep their
/// order.
pub open spec fn pair_settled(
    layers: Seq<Vec<usize>>,
    nodes: Seq<LayerNode>,
    segs: Seq<SegmentEdge>,
    inc: Seq<Vec<usize>>,
    outg: Seq<Vec<usize>>,
    flat_constraints: Seq<(usize, usize)>,
    q: int,
    i: int,
) -> bool {
    let v = layers[q]@[i];
    let w = layers[q]@[i + 1];
    must_stay_left(nodes, v, w, flat_constraints) || pair_cross(nodes, segs, inc, outg, w, v) >= pair_cross(
        nodes,
        segs,
        inc,
        outg,
        v,
        w,
    )
}

/// No swap of neighbours in rank `q` would lower the crossing weight.
pub open spec fn rank_settled(
    layers: Seq<Vec<usize>>,
    nodes: Seq<LayerNode>,
    segs: Seq<SegmentEdge>,
    inc: Seq<Vec<usize>>,
    outg: Seq<Vec<usize>>,
    flat_constraints: Seq<(usize, usize)>,
    q: int,
) -> bool {
    forall|i: int|
        0 <= i && i + 1 < layers[q]@.len() ==> #[trigger] pair_settled(
            layers,
            nodes,
            segs,
            inc,
            outg,
            flat_constraints,
            q,
            i,
        )
}

proof fn lemma_side_cross_frame(
    la: Seq<usize>,
    lb: Seq<usize>,
    segs: Seq<SegmentEdge>,
    n1: Seq<LayerNode>,
    n2: Seq<LayerNode>,
    at_head: bool,
)
    requires
        forall|k: int|
            0 <= k < la.len() ==> n1[far_end(segs[(#[trigger] la[k]) as int], at_head) as int].order == n2[far_end(
                segs[la[k] as int],
                at_head,
            ) as int].order,
        forall|k: int|
            0 <= k < lb.len() ==> n1[far_end(segs[(#[trigger] lb[k]) as int], at_head) as int].order == n2[far_end(
                segs[lb[k] as int],
                at_head,
            ) as int].order,
    ensures
        side_cross(la, lb, segs, n1, at_head) == side_cross(la, lb, segs, n2, at_head),
    decreases lb.len(),
{
    if lb.len() > 0 {
        lemma_side_cross_frame(la, lb.drop_last(), segs, n1, n2, at_head);
        assert(n1[far_end(segs[lb[lb.len() - 1] as int], at_head) as int].order == n2[far_end(
            segs[lb[lb.len() - 1] as int],
            at_head,
        ) as int].order);
        lemma_row_cross_frame(la, lb.last(), segs, n1, n2, at_head);
    }
}

proof fn lemma_row_cross_frame(
    la: Seq<usize>,
    b: usize,
    segs: Seq<SegmentEdge>,
    n1: Seq<LayerNode>,
    n2: Seq<LayerNode>,
    at_head: bool,
)
    requires
        forall|k: int|
            0 <= k < la.len() ==> n1[far_end(segs[(#[trigger] la[k]) as int], at_head) as int].order == n2[far_end(
                segs[la[k] as int],
                at_head,
            ) as int].order,
        n1[far_end(segs[b as int], at_head) as int].order == n2[far_end(segs[b as int], at_head) as int].order,
    ensures
        crate::layer_order::row_cross(la, b, segs, n1, at_head) == crate::layer_order::row_cross(la, b, segs, n2, at_head),
    decreases la.len(),
{
    if la.len() > 0 {
        assert(n1[far_end(segs[la[la.len() - 1] as int], at_head) as int].order == n2[far_end(
            segs[la[la.len() - 1] as int],
            at_head,
        ) as int].order);
        lemma_row_cross_frame(la.drop_last(), b, segs, n1, n2, at_head);
    }
}

/// The far ends of the segments at a node two or more ranks away from rank
/// `r` keep their orders when two neighbours of rank `r` exchange theirs.
proof fn lemma_far_ends_kept(
    layers: Seq<Vec<usize>>,
    nodes: Seq<LayerNode>,
    segs: Seq<SegmentEdge>,
    inc: Seq<Vec<usize>>,
    outg: Seq<Vec<usize>>,
    r: int,
    i: int,
    z: usize,
    at_head: bool,
)
    requires
        transpose_ready(layers, nodes, segs, inc, outg),
        0 <= r < layers.len(),
        0 <= i,
        i + 1 < layers[r]@.len(),
        z < nodes.len(),
        nodes[z as int].rank != r - 1,
        nodes[z as int].rank != r + 1,
    ensures
        at_head ==> forall|k: int|
            0 <= k < inc[z as int]@.len() ==> #[trigger] orders_exchanged(
                nodes,
                layers[r]@[i],
                layers[r]@[i + 1],
            )[far_end(segs[inc[z as int]@[k] as int], true) as int].order == nodes[far_end(
                segs[inc[z as int]@[k] as int],
                true,
            ) as int].order,
        !at_head ==> forall|k: int|
            0 <= k < outg[z as int]@.len() ==> #[trigger] orders_exchanged(
                nodes,
                layers[r]@[i],
                layers[r]@[i + 1],
            )[far_end(segs[outg[z as int]@[k] as int], false) as int].order == nodes[far_end(
                segs[outg[z as int]@[k] as int],
                false,
            ) as int].order,
{
    let v = layers[r]@[i];
    let w = layers[r]@[i + 1];
    assert(nodes[v as int].rank == r && nodes[w as int].rank == r);
    if at_head {
        assert forall|k: int| 0 <= k < inc[z as int]@.len() implies #[trigger] orders_exchanged(nodes, v, w)[far_end(
            segs[inc[z as int]@[k] as int],
            true,
        ) as int].order == nodes[far_end(segs[inc[z as int]@[k] as int], true) as int].order by {
            let s = inc[z as int]@[k] as int;
            assert(!segs[s].flat && segs[s].to == z);
            assert(segs[s].from != v && segs[s].from != w);
        }
    } else {
        assert forall|k: int| 0 <= k < outg[z as int]@.len() implies #[trigger] orders_exchanged(nodes, v, w)[far_end(
            segs[outg[z as int]@[k] as int],
            false,
        ) as int].order == nodes[far_end(segs[outg[z as int]@[k] as int], false) as int].order by {
            let s = outg[z as int]@[k] as int;
            assert(!segs[s].flat && segs[s].from == z);
            assert(segs[s].to != v && segs[s].to != w);
        }
    }
}

/// A swap in rank `r` leaves every rank at least two away as settled as it
/// was.
proof fn lemma_settled_frame(
    layers: Seq<Vec<usize>>,
    nodes: Seq<LayerNode>,
    segs: Seq<SegmentEdge>,
    inc: Seq<Vec<usize>>,
    outg: Seq<Vec<usize>>,
    flat_constraints: Seq<(usize, usize)>,
    r: int,
    i: int,
    nl: Vec<usize>,
    q: int,
)
    requires
        transpose_ready(layers, nodes, segs, inc, outg),
        0 <= r < layers.len(),
        0 <= i,
        i + 1 < layers[r]@.len(),
        nl@ == swapped(layers[r]@, i),
        0 <= q < layers.len(),
        q != r,
        q != r - 1,
        q != r + 1,
        rank_settled(layers, nodes, segs, inc, outg, flat_constraints, q),
    ensures
        rank_settled(
            layers.update(r, nl),
            orders_exchanged(nodes, layers[r]@[i], layers[r]@[i + 1]),
            segs,
            inc,
            outg,
            flat_constraints,
            q,
        ),
{
    let v = layers[r]@[i];
    let w = layers[r]@[i + 1];
    let n2 = orders_exchanged(nodes, v, w);
    let l2 = layers.update(r, nl);
    assert(l2[q] == layers[q]);
    assert(nodes[v as int].rank == r && nodes[w as int].rank == r);
    assert forall|j: int| 0 <= j && j + 1 < l2[q]@.len() implies #[trigger] pair_settled(
        l2,
        n2,
        segs,
        inc,
        outg,
        flat_constraints,
        q,
        j,
    ) by {
        assert(pair_settled(layers, nodes, segs, inc, outg, flat_constraints, q, j));
        let x = layers[q]@[j];
        let y = layers[q]@[j + 1];
        assert(nodes[x as int].rank == q && nodes[y as int].rank == q);
        assert(x != v && x != w && y != v && y != w);
        assert(n2[x as int] == nodes[x as int]);
        assert(n2[y as int] == nodes[y as int]);
        lemma_far_ends_kept(layers, nodes, segs, inc, outg, r, i, x, true);
        lemma_far_ends_kept(layers, nodes, segs, inc, outg, r, i, y, true);
        lemma_far_ends_kept(layers, nodes, segs, inc, outg, r, i, x, false);
        lemma_far_ends_kept(layers, nodes, segs, inc, outg, r, i, y, false);
        lemma_side_cross_frame(inc[x as int]@, inc[y as int]@, segs, n2, nodes, true);
        lemma_side_cross_frame(inc[y as int]@, inc[x as int]@, segs, n2, nodes, true);
        lemma_side_cross_frame(outg[x as int]@, outg[y as int]@, segs, n2, nodes, false);
        lemma_side_cross_frame(outg[y as int]@, outg[x as int]@, segs, n2, nodes, false);
    }
}

/// The contents of each rank.
pub open spec fn rank_views(layers: Seq<Vec<usize>>) -> Seq<Seq<usize>> {
    Seq::new(layers.len(), |q: int| layers[q]@)
}

/// The ranks, the nodes, which ranks are still to be swept, and the gain
/// collected in the current sweep, after the neighbours at `i` and `i + 1`
/// of rank `q` were looked at: they swap when they may move and their
/// segments cross with less weight the other way round (with `reverse`,
/// also with equal weight that is not zero); a swap marks rank `q` and its
/// neighbouring ranks to be swept again.
pub open spec fn pair_step(
    st: (Seq<Seq<usize>>, Seq<LayerNode>, Seq<bool>, int),
    segs: Seq<SegmentEdge>,
    inc: Seq<Vec<usize>>,
    outg: Seq<Vec<usize>>,
    flat_constraints: Seq<(usize, usize)>,
    reverse: bool,
    q: int,
    i: int,
) -> (Seq<Seq<usize>>, Seq<LayerNode>, Seq<bool>, int) {
    let (layers, nodes, cand, gain) = st;
    let v = layers[q][i];
    let w = layers[q][i + 1];
    if must_stay_left(nodes, v, w, flat_constraints) {
        st
    } else {
        let c0 = pair_cross(nodes, segs, inc, outg, v, w);
        let c1 = pair_cross(nodes, segs, inc, outg, w, v);
        if c1 < c0 || (c0 > 0 && reverse && c1 == c0) {
            let m1 = cand.update(q, true);
            let m2 = if q > 0 {
                m1.update(q - 1, true)
            } else {
                m1
            };
            let m3 = if q + 1 < layers.len() {
                m2.update(q + 1, true)
            } else {
                m2
            };
            (layers.update(q, swapped(layers[q], i)), orders_exchanged(nodes, v, w), m3, gain + c0 - c1)
        } else {
            st
        }
    }
}

/// The state after the first `i` neighbour pairs of rank `q`, left to right.
pub open spec fn rank_pass(
    st: (Seq<Seq<usize>>, Seq<LayerNode>, Seq<bool>, int),
    segs: Seq<SegmentEdge>,
    inc: Seq<Vec<usize>>,
    outg: Seq<Vec<usize>>,
    flat_constraints: Seq<(usize, usize)>,
    reverse: bool,
    q: int,
    i: int,
) -> (Seq<Seq<usize>>, Seq<LayerNode>, Seq<bool>, int)
    decreases i,
{
    if i <= 0 {
        st
    } else {
        pair_step(rank_pass(st, segs, inc, outg, flat_constraints, reverse, q, i - 1), segs, inc, outg, flat_constraints, reverse, q, i - 1)
    }
}

/// The state after the first `r` ranks of one sweep: a rank still to be
/// swept is unmarked and its neighbour pairs are looked at in turn.
pub open spec fn sweep_upto(
    st: (Seq<Seq<usize>>, Seq<LayerNode>, Seq<bool>, int),
    segs: Seq<SegmentEdge>,
    inc: Seq<Vec<usize>>,
    outg: Seq<Vec<usize>>,
    flat_constraints: Seq<(usize, usize)>,
    reverse: bool,
    r: int,
) -> (Seq<Seq<usize>>, Seq<LayerNode>, Seq<bool>, int)
    decreases r,
{
    if r <= 0 {
        st
    } else {
        let t = sweep_upto(st, segs, inc, outg, flat_constraints, reverse, r - 1);
        let q = r - 1;
        if t.2[q] {
            let t1 = (t.0, t.1, t.2.update(q, false), t.3);
            if t1.0[q].len() > 1 {
                rank_pass(t1, segs, inc, outg, flat_constraints, reverse, q, t1.0[q].len() - 1)
            } else {
                t1
            }
        } else {
            t
        }
    }
}

/// The ranks, nodes and marks after `k` sweeps, and whether the sweeps
/// stopped: they stop after a sweep that gained nothing.
pub open spec fn transpose_rounds(
    layers: Seq<Seq<usize>>,
    nodes: Seq<LayerNode>,
    cand: Seq<bool>,
    segs: Seq<SegmentEdge>,
    inc: Seq<Vec<usize>>,
    outg: Seq<Vec<usize>>,
    flat_constraints: Seq<(usize, usize)>,
    reverse: bool,
    k: nat,
) -> (Seq<Seq<usize>>, Seq<LayerNode>, Seq<bool>, bool)
    decreases k,
{
    if k == 0 {
        (layers, nodes, cand, false)
    } else {
        let prev = transpose_rounds(layers, nodes, cand, segs, inc, outg, flat_constraints, reverse, (k - 1) as nat);
        if prev.3 {
            prev
        } else {
            let t = sweep_upto((prev.0, prev.1, prev.2, 0), segs, inc, outg, flat_constraints, reverse, prev.0.len() as int);
            (t.0, t.1, t.2, t.3 < 1)
        }
    }
}

/// What `transpose_layers` leaves: the ranks and nodes after sweeping with
/// every rank marked at first, until a sweep gains nothing (which happens
/// within one more sweep than the crossing potential).
pub open spec fn transpose_spec(
    layers: Seq<Seq<usize>>,
    nodes: Seq<LayerNode>,
    segs: Seq<SegmentEdge>,
    inc: Seq<Vec<usize>>,
    outg: Seq<Vec<usize>>,
    flat_constraints: Seq<(usize, usize)>,
    reverse: bool,
) -> (Seq<Seq<usize>>, Seq<LayerNode>) {
    let cand = Seq::new(layers.len(), |q: int| true);
    let fuel = (crossing_potential(segs, nodes) + 1) as nat;
    let r = transpose_rounds(layers, nodes, cand, segs, inc, outg, flat_constraints, reverse, fuel);
    (r.0, r.1)
}

proof fn lemma_transpose_rounds_stay(
    layers: Seq<Seq<usize>>,
    nodes: Seq<LayerNode>,
    cand: Seq<bool>,
    segs: Seq<SegmentEdge>,
    inc: Seq<Vec<usize>>,
    outg: Seq<Vec<usize>>,
    flat_constraints: Seq<(usize, usize)>,
    reverse: bool,
    p: nat,
    q: nat,
)
    requires
        p <= q,
        transpose_rounds(layers, nodes, cand, segs, inc, outg, flat_constraints, reverse, p).3,
    ensures
        transpose_rounds(layers, nodes, cand, segs, inc, outg, flat_constraints, reverse, q) == transpose_rounds(
            layers,
            nodes,
            cand,
            segs,
            inc,
            outg,
            flat_constraints,
            reverse,
            p,
        ),
    decreases q - p,
{
    if p < q {
        lemma_transpose_rounds_stay(layers, nodes, cand, segs, inc, outg, flat_constraints, reverse, p, (q - 1) as nat);
    }
}

/// `a` stands somewhere to the left of `b` in `layer`.
pub open spec fn comes_before(layer: Seq<usize>, a: usize, b: usize) -> bool {
    exists|i: int, j: int| 0 <= i < j < layer.len() && layer[i] == a && layer[j] == b
}

/// `after` has the ranks of `before`, each as long as before, and every
/// pair named by a flat constraint that stood left to right on a rank of
/// `before` still does so in `after`.
pub open spec fn flat_order_kept(
    before: Seq<Seq<usize>>,
    after: Seq<Seq<usize>>,
    flat_constraints: Seq<(usize, usize)>,
) -> bool {
    &&& after.len() == before.len()
    &&& forall|q: int| 0 <= q < before.len() ==> (#[trigger] after[q]).len() == before[q].len()
    &&& forall|q: int, a: usize, b: usize|
        0 <= q < before.len() && flat_constraints.contains((a, b)) && #[trigger] comes_before(before[q], a, b)
            ==> #[trigger] comes_before(after[q], a, b)
}

proof fn lemma_flat_order_chain(
    l0: Seq<Seq<usize>>,
    l1: Seq<Seq<usize>>,
    l2: Seq<Seq<usize>>,
    flat_constraints: Seq<(usize, usize)>,
)
    requires
        flat_order_kept(l0, l1, flat_constraints),
        flat_order_kept(l1, l2, flat_constraints),
    ensures
        flat_order_kept(l0, l2, flat_constraints),
{
    assert forall|q: int, a: usize, b: usize|
        0 <= q < l0.len() && flat_constraints.contains((a, b)) && #[trigger] comes_before(l0[q], a, b)
            implies #[trigger] comes_before(l2[q], a, b) by {
        assert(comes_before(l1[q], a, b));
    }
}

proof fn lemma_flat_order_refl(l: Seq<Seq<usize>>, flat_constraints: Seq<(usize, usize)>)
    ensures
        flat_order_kept(l, l, flat_constraints),
{
}

proof fn lemma_pair_step_keeps_flat_order(
    st: (Seq<Seq<usize>>, Seq<LayerNode>, Seq<bool>, int),
    segs: Seq<SegmentEdge>,
    inc: Seq<Vec<usize>>,
    outg: Seq<Vec<usize>>,
    flat_constraints: Seq<(usize, usize)>,
    reverse: bool,
    q: int,
    i: int,
)
    requires
        0 <= q < st.0.len(),
        0 <= i,
        i + 1 < st.0[q].len(),
    ensures
        flat_order_kept(st.0, pair_step(st, segs, inc, outg, flat_constraints, reverse, q, i).0, flat_constraints),
{
    let r = pair_step(st, segs, inc, outg, flat_constraints, reverse, q, i);
    let layer = st.0[q];
    let v = layer[i];
    let w = layer[i + 1];
    if r.0 != st.0 {
        assert(!flat_constraints.contains((v, w)));
        let nl = swapped(layer, i);
        assert(r.0 == st.0.update(q, nl));
        assert forall|qq: int, a: usize, b: usize|
            0 <= qq < st.0.len() && flat_constraints.contains((a, b)) && #[trigger] comes_before(st.0[qq], a, b)
                implies #[trigger] comes_before(r.0[qq], a, b) by {
            if qq == q {
                let (x, y) = choose|x: int, y: int| 0 <= x < y < layer.len() && layer[x] == a && layer[y] == b;
                let nx = if x == i {
                    i + 1
                } else if x == i + 1 {
                    i
                } else {
                    x
                };
                let ny = if y == i {
                    i + 1
                } else if y == i + 1 {
                    i
                } else {
                    y
                };
                if x == i && y == i + 1 {
                    assert(false);
                }
                assert(nl[nx] == a && nl[ny] == b && 0 <= nx < ny < nl.len());
            }
        }
    }
}

proof fn lemma_rank_pass_keeps_flat_order(
    st: (Seq<Seq<usize>>, Seq<LayerNode>, Seq<bool>, int),
    segs: Seq<SegmentEdge>,
    inc: Seq<Vec<usize>>,
    outg: Seq<Vec<usize>>,
    flat_constraints: Seq<(usize, usize)>,
    reverse: bool,
    q: int,
    i: int,
)
    requires
        0 <= q < st.0.len(),
        i < st.0[q].len(),
    ensures
        flat_order_kept(st.0, rank_pass(st, segs, inc, outg, flat_constraints, reverse, q, i).0, flat_constraints),
    decreases i,
{
    if i <= 0 {
        lemma_flat_order_refl(st.0, flat_constraints);
    } else {
        lemma_rank_pass_keeps_flat_order(st, segs, inc, outg, flat_constraints, reverse, q, i - 1);
        let t = rank_pass(st, segs, inc, outg, flat_constraints, reverse, q, i - 1);
        assert(t.0[q].len() == st.0[q].len());
        lemma_pair_step_keeps_flat_order(t, segs, inc, outg, flat_constraints, reverse, q, i - 1);
        lemma_flat_order_chain(
            st.0,
            t.0,
            rank_pass(st, segs, inc, outg, flat_constraints, reverse, q, i).0,
            flat_constraints,
        );
    }
}

proof fn lemma_sweep_keeps_flat_order(
    st: (Seq<Seq<usize>>, Seq<LayerNode>, Seq<bool>, int),
    segs: Seq<SegmentEdge>,
    inc: Seq<Vec<usize>>,
    outg: Seq<Vec<usize>>,
    flat_constraints: Seq<(usize, usize)>,
    reverse: bool,
    r: int,
)
    requires
        r <= st.0.len(),
    ensures
        flat_order_kept(st.0, sweep_upto(st, segs, inc, outg, flat_constraints, reverse, r).0, flat_constraints),
    decreases r,
{
    if r <= 0 {
        lemma_flat_order_refl(st.0, flat_constraints);
    } else {
        lemma_sweep_keeps_flat_order(st, segs, inc, outg, flat_constraints, reverse, r - 1);
        let t = sweep_upto(st, segs, inc, outg, flat_constraints, reverse, r - 1);
        let q = r - 1;
        if t.2[q] {
            let t1 = (t.0, t.1, t.2.update(q, false), t.3);
            if t1.0[q].len() > 1 {
                lemma_rank_pass_keeps_flat_order(t1, segs, inc, outg, flat_constraints, reverse, q, t1.0[q].len() - 1);
                lemma_flat_order_chain(
                    st.0,
                    t.0,
                    sweep_upto(st, segs, inc, outg, flat_constraints, reverse, r).0,
                    flat_constraints,
                );
            }
        }
    }
}

proof fn lemma_rounds_keep_flat_order(
    layers: Seq<Seq<usize>>,
    nodes: Seq<LayerNode>,
    cand: Seq<bool>,
    segs: Seq<SegmentEdge>,
    inc: Seq<Vec<usize>>,
    outg: Seq<Vec<usize>>,
    flat_constraints: Seq<(usize, usize)>,
    reverse: bool,
    k: nat,
)
    ensures
        flat_order_kept(
            layers,
            transpose_rounds(layers, nodes, cand, segs, inc, outg, flat_constraints, reverse, k).0,
            flat_constraints,
        ),
    decreases k,
{
    if k == 0 {
        lemma_flat_order_refl(layers, flat_constraints);
    } else {
        lemma_rounds_keep_flat_order(layers, nodes, cand, segs, inc, outg, flat_constraints, reverse, (k - 1) as nat);
        let prev = transpose_rounds(layers, nodes, cand, segs, inc, outg, flat_constraints, reverse, (k - 1) as nat);
        if !prev.3 {
            let st = (prev.0, prev.1, prev.2, 0int);
            lemma_sweep_keeps_flat_order(st, segs, inc, outg, flat_constraints, reverse, prev.0.len() as int);
            lemma_flat_order_chain(
                layers,
                prev.0,
                transpose_rounds(layers, nodes, cand, segs, inc, outg, flat_constraints, reverse, k).0,
                flat_constraints,
            );
        }
    }
}

/// Law: two neighbours that must keep their order are never swapped, in
/// either mode: when the left one and its right neighbour form a flat
/// constraint, or lie in different clusters (their cluster paths differ)
/// with the left one's order already below the right one's, looking at
/// them changes nothing.
pub proof fn law_pair_step_keeps_bound_pairs(
    st: (Seq<Seq<usize>>, Seq<LayerNode>, Seq<bool>, int),
    segs: Seq<SegmentEdge>,
    inc: Seq<Vec<usize>>,
    outg: Seq<Vec<usize>>,
    flat_constraints: Seq<(usize, usize)>,
    reverse: bool,
    q: int,
    i: int,
)
    requires
        0 <= q < st.0.len(),
        0 <= i,
        i + 1 < st.0[q].len(),
    ensures
        ({
            let v = st.0[q][i];
            let w = st.0[q][i + 1];
            let bound = flat_constraints.contains((v, w)) || (st.1[v as int].cluster_path@ != st.1[w as int].cluster_path@
                && st.1[v as int].order < st.1[w as int].order);
            bound ==> pair_step(st, segs, inc, outg, flat_constraints, reverse, q, i) == st
        }),
{
    let v = st.0[q][i];
    let w = st.0[q][i + 1];
    let a = st.1[v as int].cluster_path@;
    let b = st.1[w as int].cluster_path@;
    if a != b {
        crate::cluster_paths::lemma_common_prefix_len(a, b);
        let c = crate::cluster_paths::common_prefix_len(a, b);
        if crate::cluster_paths::crossings_spec(a, b) == 0 {
            assert(c == a.len() && c == b.len());
            assert(a =~= b);
        }
    }
}

/// Law: a swap always pays. When looking at two neighbours swaps them,
/// the crossing potential of the whole graph drops, strictly without
/// `reverse`; with `reverse` it may also stay as it was. Nothing else than
/// the two nodes' orders changes.
pub proof fn law_swap_lowers_potential(
    layers: Seq<Vec<usize>>,
    nodes: Seq<LayerNode>,
    cand: Seq<bool>,
    gain: int,
    segs: Seq<SegmentEdge>,
    inc: Seq<Vec<usize>>,
    outg: Seq<Vec<usize>>,
    flat_constraints: Seq<(usize, usize)>,
    reverse: bool,
    q: int,
    i: int,
)
    requires
        transpose_ready(layers, nodes, segs, inc, outg),
        0 <= q < layers.len(),
        0 <= i,
        i + 1 < layers[q]@.len(),
    ensures
        ({
            let st = (rank_views(layers), nodes, cand, gain);
            let r = pair_step(st, segs, inc, outg, flat_constraints, reverse, q, i);
            r.0 != st.0 ==> {
                &&& r.1 == orders_exchanged(nodes, layers[q]@[i], layers[q]@[i + 1])
                &&& (crossing_potential(segs, r.1) < crossing_potential(segs, nodes) || (reverse && crossing_potential(
                    segs,
                    r.1,
                ) == crossing_potential(segs, nodes)))
            }
        }),
{
    let st = (rank_views(layers), nodes, cand, gain);
    assert(st.0[q] == layers[q]@);
    lemma_swap_changes_potential(layers, nodes, segs, inc, outg, q, i);
}

/// Law: transposition never reorders a pair that a flat constraint names,
/// in either mode. Whatever the segments, and with or without `reverse`,
/// every `(a, b)` of `flat_constraints` with `a` left of `b` on a rank
/// before still has `a` left of `b` on that rank after; no rank is added,
/// dropped or resized.
pub proof fn law_transpose_keeps_flat_constraints(
    layers: Seq<Seq<usize>>,
    nodes: Seq<LayerNode>,
    segs: Seq<SegmentEdge>,
    inc: Seq<Vec<usize>>,
    outg: Seq<Vec<usize>>,
    flat_constraints: Seq<(usize, usize)>,
    reverse: bool,
)
    ensures
        flat_order_kept(
            layers,
            transpose_spec(layers, nodes, segs, inc, outg, flat_constraints, reverse).0,
            flat_constraints,
        ),
{
    let cand = Seq::new(layers.len(), |q: int| true);
    let fuel = (crossing_potential(segs, nodes) + 1) as nat;
    lemma_rounds_keep_flat_order(layers, nodes, cand, segs, inc, outg, flat_constraints, reverse, fuel);
}

/// Sweeps the ranks, swapping neighbours whose segments cross with less
/// weight the other way round (or, with `reverse`, with equal weight that
/// is not zero), unless they must keep their order; a rank is swept again
/// while it or a neighbouring rank changed. Ends after a sweep that gained
/// nothing.
///
/// The nodes keep everything but their orders, the graph stays consistent,
/// and the crossing potential never grows: every swap lowers it by exactly
/// the weight it gained. Without `reverse`, every rank ends settled: no
/// swap of two neighbours that may move would lower the crossing weight of
/// their segments.
#[verifier::rlimit(60)]
pub fn transpose_layers(
    layers: &mut [Vec<usize>],
    nodes: &mut [LayerNode],
    segments: &[SegmentEdge],
    reverse: bool,
    incoming_segments: &[Vec<usize>],
    outgoing_segments: &[Vec<usize>],
    flat_constraints: &[(usize, usize)],
)
    requires
        transpose_ready(old(layers)@, old(nodes)@, segments@, incoming_segments@, outgoing_segments@),
    ensures
        (rank_views(final(layers)@), final(nodes)@) == transpose_spec(
            rank_views(old(layers)@),
            old(nodes)@,
            segments@,
            incoming_segments@,
            outgoing_segments@,
            flat_constraints@,
            reverse,
        ),
        transpose_ready(final(layers)@, final(nodes)@, segments@, incoming_segments@, outgoing_segments@),
        final(layers)@.len() == old(layers)@.len(),
        final(nodes)@.len() == old(nodes)@.len(),
        forall|x: int|
            0 <= x < old(nodes)@.len() ==> #[trigger] final(nodes)@[x] == with_order(
                old(nodes)@[x],
                final(nodes)@[x].order as int,
            ),
        crossing_potential(segments@, final(nodes)@) <= crossing_potential(segments@, old(nodes)@),
        flat_order_kept(rank_views(old(layers)@), rank_views(final(layers)@), flat_constraints@),
        !reverse ==> forall|q: int|
            0 <= q < final(layers)@.len() ==> #[trigger] rank_settled(
                final(layers)@,
                final(nodes)@,
                segments@,
                incoming_segments@,
                outgoing_segments@,
                flat_constraints@,
                q,
            ),
{
    let ghost p0 = crossing_potential(segments@, nodes@);
    let ghost orig = nodes@;
    let ghost layer_count = layers@.len();
    let node_count = nodes.len();
    proof {
        lemma_potential_bounds(segments@, nodes@);
        assert forall|x: int| 0 <= x < orig.len() implies #[trigger] orig[x] == with_order(orig[x], orig[x].order as int) by {}
    }
    let mut candidate: Vec<bool> = Vec::new();
    let mut k: usize = 0;
    while k < layers.len()
        invariant
            k <= layers@.len(),
            candidate@.len() == k,
            forall|q: int| 0 <= q < k ==> #[trigger] candidate@[q],
        decreases layers.len() - k,
    {
        candidate.push(true);
        k += 1;
    }
    let ghost l0 = rank_views(layers@);
    let ghost c0s = candidate@;
    let ghost fuel = (p0 + 1) as nat;
    let ghost mut rounds: nat = 0;
    proof {
        assert(c0s =~= Seq::new(l0.len(), |q: int| true));
    }
    loop
        invariant_except_break
            (rank_views(layers@), nodes@, candidate@, false) == transpose_rounds(
                l0,
                orig,
                c0s,
                segments@,
                incoming_segments@,
                outgoing_segments@,
                flat_constraints@,
                reverse,
                rounds,
            ),
            rounds + crossing_potential(segments@, nodes@) <= p0,
        invariant
            fuel == (p0 + 1) as nat,
            p0 == crossing_potential(segments@, orig),
            l0.len() == layer_count,
            transpose_ready(layers@, nodes@, segments@, incoming_segments@, outgoing_segments@),
            layers@.len() == layer_count,
            candidate@.len() == layer_count,
            nodes@.len() == orig.len(),
            node_count == orig.len(),
            forall|x: int| 0 <= x < orig.len() ==> #[trigger] nodes@[x] == with_order(orig[x], nodes@[x].order as int),
            0 <= crossing_potential(segments@, nodes@) <= p0,
            p0 <= 2 * total_load(segments@) * total_load(segments@),
            forall|q: int| 0 <= q < layer_count && !(#[trigger] candidate@[q]) ==> rank_settled(layers@, nodes@, segments@, incoming_segments@, outgoing_segments@, flat_constraints@, q),
        ensures
            !reverse ==> forall|q: int| 0 <= q < layer_count ==> #[trigger] rank_settled(layers@, nodes@, segments@, incoming_segments@, outgoing_segments@, flat_constraints@, q),
            (rank_views(layers@), nodes@) == (
                transpose_rounds(l0, orig, c0s, segments@, incoming_segments@, outgoing_segments@, flat_constraints@, reverse, fuel).0,
                transpose_rounds(l0, orig, c0s, segments@, incoming_segments@, outgoing_segments@, flat_constraints@, reverse, fuel).1,
            ),
        decreases crossing_potential(segments@, nodes@),
    {
        let ghost p_start = crossing_potential(segments@, nodes@);
        let ghost round_start = (rank_views(layers@), nodes@, candidate@, 0int);
        let mut delta: i64 = 0;
        let mut rank: usize = 0;
        while rank < layers.len()
            invariant
                (rank_views(layers@), nodes@, candidate@, delta as int) == sweep_upto(
                    round_start,
                    segments@,
                    incoming_segments@,
                    outgoing_segments@,
                    flat_constraints@,
                    reverse,
                    rank as int,
                ),
                round_start.0.len() == layer_count,
                transpose_ready(layers@, nodes@, segments@, incoming_segments@, outgoing_segments@),
                layers@.len() == layer_count,
                candidate@.len() == layer_count,
                nodes@.len() == orig.len(),
                node_count == orig.len(),
                forall|x: int| 0 <= x < orig.len() ==> #[trigger] nodes@[x] == with_order(orig[x], nodes@[x].order as int),
                rank <= layer_count,
                0 <= crossing_potential(segments@, nodes@),
                p_start <= p0,
                p0 <= 2 * total_load(segments@) * total_load(segments@),
                0 <= delta,
                delta == p_start - crossing_potential(segments@, nodes@),
                forall|q: int| 0 <= q < layer_count && !(#[trigger] candidate@[q]) ==> rank_settled(layers@, nodes@, segments@, incoming_segments@, outgoing_segments@, flat_constraints@, q),
                !reverse && delta == 0 ==> forall|q: int| 0 <= q < rank ==> !(#[trigger] candidate@[q]),
            decreases layer_count - rank,
        {
            if candidate[rank] {
                candidate.set(rank, false);
                let ghost t1 = (rank_views(layers@), nodes@, candidate@, delta as int);
                let len = layers[rank].len();
                proof {
                    let t = sweep_upto(round_start, segments@, incoming_segments@, outgoing_segments@, flat_constraints@, reverse, rank as int);
                    assert(t1.2 =~= t.2.update(rank as int, false));
                    assert(t1.0[rank as int].len() == len);
                }
                if len > 1 {
                    let mut i: usize = 0;
                    while i < len - 1
                        invariant
                            (rank_views(layers@), nodes@, candidate@, delta as int) == rank_pass(
                                t1,
                                segments@,
                                incoming_segments@,
                                outgoing_segments@,
                                flat_constraints@,
                                reverse,
                                rank as int,
                                i as int,
                            ),
                            t1.0[rank as int].len() == len,
                            transpose_ready(layers@, nodes@, segments@, incoming_segments@, outgoing_segments@),
                            layers@.len() == layer_count,
                            candidate@.len() == layer_count,
                            nodes@.len() == orig.len(),
                            node_count == orig.len(),
                            forall|x: int|
                                0 <= x < orig.len() ==> #[trigger] nodes@[x] == with_order(orig[x], nodes@[x].order as int),
                            rank < layer_count,
                            len > 1,
                            layers@[rank as int]@.len() == len,
                            i <= len - 1,
                            0 <= crossing_potential(segments@, nodes@),
                            p_start <= p0,
                            p0 <= 2 * total_load(segments@) * total_load(segments@),
                            0 <= delta,
                            delta == p_start - crossing_potential(segments@, nodes@),
                            forall|q: int|
                                0 <= q < layer_count && q != rank && !(#[trigger] candidate@[q]) ==> rank_settled(layers@, nodes@, segments@, incoming_segments@, outgoing_segments@, flat_constraints@, q),
                            !candidate@[rank as int] ==> forall|j: int|
                                0 <= j < i ==> #[trigger] pair_settled(
                                    layers@,
                                    nodes@,
                                    segments@,
                                    incoming_segments@,
                                    outgoing_segments@,
                                    flat_constraints@,
                                    rank as int,
                                    j,
                                ),
                            !reverse && delta == 0 ==> forall|q: int| 0 <= q < rank ==> !(#[trigger] candidate@[q]),
                            !reverse && delta == 0 ==> !candidate@[rank as int],
                        decreases len - 1 - i,
                    {
                        let ghost st = (rank_views(layers@), nodes@, candidate@, delta as int);
                        let v = layers[rank][i];
                        let w = layers[rank][i + 1];
                        proof {
                            assert(st.0[rank as int][i as int] == v);
                            assert(st.0[rank as int][i + 1] == w);
                            assert(layers@[rank as int]@[i as int] < nodes@.len());
                            assert(layers@[rank as int]@[i + 1] < nodes@.len());
                            assert(nodes@[v as int].cluster_path@.len() <= usize::MAX / 2);
                            assert(nodes@[w as int].cluster_path@.len() <= usize::MAX / 2);
                        }
                        if !left_to_right(nodes, v, w, flat_constraints) {
                            let ghost t = total_load(segments@);
                            proof {
                                lemma_ready_listed_fit(layers@, nodes@, segments@, incoming_segments@, outgoing_segments@, v as int);
                                lemma_ready_listed_fit(layers@, nodes@, segments@, incoming_segments@, outgoing_segments@, w as int);
                                let a1 = weight_sum(incoming_segments@[v as int]@, segments@);
                                let a2 = weight_sum(incoming_segments@[w as int]@, segments@);
                                let b1 = weight_sum(outgoing_segments@[v as int]@, segments@);
                                let b2 = weight_sum(outgoing_segments@[w as int]@, segments@);
                                assert(t * t <= i64::MAX / 4 && 2 * t * t <= i64::MAX) by (nonlinear_arith)
                                    requires
                                        4 * t * t <= i64::MAX,
                                        t >= 0,
                                ;
                                assert(a1 * a2 <= t * t && a2 * a1 <= t * t && b1 * b2 <= t * t && b2 * b1 <= t * t)
                                    by (nonlinear_arith)
                                    requires
                                        0 <= a1 <= t,
                                        0 <= a2 <= t,
                                        0 <= b1 <= t,
                                        0 <= b2 <= t,
                                ;
                            }
                            let mut c0: i64 = 0;
                            let mut c1: i64 = 0;
                            let in_vw = weighted_in_cross(v, w, incoming_segments, segments, nodes);
                            let in_wv = weighted_in_cross(w, v, incoming_segments, segments, nodes);
                            let out_vw = weighted_out_cross(v, w, outgoing_segments, segments, nodes);
                            let out_wv = weighted_out_cross(w, v, outgoing_segments, segments, nodes);
                            proof {
                                let a1 = weight_sum(incoming_segments@[v as int]@, segments@);
                                let a2 = weight_sum(incoming_segments@[w as int]@, segments@);
                                let b1 = weight_sum(outgoing_segments@[v as int]@, segments@);
                                let b2 = weight_sum(outgoing_segments@[w as int]@, segments@);
                                crate::layer_order::lemma_side_cross_bounds(
                                    incoming_segments@[v as int]@,
                                    incoming_segments@[w as int]@,
                                    segments@,
                                    nodes@,
                                    true,
                                );
                                crate::layer_order::lemma_side_cross_bounds(
                                    incoming_segments@[w as int]@,
                                    incoming_segments@[v as int]@,
                                    segments@,
                                    nodes@,
                                    true,
                                );
                                crate::layer_order::lemma_side_cross_bounds(
                                    outgoing_segments@[v as int]@,
                                    outgoing_segments@[w as int]@,
                                    segments@,
                                    nodes@,
                                    false,
                                );
                                crate::layer_order::lemma_side_cross_bounds(
                                    outgoing_segments@[w as int]@,
                                    outgoing_segments@[v as int]@,
                                    segments@,
                                    nodes@,
                                    false,
                                );
                            }
                            c0 += in_vw;
                            c1 += in_wv;
                            c0 += out_vw;
                            c1 += out_wv;
                            if c1 < c0 || (c0 > 0 && reverse && c1 == c0) {
                                let ghost before_layers = layers@;
                                let ghost before_nodes = nodes@;
                                let ghost before_cand = candidate@;
                                proof {
                                    lemma_swap_changes_potential(
                                        before_layers,
                                        before_nodes,
                                        segments@,
                                        incoming_segments@,
                                        outgoing_segments@,
                                        rank as int,
                                        i as int,
                                    );
                                }
                                layers[rank].set(i, w);
                                layers[rank].set(i + 1, v);
                                proof {
                                    assert(layers@ == before_layers.update(rank as int, layers@[rank as int]));
                                    assert(layers@[rank as int]@ =~= swapped(before_layers[rank as int]@, i as int));
                                    lemma_ready_after_swap(
                                        before_layers,
                                        before_nodes,
                                        segments@,
                                        incoming_segments@,
                                        outgoing_segments@,
                                        rank as int,
                                        i as int,
                                        layers@[rank as int],
                                    );
                                    assert forall|q: int, j: int|
                                        0 <= q < layers@.len() && 0 <= j < layers@[q]@.len() implies (#[trigger] layers@[q]@[j])
                                        < nodes@.len() by {
                                        assert(layered(layers@, orders_exchanged(before_nodes, v, w)));
                                    }
                                }
                                refresh_layer_order(&layers[rank], nodes);
                                proof {
                                    let n2 = orders_exchanged(before_nodes, v, w);
                                    assert(nodes@ == n2);
                                    lemma_potential_bounds(segments@, nodes@);
                                    assert forall|x: int| 0 <= x < orig.len() implies #[trigger] nodes@[x] == with_order(
                                        orig[x],
                                        nodes@[x].order as int,
                                    ) by {
                                        assert(before_nodes[x] == with_order(orig[x], before_nodes[x].order as int));
                                    }
                                }
                                delta += c0 - c1;
                                candidate.set(rank, true);
                                if rank > 0 {
                                    candidate.set(rank - 1, true);
                                }
                                if rank + 1 < layers.len() {
                                    candidate.set(rank + 1, true);
                                }
                                proof {
                                    assert(rank_views(layers@) =~= st.0.update(rank as int, swapped(st.0[rank as int], i as int)));
                                    let m1 = st.2.update(rank as int, true);
                                    let m2 = if rank > 0 {
                                        m1.update(rank - 1, true)
                                    } else {
                                        m1
                                    };
                                    let m3 = if rank + 1 < layer_count {
                                        m2.update(rank + 1, true)
                                    } else {
                                        m2
                                    };
                                    assert(candidate@ =~= m3);
                                    assert((rank_views(layers@), nodes@, candidate@, delta as int) == pair_step(
                                        st,
                                        segments@,
                                        incoming_segments@,
                                        outgoing_segments@,
                                        flat_constraints@,
                                        reverse,
                                        rank as int,
                                        i as int,
                                    ));
                                    assert forall|q: int|
                                        0 <= q < layer_count && q != rank && !(#[trigger] candidate@[q]) implies rank_settled(layers@, nodes@, segments@, incoming_segments@, outgoing_segments@, flat_constraints@, q) by {
                                        assert(q != rank - 1 && q != rank + 1);
                                        assert(!before_cand[q]);
                                        lemma_settled_frame(
                                            before_layers,
                                            before_nodes,
                                            segments@,
                                            incoming_segments@,
                                            outgoing_segments@,
                                            flat_constraints@,
                                            rank as int,
                                            i as int,
                                            layers@[rank as int],
                                            q,
                                        );
                                    }
                                }
                            } else {
                                proof {
                                    assert(pair_settled(
                                        layers@,
                                        nodes@,
                                        segments@,
                                        incoming_segments@,
                                        outgoing_segments@,
                                        flat_constraints@,
                                        rank as int,
                                        i as int,
                                    ));
                                }
                            }
                        } else {
                            proof {
                                assert(pair_settled(
                                    layers@,
                                    nodes@,
                                    segments@,
                                    incoming_segments@,
                                    outgoing_segments@,
                                    flat_constraints@,
                                    rank as int,
                                    i as int,
                                ));
                            }
                        }
                        i += 1;
                    }
                }
                proof {
                    if !candidate@[rank as int] {
                        assert forall|j: int| 0 <= j && j + 1 < layers@[rank as int]@.len() implies #[trigger] pair_settled(
                            layers@,
                            nodes@,
                            segments@,
                            incoming_segments@,
                            outgoing_segments@,
                            flat_constraints@,
                            rank as int,
                            j,
                        ) by {}
                    }
                }
            }
            rank += 1;
        }
        if delta < 1 {
            proof {
                assert forall|q: int| 0 <= q < layer_count && !reverse implies #[trigger] rank_settled(layers@, nodes@, segments@, incoming_segments@, outgoing_segments@, flat_constraints@, q) by {
                    assert(!candidate@[q]);
                }
                lemma_transpose_rounds_stay(
                    l0,
                    orig,
                    c0s,
                    segments@,
                    incoming_segments@,
                    outgoing_segments@,
                    flat_constraints@,
                    reverse,
                    rounds + 1,
                    fuel,
                );
            }
            break;
        }
        proof {
            rounds = rounds + 1;
        }
    }
    proof {
        law_transpose_keeps_flat_constraints(
            rank_views(old(layers)@),
            old(nodes)@,
            segments@,
            incoming_segments@,
            outgoing_segments@,
            flat_constraints@,
            reverse,
        );
    }
}

} // verus!
