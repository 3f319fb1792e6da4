//! Orders of the nodes within their ranks: the initial order, keeping the
//! recorded orders in step with the layers, and the local rules that the
//! ordering passes consult.
use vstd::prelude::*;

use crate::cluster_paths::{cluster_boundary_crossings, crossings_spec};
use crate::crossings::LayerNode;
use crate::edges::DirectedEdge;
use crate::edges::{mincross_weight_spec, segment_mincross_weight, SegmentEdge};
use crate::finite_sums::sum_list;

verus! {

/// The last position of `x` in `s`, or -1 when `x` does not occur.
pub open spec fn last_pos(s: Seq<usize>, x: usize) -> int
    decreases s.len(),
{
    if s.len() == 0 {
        -1
    } else if s.last() == x {
        s.len() - 1
    } else {
        last_pos(s.drop_last(), x)
    }
}

/// `node` with its order replaced.
pub open spec fn with_order(node: LayerNode, order: int) -> LayerNode {
    LayerNode {
        rank: node.rank,
        order: order as usize,
        real_node: node.real_node,
        cluster_path: node.cluster_path,
        kind: node.kind,
    }
}

/// The nodes after each node listed in `layer` got its (last) position
/// there as its order.
pub open spec fn refreshed(layer: Seq<usize>, nodes: Seq<LayerNode>) -> Seq<LayerNode> {
    Seq::new(
        nodes.len(),
        |v: int|
            if layer.contains(v as usize) {
                with_order(nodes[v], last_pos(layer, v as usize))
            } else {
                nodes[v]
            },
    )
}

/// The nodes after refreshing the orders of all layers, first to last.
pub open spec fn refreshed_all(layers: Seq<Vec<usize>>, nodes: Seq<LayerNode>) -> Seq<LayerNode>
    decreases layers.len(),
{
    if layers.len() == 0 {
        nodes
    } else {
        refreshed(layers.last()@, refreshed_all(layers.drop_last(), nodes))
    }
}

pub(crate) proof fn lemma_last_pos(s: Seq<usize>, x: usize)
    ensures
        -1 <= last_pos(s, x) < s.len(),
        s.contains(x) <==> last_pos(s, x) >= 0,
        last_pos(s, x) >= 0 ==> s[last_pos(s, x)] == x,
        forall|k: int| last_pos(s, x) < k < s.len() ==> s[k] != x,
    decreases s.len(),
{
    if s.len() > 0 {
        lemma_last_pos(s.drop_last(), x);
        if s.last() != x {
            if s.contains(x) {
                let k = choose|k: int| 0 <= k < s.len() && s[k] == x;
                assert(s.drop_last()[k] == x);
            }
            if s.drop_last().contains(x) {
                let k = choose|k: int| 0 <= k < s.drop_last().len() && s.drop_last()[k] == x;
                assert(s[k] == x);
            }
        } else {
            assert(s[s.len() - 1] == x);
        }
        assert forall|k: int| last_pos(s, x) < k < s.len() implies s[k] != x by {
            if k < s.len() - 1 {
                assert(s.drop_last()[k] == s[k]);
            }
        }
    }
}

/// Where `x` occurs exactly once, at `k`, that is its last position.
pub(crate) proof fn lemma_last_pos_unique(s: Seq<usize>, x: usize, k: int)
    requires
        0 <= k < s.len(),
        s[k] == x,
        forall|j: int| 0 <= j < s.len() && j != k ==> s[j] != x,
    ensures
        last_pos(s, x) == k,
{
    lemma_last_pos(s, x);
}

proof fn lemma_refreshed_push(s: Seq<usize>, x: usize, nodes: Seq<LayerNode>)
    requires
        x < nodes.len(),
        nodes.len() <= usize::MAX,
    ensures
        refreshed(s.push(x), nodes) == refreshed(s, nodes).update(
            x as int,
            with_order(nodes[x as int], s.len() as int),
        ),
{
    let a = refreshed(s.push(x), nodes);
    let b = refreshed(s, nodes).update(x as int, with_order(nodes[x as int], s.len() as int));
    assert forall|v: int| 0 <= v < nodes.len() implies a[v] == b[v] by {
        assert(s.push(x).drop_last() =~= s);
        if v != x as int {
            assert(s.push(x).contains(v as usize) == s.contains(v as usize)) by {
                if s.push(x).contains(v as usize) {
                    let k = choose|k: int| 0 <= k < s.push(x).len() && s.push(x)[k] == v as usize;
                    assert(k < s.len());
                    assert(s[k] == v as usize);
                }
                if s.contains(v as usize) {
                    let k = choose|k: int| 0 <= k < s.len() && s[k] == v as usize;
                    assert(s.push(x)[k] == v as usize);
                }
            }
        } else {
            assert(s.push(x)[s.len() as int] == x);
        }
    }
    assert(a =~= b);
}

/// Each node listed in `layer` gets its position there as its order (the
/// last one, where it is listed twice).
pub fn refresh_layer_order(layer: &[usize], nodes: &mut [LayerNode])
    requires
        forall|i: int| 0 <= i < layer@.len() ==> layer@[i] < old(nodes)@.len(),
    ensures
        final(nodes)@ == refreshed(layer@, old(nodes)@),
{
    let ghost start = nodes@;
    let count = nodes.len();
    let mut i: usize = 0;
    proof {
        assert(start.len() == count);
        assert(refreshed(layer@.subrange(0, 0), start) =~= start);
    }
    while i < layer.len()
        invariant
            i <= layer@.len(),
            forall|k: int| 0 <= k < layer@.len() ==> layer@[k] < start.len(),
            start.len() <= usize::MAX,
            nodes@ == refreshed(layer@.subrange(0, i as int), start),
        decreases layer.len() - i,
    {
        let node = layer[i];
        proof {
            assert(layer@.subrange(0, i + 1) =~= layer@.subrange(0, i as int).push(node));
            lemma_refreshed_push(layer@.subrange(0, i as int), node, start);
        }
        nodes[node].order = i;
        proof {
            assert(nodes@ =~= refreshed(layer@.subrange(0, i as int), start).update(
                node as int,
                with_order(start[node as int], i as int),
            ));
        }
        i = i + 1;
    }
    proof {
        assert(layer@.subrange(0, layer@.len() as int) =~= layer@);
    }
}

/// Refreshes the orders of every layer in turn.
pub fn refresh_orders(layers: &[Vec<usize>], nodes: &mut [LayerNode])
    requires
        forall|r: int, i: int|
            0 <= r < layers@.len() && 0 <= i < layers@[r]@.len() ==> (#[trigger] layers@[r]@[i]) < old(nodes)@.len(),
    ensures
        final(nodes)@ == refreshed_all(layers@, old(nodes)@),
{
    let ghost start = nodes@;
    let mut r: usize = 0;
    while r < layers.len()
        invariant
            r <= layers@.len(),
            forall|q: int, i: int|
                0 <= q < layers@.len() && 0 <= i < layers@[q]@.len() ==> (#[trigger] layers@[q]@[i]) < start.len(),
            nodes@ == refreshed_all(layers@.subrange(0, r as int), start),
            nodes@.len() == start.len(),
        decreases layers.len() - r,
    {
        proof {
            assert(layers@.subrange(0, r + 1).drop_last() =~= layers@.subrange(0, r as int));
            assert(layers@.subrange(0, r + 1).last() == layers@[r as int]);
            assert forall|i: int| 0 <= i < layers@[r as int]@.len() implies layers@[r as int]@[i] < nodes@.len() by {
                assert(layers@[r as int]@[i] < start.len());
            }
        }
        refresh_layer_order(&layers[r], nodes);
        r = r + 1;
    }
    proof {
        assert(layers@.subrange(0, layers@.len() as int) =~= layers@);
    }
}

/// The key a node is placed by before any crossing is counted: the input
/// node it stands for (dummies last), then its own index.
pub open spec fn initial_key_le(nodes: Seq<LayerNode>, a: usize, b: usize) -> bool {
    let ka: usize = match nodes[a as int].real_node {
        Some(r) => r,
        None => usize::MAX,
    };
    let kb: usize = match nodes[b as int].real_node {
        Some(r) => r,
        None => usize::MAX,
    };
    ka < kb || (ka == kb && a <= b)
}

/// `layer` is sorted by the initial key.
pub open spec fn initially_sorted(layer: Seq<usize>, nodes: Seq<LayerNode>) -> bool {
    forall|a: int, b: int| 0 <= a < b < layer.len() ==> initial_key_le(nodes, #[trigger] layer[a], #[trigger] layer[b])
}

fn initial_key(node: &LayerNode) -> (k: usize)
    ensures
        k == (match node.real_node {
            Some(r) => r,
            None => usize::MAX,
        }),
{
    match node.real_node {
        Some(r) => r,
        None => usize::MAX,
    }
}

/// `layer` sorted by the initial key.
fn sorted_by_initial_key(layer: &Vec<usize>, nodes: &[LayerNode]) -> (sorted: Vec<usize>)
    requires
        forall|k: int| 0 <= k < layer@.len() ==> layer@[k] < nodes@.len(),
    ensures
        sorted@.to_multiset() == layer@.to_multiset(),
        initially_sorted(sorted@, nodes@),
        forall|k: int| 0 <= k < sorted@.len() ==> sorted@[k] < nodes@.len(),
{
    broadcast use vstd::seq_lib::group_to_multiset_ensures;

    let mut sorted: Vec<usize> = Vec::new();
    let mut i: usize = 0;
    while i < layer.len()
        invariant
            i <= layer@.len(),
            forall|k: int| 0 <= k < layer@.len() ==> layer@[k] < nodes@.len(),
            forall|k: int| 0 <= k < sorted@.len() ==> sorted@[k] < nodes@.len(),
            sorted@.to_multiset() == layer@.subrange(0, i as int).to_multiset(),
            initially_sorted(sorted@, nodes@),
        decreases layer.len() - i,
    {
        let x = layer[i];
        let kx = initial_key(&nodes[x]);
        let mut pos: usize = 0;
        while pos < sorted.len() && (initial_key(&nodes[sorted[pos]]) < kx || (initial_key(&nodes[sorted[pos]])
            == kx && sorted[pos] <= x))
            invariant
                pos <= sorted@.len(),
                x < nodes@.len(),
                kx == (match nodes@[x as int].real_node {
                    Some(r) => r,
                    None => usize::MAX,
                }),
                forall|k: int| 0 <= k < sorted@.len() ==> sorted@[k] < nodes@.len(),
                forall|k: int| 0 <= k < pos ==> initial_key_le(nodes@, #[trigger] sorted@[k], x),
            decreases sorted.len() - pos,
        {
            pos += 1;
        }
        let ghost before = sorted@;
        sorted.insert(pos, x);
        proof {
            assert(layer@.subrange(0, i + 1) =~= layer@.subrange(0, i as int).push(x));
            assert(sorted@ == before.insert(pos as int, x));
            vstd::seq_lib::to_multiset_insert(before, pos as int, x);
            vstd::seq_lib::to_multiset_build(layer@.subrange(0, i as int), x);
            assert forall|a: int, b: int| 0 <= a < b < sorted@.len() implies initial_key_le(
                nodes@,
                #[trigger] sorted@[a],
                #[trigger] sorted@[b],
            ) by {
                if b < pos {
                } else if b == pos {
                    assert(sorted@[a] == before[a]);
                } else if a < pos {
                    assert(sorted@[a] == before[a]);
                    assert(sorted@[b] == before[b - 1]);
                    if pos < before.len() {
                        assert(initial_key_le(nodes@, before[a], before[pos as int]));
                        assert(!initial_key_le(nodes@, before[pos as int], x));
                    }
                } else if a == pos {
                    assert(sorted@[b] == before[b - 1]);
                    assert(!initial_key_le(nodes@, before[pos as int], x));
                    assert(initial_key_le(nodes@, before[pos as int], before[b - 1]) || b - 1 == pos);
                } else {
                    assert(sorted@[a] == before[a - 1]);
                    assert(sorted@[b] == before[b - 1]);
                }
            }
        }
        i += 1;
    }
    proof {
        assert(layer@.subrange(0, layer@.len() as int) =~= layer@);
    }
    sorted
}

/// Sorts every layer by the input node each entry stands for (dummies
/// last, ties by index) and records the positions as orders.
pub fn initialize_layer_orders(layers: &mut [Vec<usize>], layer_nodes: &mut [LayerNode])
    requires
        forall|r: int, i: int|
            0 <= r < old(layers)@.len() && 0 <= i < old(layers)@[r]@.len() ==> (#[trigger] old(layers)@[r]@[i])
                < old(layer_nodes)@.len(),
    ensures
        final(layers)@.len() == old(layers)@.len(),
        forall|r: int|
            0 <= r < old(layers)@.len() ==> (#[trigger] final(layers)@[r])@.to_multiset() == old(
                layers,
            )@[r]@.to_multiset() && initially_sorted(final(layers)@[r]@, old(layer_nodes)@),
        final(layer_nodes)@ == refreshed_all(final(layers)@, old(layer_nodes)@),
{
    let ghost start_layers = layers@;
    let ghost start_nodes = layer_nodes@;
    let mut r: usize = 0;
    while r < layers.len()
        invariant
            r <= layers@.len(),
            layers@.len() == start_layers.len(),
            forall|q: int, i: int|
                0 <= q < layers@.len() && 0 <= i < layers@[q]@.len() ==> (#[trigger] layers@[q]@[i])
                    < start_nodes.len(),
            forall|q: int| r <= q < layers@.len() ==> layers@[q] == start_layers[q],
            forall|q: int|
                0 <= q < r ==> (#[trigger] layers@[q])@.to_multiset() == start_layers[q]@.to_multiset()
                    && initially_sorted(layers@[q]@, start_nodes),
            layer_nodes@ == refreshed_all(layers@.subrange(0, r as int), start_nodes),
            layer_nodes@.len() == start_nodes.len(),
            forall|v: int|
                0 <= v < start_nodes.len() ==> (#[trigger] layer_nodes@[v]).real_node == start_nodes[v].real_node,
        decreases layers.len() - r,
    {
        let ghost done = layers@.subrange(0, r as int);
        let sorted = sorted_by_initial_key(&layers[r], layer_nodes);
        proof {
            assert(initially_sorted(sorted@, start_nodes)) by {
                assert forall|a: int, b: int| 0 <= a < b < sorted@.len() implies initial_key_le(
                    start_nodes,
                    #[trigger] sorted@[a],
                    #[trigger] sorted@[b],
                ) by {
                    assert(initial_key_le(layer_nodes@, sorted@[a], sorted@[b]));
                    assert(layer_nodes@[sorted@[a] as int].real_node == start_nodes[sorted@[a] as int].real_node);
                    assert(layer_nodes@[sorted@[b] as int].real_node == start_nodes[sorted@[b] as int].real_node);
                }
            }
        }
        layers[r] = sorted;
        proof {
            assert(layers@.subrange(0, r + 1).drop_last() =~= done);
            assert(layers@.subrange(0, r + 1).last() == layers@[r as int]);
        }
        refresh_layer_order(&layers[r], layer_nodes);
        proof {
            assert forall|v: int| 0 <= v < start_nodes.len() implies (#[trigger] layer_nodes@[v]).real_node
                == start_nodes[v].real_node by {
                let prev = refreshed_all(done, start_nodes);
                assert(layer_nodes@[v] == refreshed(layers@[r as int]@, prev)[v]);
            }
        }
        r = r + 1;
    }
    proof {
        assert(layers@.subrange(0, layers@.len() as int) =~= layers@);
    }
}

/// `left` must stay to the left of `right`: a flat constraint says so, or
/// the two sit in different clusters and `left` is already to the left.
pub open spec fn must_stay_left(nodes: Seq<LayerNode>, left: usize, right: usize, flat_constraints: Seq<(usize, usize)>) -> bool {
    flat_constraints.contains((left, right)) || (crossings_spec(
        nodes[left as int].cluster_path@,
        nodes[right as int].cluster_path@,
    ) > 0 && nodes[left as int].order < nodes[right as int].order)
}

/// Whether `left` must stay to the left of `right`.
pub fn left_to_right(nodes: &[LayerNode], left: usize, right: usize, flat_constraints: &[(usize, usize)]) -> (r: bool)
    requires
        left < nodes@.len(),
        right < nodes@.len(),
        nodes@[left as int].cluster_path@.len() + nodes@[right as int].cluster_path@.len() <= usize::MAX,
    ensures
        r == must_stay_left(nodes@, left, right, flat_constraints@),
{
    let mut i: usize = 0;
    while i < flat_constraints.len()
        invariant
            i <= flat_constraints@.len(),
            !flat_constraints@.subrange(0, i as int).contains((left, right)),
        decreases flat_constraints.len() - i,
    {
        let (a, b) = flat_constraints[i];
        if a == left && b == right {
            proof {
                assert(flat_constraints@[i as int] == (left, right));
            }
            return true;
        }
        proof {
            let s0 = flat_constraints@.subrange(0, i as int);
            let s1 = flat_constraints@.subrange(0, i as int + 1);
            if s1.contains((left, right)) {
                let k = choose|k: int| 0 <= k < s1.len() && s1[k] == (left, right);
                if k < i {
                    assert(s0[k] == (left, right));
                } else {
                    assert(s1[k] == flat_constraints@[i as int]);
                }
            }
        }
        i = i + 1;
    }
    proof {
        assert(flat_constraints@.subrange(0, flat_constraints@.len() as int) =~= flat_constraints@);
    }
    if cluster_boundary_crossings(&nodes[left].cluster_path, &nodes[right].cluster_path) > 0 {
        return nodes[left].order < nodes[right].order;
    }
    false
}

/// The end of a segment that lies away from the node it is counted at: the
/// tail when counting at heads, the head when counting at tails.
pub open spec fn far_end(s: SegmentEdge, at_head: bool) -> usize {
    if at_head {
        s.from
    } else {
        s.to
    }
}

/// The crossing weight of segment `ea`, at the left node, against `eb`, at
/// the right node, whose far ends have orders `oa` and `ob`: they cross when
/// `ea`'s far end lies further right (ties broken by edge index).
pub open spec fn cross_term(ea: SegmentEdge, eb: SegmentEdge, oa: int, ob: int) -> int {
    if oa > ob || (oa == ob && ea.edge_index > eb.edge_index) {
        mincross_weight_spec(ea) * mincross_weight_spec(eb)
    } else {
        0
    }
}

/// Crossing weight of the segments listed in `la` against segment `b`.
pub open spec fn row_cross(la: Seq<usize>, b: usize, segs: Seq<SegmentEdge>, nodes: Seq<LayerNode>, at_head: bool) -> int
    decreases la.len(),
{
    if la.len() == 0 {
        0
    } else {
        let ea = segs[la.last() as int];
        let eb = segs[b as int];
        row_cross(la.drop_last(), b, segs, nodes, at_head) + cross_term(
            ea,
            eb,
            nodes[far_end(ea, at_head) as int].order as int,
            nodes[far_end(eb, at_head) as int].order as int,
        )
    }
}

/// Crossing weight of the segments listed in `la` (at the left node) against
/// those listed in `lb` (at the right node).
pub open spec fn side_cross(la: Seq<usize>, lb: Seq<usize>, segs: Seq<SegmentEdge>, nodes: Seq<LayerNode>, at_head: bool) -> int
    decreases lb.len(),
{
    if lb.len() == 0 {
        0
    } else {
        side_cross(la, lb.drop_last(), segs, nodes, at_head) + row_cross(la, lb.last(), segs, nodes, at_head)
    }
}

/// Total crossing weight of the listed segments.
pub open spec fn weight_sum(l: Seq<usize>, segs: Seq<SegmentEdge>) -> int
    decreases l.len(),
{
    if l.len() == 0 {
        0
    } else {
        weight_sum(l.drop_last(), segs) + mincross_weight_spec(segs[l.last() as int])
    }
}

/// The crossing weight of `s` can be computed without overflow.
pub open spec fn weight_fits(s: SegmentEdge) -> bool {
    &&& s.cluster_crossings * 2 <= i32::MAX
    &&& s.weight + s.cluster_crossings * 2 + 2 <= i32::MAX
}

/// Every listed segment exists, its far end is a node whose order fits an
/// `i32`, and its crossing weight can be computed.
pub open spec fn listed_fit(l: Seq<usize>, segs: Seq<SegmentEdge>, nodes: Seq<LayerNode>, at_head: bool) -> bool {
    forall|k: int|
        0 <= k < l.len() ==> (#[trigger] l[k]) < segs.len() && far_end(segs[l[k] as int], at_head) < nodes.len()
            && nodes[far_end(segs[l[k] as int], at_head) as int].order <= i32::MAX && weight_fits(segs[l[k] as int])
}

proof fn lemma_weight_sum_nonneg(l: Seq<usize>, segs: Seq<SegmentEdge>)
    ensures
        weight_sum(l, segs) >= l.len(),
    decreases l.len(),
{
    if l.len() > 0 {
        lemma_weight_sum_nonneg(l.drop_last(), segs);
    }
}

proof fn lemma_row_cross_bounds(la: Seq<usize>, b: usize, segs: Seq<SegmentEdge>, nodes: Seq<LayerNode>, at_head: bool)
    ensures
        0 <= row_cross(la, b, segs, nodes, at_head) <= weight_sum(la, segs) * mincross_weight_spec(segs[b as int]),
    decreases la.len(),
{
    if la.len() > 0 {
        lemma_row_cross_bounds(la.drop_last(), b, segs, nodes, at_head);
        lemma_weight_sum_nonneg(la.drop_last(), segs);
        let wa = mincross_weight_spec(segs[la.last() as int]);
        let wb = mincross_weight_spec(segs[b as int]);
        let rest = weight_sum(la.drop_last(), segs);
        assert(0 <= wa * wb && rest * wb + wa * wb == (rest + wa) * wb) by (nonlinear_arith)
            requires
                wa >= 1,
                wb >= 1,
        ;
    }
}

pub(crate) proof fn lemma_side_cross_bounds(la: Seq<usize>, lb: Seq<usize>, segs: Seq<SegmentEdge>, nodes: Seq<LayerNode>, at_head: bool)
    ensures
        0 <= side_cross(la, lb, segs, nodes, at_head) <= weight_sum(la, segs) * weight_sum(lb, segs),
    decreases lb.len(),
{
    if lb.len() > 0 {
        lemma_side_cross_bounds(la, lb.drop_last(), segs, nodes, at_head);
        lemma_row_cross_bounds(la, lb.last(), segs, nodes, at_head);
        let sa = weight_sum(la, segs);
        let rest = weight_sum(lb.drop_last(), segs);
        let wb = mincross_weight_spec(segs[lb.last() as int]);
        assert(sa * rest + sa * wb == sa * (rest + wb)) by (nonlinear_arith);
    }
}

/// Crossing weight of the segments of `la` against those of `lb`, counted at
/// the heads (`at_head`) or at the tails.
fn side_cross_of(
    la: &Vec<usize>,
    lb: &Vec<usize>,
    segments: &[SegmentEdge],
    nodes: &[LayerNode],
    at_head: bool,
) -> (cross: i64)
    requires
        listed_fit(la@, segments@, nodes@, at_head),
        listed_fit(lb@, segments@, nodes@, at_head),
        weight_sum(la@, segments@) * weight_sum(lb@, segments@) <= i64::MAX,
    ensures
        cross == side_cross(la@, lb@, segments@, nodes@, at_head),
{
    let mut cross: i64 = 0;
    let mut j: usize = 0;
    proof {
        lemma_weight_sum_nonneg(la@, segments@);
    }
    while j < lb.len()
        invariant
            j <= lb@.len(),
            listed_fit(la@, segments@, nodes@, at_head),
            listed_fit(lb@, segments@, nodes@, at_head),
            weight_sum(la@, segments@) * weight_sum(lb@, segments@) <= i64::MAX,
            weight_sum(la@, segments@) >= 0,
            cross == side_cross(la@, lb@.subrange(0, j as int), segments@, nodes@, at_head),
        decreases lb.len() - j,
    {
        let eb = &segments[lb[j]];
        let far_b = if at_head {
            eb.from
        } else {
            eb.to
        };
        let inv = nodes[far_b].order as i32;
        let cnt = segment_mincross_weight(eb) as i64;
        let ghost row_start = cross as int;
        proof {
            assert(lb@.subrange(0, j + 1).drop_last() =~= lb@.subrange(0, j as int));
            assert(lb@.subrange(0, j + 1).last() == lb@[j as int]);
            lemma_side_cross_bounds(la@, lb@.subrange(0, j as int), segments@, nodes@, at_head);
            lemma_weight_sum_prefix(lb@, j as int + 1, segments@);
            lemma_weight_sum_nonneg(lb@.subrange(0, j as int), segments@);
            let sa = weight_sum(la@, segments@);
            let sp = weight_sum(lb@.subrange(0, j as int + 1), segments@);
            let sl = weight_sum(lb@, segments@);
            assert(sa * sp <= sa * sl) by (nonlinear_arith)
                requires
                    0 <= sp <= sl,
                    sa >= 0,
            ;
        }
        let mut i: usize = 0;
        while i < la.len()
            invariant
                i <= la@.len(),
                j < lb@.len(),
                listed_fit(la@, segments@, nodes@, at_head),
                weight_sum(la@, segments@) >= 0,
                weight_sum(la@, segments@) * weight_sum(lb@.subrange(0, j as int + 1), segments@) <= i64::MAX,
                eb == segments@[lb@[j as int] as int],
                inv == nodes@[far_end(*eb, at_head) as int].order,
                cnt == mincross_weight_spec(*eb),
                1 <= cnt <= 0x7fff_ffff,
                row_start == side_cross(la@, lb@.subrange(0, j as int), segments@, nodes@, at_head),
                0 <= row_start <= weight_sum(la@, segments@) * weight_sum(lb@.subrange(0, j as int), segments@),
                weight_sum(lb@.subrange(0, j as int), segments@) >= 0,
                weight_sum(lb@.subrange(0, j as int + 1), segments@) == weight_sum(lb@.subrange(0, j as int), segments@) + cnt,
                cross == row_start + row_cross(la@.subrange(0, i as int), lb@[j as int], segments@, nodes@, at_head),
            decreases la.len() - i,
        {
            let ea = &segments[la[i]];
            let far_a = if at_head {
                ea.from
            } else {
                ea.to
            };
            let t = nodes[far_a].order as i32 - inv;
            let ghost before_row = row_cross(la@.subrange(0, i as int), lb@[j as int], segments@, nodes@, at_head);
            proof {
                assert(la@.subrange(0, i + 1).drop_last() =~= la@.subrange(0, i as int));
                assert(la@.subrange(0, i + 1).last() == la@[i as int]);
                lemma_row_cross_bounds(la@.subrange(0, i + 1), lb@[j as int], segments@, nodes@, at_head);
                lemma_weight_sum_prefix(la@, i as int + 1, segments@);
                let sa = weight_sum(la@, segments@);
                let sp = weight_sum(la@.subrange(0, i + 1), segments@);
                let sj = weight_sum(lb@.subrange(0, j as int), segments@);
                assert(sa * sj + sp * cnt <= sa * (sj + cnt)) by (nonlinear_arith)
                    requires
                        0 <= sp <= sa,
                        cnt >= 1,
                        sj >= 0,
                ;
            }
            if t > 0 || (t == 0 && ea.edge_index > eb.edge_index) {
                let w = segment_mincross_weight(ea) as i64;
                proof {
                    assert(1 <= w);
                    assert(w * cnt == mincross_weight_spec(*ea) * mincross_weight_spec(*eb));
                    assert(1 <= w * cnt) by (nonlinear_arith)
                        requires
                            w >= 1,
                            cnt >= 1,
                    ;
                    assert(w * cnt <= 0x4000_0000_0000_0000) by (nonlinear_arith)
                        requires
                            1 <= w <= 0x7fff_ffff,
                            1 <= cnt <= 0x7fff_ffff,
                    ;
                    assert(row_cross(la@.subrange(0, i + 1), lb@[j as int], segments@, nodes@, at_head) == before_row + w
                        * cnt);
                    let sa = weight_sum(la@, segments@);
                    let sp = weight_sum(la@.subrange(0, i + 1), segments@);
                    let sj = weight_sum(lb@.subrange(0, j as int), segments@);
                    assert(before_row + w * cnt <= sp * cnt);
                    assert(row_start <= sa * sj);
                    assert(sa * sj + sp * cnt <= sa * (sj + cnt));
                    assert(cross + w * cnt <= i64::MAX);
                }
                cross += w * cnt;
            }
            i += 1;
        }
        proof {
            assert(la@.subrange(0, la@.len() as int) =~= la@);
        }
        j += 1;
    }
    proof {
        assert(lb@.subrange(0, lb@.len() as int) =~= lb@);
    }
    cross
}

proof fn lemma_weight_sum_prefix(l: Seq<usize>, k: int, segs: Seq<SegmentEdge>)
    requires
        0 <= k <= l.len(),
    ensures
        0 <= weight_sum(l.subrange(0, k), segs) <= weight_sum(l, segs),
    decreases l.len() - k,
{
    lemma_weight_sum_nonneg(l.subrange(0, k), segs);
    if k < l.len() {
        lemma_weight_sum_prefix(l, k + 1, segs);
        assert(l.subrange(0, k + 1).drop_last() =~= l.subrange(0, k));
    } else {
        assert(l.subrange(0, k) =~= l);
    }
}

/// Crossing weight, counted at the heads, of the segments entering `left`
/// against those entering `right` when `left` lies to the left: pairs whose
/// tails lie the other way round (or on one node with the higher edge index
/// entering `left`), each weighing the product of the two segment weights.
pub fn weighted_in_cross(
    left: usize,
    right: usize,
    incoming_segments: &[Vec<usize>],
    segments: &[SegmentEdge],
    nodes: &[LayerNode],
) -> (cross: i64)
    requires
        left < incoming_segments@.len(),
        right < incoming_segments@.len(),
        listed_fit(incoming_segments@[left as int]@, segments@, nodes@, true),
        listed_fit(incoming_segments@[right as int]@, segments@, nodes@, true),
        weight_sum(incoming_segments@[left as int]@, segments@) * weight_sum(incoming_segments@[right as int]@, segments@)
            <= i64::MAX,
    ensures
        cross == side_cross(
            incoming_segments@[left as int]@,
            incoming_segments@[right as int]@,
            segments@,
            nodes@,
            true,
        ),
{
    side_cross_of(&incoming_segments[left], &incoming_segments[right], segments, nodes, true)
}

/// Crossing weight, counted at the tails, of the segments leaving `left`
/// against those leaving `right` when `left` lies to the left.
pub fn weighted_out_cross(
    left: usize,
    right: usize,
    outgoing_segments: &[Vec<usize>],
    segments: &[SegmentEdge],
    nodes: &[LayerNode],
) -> (cross: i64)
    requires
        left < outgoing_segments@.len(),
        right < outgoing_segments@.len(),
        listed_fit(outgoing_segments@[left as int]@, segments@, nodes@, false),
        listed_fit(outgoing_segments@[right as int]@, segments@, nodes@, false),
        weight_sum(outgoing_segments@[left as int]@, segments@) * weight_sum(outgoing_segments@[right as int]@, segments@)
            <= i64::MAX,
    ensures
        cross == side_cross(
            outgoing_segments@[left as int]@,
            outgoing_segments@[right as int]@,
            segments@,
            nodes@,
            false,
        ),
{
    side_cross_of(&outgoing_segments[left], &outgoing_segments[right], segments, nodes, false)
}

/// The crossing weight of `segs[a]` against `segs[b]` as the cross counts
/// read it.
pub open spec fn listed_cross(segs: Seq<SegmentEdge>, nodes: Seq<LayerNode>, at_head: bool, a: int, b: int) -> int {
    cross_term(
        segs[a],
        segs[b],
        nodes[far_end(segs[a], at_head) as int].order as int,
        nodes[far_end(segs[b], at_head) as int].order as int,
    )
}

pub proof fn lemma_row_cross_sum(la: Seq<usize>, b: usize, segs: Seq<SegmentEdge>, nodes: Seq<LayerNode>, at_head: bool)
    ensures
        row_cross(la, b, segs, nodes, at_head) == sum_list(la, |a: int| listed_cross(segs, nodes, at_head, a, b as int)),
    decreases la.len(),
{
    if la.len() > 0 {
        lemma_row_cross_sum(la.drop_last(), b, segs, nodes, at_head);
    }
}

pub proof fn lemma_side_cross_sum(la: Seq<usize>, lb: Seq<usize>, segs: Seq<SegmentEdge>, nodes: Seq<LayerNode>, at_head: bool)
    ensures
        side_cross(la, lb, segs, nodes, at_head) == sum_list(
            lb,
            |b: int| sum_list(la, |a: int| listed_cross(segs, nodes, at_head, a, b)),
        ),
    decreases lb.len(),
{
    if lb.len() > 0 {
        lemma_side_cross_sum(la, lb.drop_last(), segs, nodes, at_head);
        lemma_row_cross_sum(la, lb.last(), segs, nodes, at_head);
    }
}

/// The pair a flat edge asks to keep in order, when its ends are two
/// different layer nodes on one rank: the one with the lower order first.
pub open spec fn flat_pair(e: DirectedEdge, real_layer_node: Seq<usize>, nodes: Seq<LayerNode>) -> Option<(usize, usize)> {
    let a = real_layer_node[e.tail as int];
    let b = real_layer_node[e.head as int];
    if !e.flat || a == b || nodes[a as int].rank != nodes[b as int].rank {
        None
    } else if nodes[a as int].order <= nodes[b as int].order {
        Some((a, b))
    } else {
        Some((b, a))
    }
}

/// The pairs the flat edges ask to keep in order, in edge order.
pub open spec fn flat_pairs(edges: Seq<DirectedEdge>, real_layer_node: Seq<usize>, nodes: Seq<LayerNode>) -> Seq<
    (usize, usize),
>
    decreases edges.len(),
{
    if edges.len() == 0 {
        Seq::empty()
    } else {
        let rest = flat_pairs(edges.drop_last(), real_layer_node, nodes);
        match flat_pair(edges.last(), real_layer_node, nodes) {
            Some(p) => rest.push(p),
            None => rest,
        }
    }
}

/// The ordering constraints of the flat edges: for each flat edge whose
/// ends stand for two different layer nodes on one rank, the two nodes in
/// their current order.
pub fn collect_flat_order_constraints(
    edges: &[DirectedEdge],
    real_layer_node: &[usize],
    layer_nodes: &[LayerNode],
) -> (constraints: Vec<(usize, usize)>)
    requires
        forall|e: int|
            0 <= e < edges@.len() && (#[trigger] edges@[e]).flat ==> edges@[e].tail < real_layer_node@.len()
                && edges@[e].head < real_layer_node@.len() && real_layer_node@[edges@[e].tail as int]
                < layer_nodes@.len() && real_layer_node@[edges@[e].head as int] < layer_nodes@.len(),
    ensures
        constraints@ == flat_pairs(edges@, real_layer_node@, layer_nodes@),
{
    let mut constraints: Vec<(usize, usize)> = Vec::new();
    let mut i: usize = 0;
    while i < edges.len()
        invariant
            i <= edges@.len(),
            forall|e: int|
                0 <= e < edges@.len() && (#[trigger] edges@[e]).flat ==> edges@[e].tail < real_layer_node@.len()
                    && edges@[e].head < real_layer_node@.len() && real_layer_node@[edges@[e].tail as int]
                    < layer_nodes@.len() && real_layer_node@[edges@[e].head as int] < layer_nodes@.len(),
            constraints@ == flat_pairs(edges@.subrange(0, i as int), real_layer_node@, layer_nodes@),
        decreases edges.len() - i,
    {
        let edge = &edges[i];
        proof {
            assert(edges@.subrange(0, i + 1).drop_last() =~= edges@.subrange(0, i as int));
            assert(edges@.subrange(0, i + 1).last() == edges@[i as int]);
        }
        if edge.flat {
            let a = real_layer_node[edge.tail];
            let b = real_layer_node[edge.head];
            if a != b && layer_nodes[a].rank == layer_nodes[b].rank {
                if layer_nodes[a].order <= layer_nodes[b].order {
                    constraints.push((a, b));
                } else {
                    constraints.push((b, a));
                }
            }
        }
        i += 1;
    }
    proof {
        assert(edges@.subrange(0, edges@.len() as int) =~= edges@);
    }
    constraints
}

/// The highest order among the nodes that flat constraints put to the left
/// of `node` on its rank, and the lowest among those they put to its right,
/// over the first `k` constraints.
pub open spec fn flat_neighbour_orders(
    node: usize,
    nodes: Seq<LayerNode>,
    flat_constraints: Seq<(usize, usize)>,
    k: int,
) -> (Option<usize>, Option<usize>)
    decreases k,
{
    if k <= 0 {
        (None, None)
    } else {
        let (lo, hi) = flat_neighbour_orders(node, nodes, flat_constraints, k - 1);
        let (left, right) = flat_constraints[k - 1];
        if right == node && nodes[left as int].rank == nodes[node as int].rank {
            let o = nodes[left as int].order;
            (
                match lo {
                    Some(m) => Some(if o > m {
                        o
                    } else {
                        m
                    }),
                    None => Some(o),
                },
                hi,
            )
        } else if left == node && nodes[right as int].rank == nodes[node as int].rank {
            let o = nodes[right as int].order;
            (
                lo,
                match hi {
                    Some(m) => Some(if o < m {
                        o
                    } else {
                        m
                    }),
                    None => Some(o),
                },
            )
        } else {
            (lo, hi)
        }
    }
}

/// The position flat constraints ask of `node`: one right of the rightmost
/// node they put to its left, else one left of the leftmost node they put
/// to its right (not below zero), else none.
pub open spec fn flat_median_spec(node: usize, nodes: Seq<LayerNode>, flat_constraints: Seq<(usize, usize)>) -> Option<
    usize,
> {
    let (lo, hi) = flat_neighbour_orders(node, nodes, flat_constraints, flat_constraints.len() as int);
    match lo {
        Some(o) => Some((o + 1) as usize),
        None => match hi {
            Some(o) => Some(if o == 0 {
                0usize
            } else {
                (o - 1) as usize
            }),
            None => None,
        },
    }
}

/// Where the flat constraints of `node` want it within its rank, if they
/// constrain it at all (the median an ordering sweep uses for it).
pub fn flat_constraint_median(node: usize, nodes: &[LayerNode], flat_constraints: &[(usize, usize)]) -> (median:
    Option<usize>)
    requires
        node < nodes@.len(),
        forall|k: int|
            0 <= k < flat_constraints@.len() ==> (#[trigger] flat_constraints@[k]).0 < nodes@.len()
                && flat_constraints@[k].1 < nodes@.len(),
        forall|x: int| 0 <= x < nodes@.len() ==> (#[trigger] nodes@[x]).order < usize::MAX,
    ensures
        median == flat_median_spec(node, nodes@, flat_constraints@),
{
    let mut left_max: Option<usize> = None;
    let mut right_min: Option<usize> = None;
    let mut k: usize = 0;
    while k < flat_constraints.len()
        invariant
            k <= flat_constraints@.len(),
            node < nodes@.len(),
            forall|j: int|
                0 <= j < flat_constraints@.len() ==> (#[trigger] flat_constraints@[j]).0 < nodes@.len()
                    && flat_constraints@[j].1 < nodes@.len(),
            forall|x: int| 0 <= x < nodes@.len() ==> (#[trigger] nodes@[x]).order < usize::MAX,
            (match left_max {
                Some(l) => Some(nodes@[l as int].order),
                None => None,
            }, match right_min {
                Some(r) => Some(nodes@[r as int].order),
                None => None,
            }) == flat_neighbour_orders(node, nodes@, flat_constraints@, k as int),
            left_max matches Some(l) ==> l < nodes@.len(),
            right_min matches Some(r) ==> r < nodes@.len(),
        decreases flat_constraints.len() - k,
    {
        let (left, right) = flat_constraints[k];
        if right == node && nodes[left].rank == nodes[node].rank {
            left_max = match left_max {
                Some(cur) => Some(if nodes[left].order > nodes[cur].order {
                    left
                } else {
                    cur
                }),
                None => Some(left),
            };
        } else if left == node && nodes[right].rank == nodes[node].rank {
            right_min = match right_min {
                Some(cur) => Some(if nodes[right].order < nodes[cur].order {
                    right
                } else {
                    cur
                }),
                None => Some(right),
            };
        }
        k += 1;
    }
    if let Some(left) = left_max {
        return Some(nodes[left].order + 1);
    }
    if let Some(right) = right_min {
        return Some(nodes[right].order.saturating_sub(1));
    }
    None
}

/// Cluster boundaries a chain of flat segments crosses: those between the
/// cluster paths of its first and last node (none for a chain of fewer
/// than two nodes).
pub fn flat_chain_cluster_crossings(chain: &[usize], nodes: &[LayerNode]) -> (crossings: usize)
    requires
        forall|k: int| 0 <= k < chain@.len() ==> chain@[k] < nodes@.len(),
        forall|x: int| 0 <= x < nodes@.len() ==> (#[trigger] nodes@[x]).cluster_path@.len() <= usize::MAX / 2,
    ensures
        crossings == (if chain@.len() < 2 {
            0
        } else {
            crossings_spec(
                nodes@[chain@[0] as int].cluster_path@,
                nodes@[chain@[chain@.len() - 1] as int].cluster_path@,
            )
        }),
{
    if chain.len() < 2 {
        return 0;
    }
    let first = chain[0];
    let last = chain[chain.len() - 1];
    proof {
        assert(nodes@[first as int].cluster_path@.len() <= usize::MAX / 2);
        assert(nodes@[last as int].cluster_path@.len() <= usize::MAX / 2);
    }
    cluster_boundary_crossings(&nodes[first].cluster_path, &nodes[last].cluster_path)
}

} // verus!
