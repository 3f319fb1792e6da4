//! Building the layered graph: a layer node for every input node at its
//! rank, a chain of dummy nodes along every edge that spans several ranks,
//! and a virtual label node for every labelled flat edge.
use std::collections::HashMap;

use vstd::prelude::*;

use crate::cluster_closure::copy_list;
use crate::cluster_paths::{common_prefix_len, dummy_cluster_path_between, dummy_path_spec, shared_prefix_len};
use crate::crossings::{LayerNode, LayerNodeKind};
use crate::edges::{DirectedEdge, SegmentEdge};
use crate::ranking::{lemma_max_min_of, max_of, max_rank, min_of};

verus! {

broadcast use vstd::std_specs::hash::group_hash_axioms;

/// The layered graph: the nodes of every rank in order, the layer nodes,
/// the layer node of every input node, the segments of every edge and the
/// chain of layer nodes every edge runs through, by edge index.
pub struct Layering {
    pub layers: Vec<Vec<usize>>,
    pub layer_nodes: Vec<LayerNode>,
    pub real_layer_node: Vec<usize>,
    pub segment_edges: Vec<SegmentEdge>,
    pub chains: HashMap<usize, Vec<usize>>,
}

/// A layer node as plain values: rank, order, input node, cluster path and
/// kind.
pub open spec fn node_view(n: LayerNode) -> (usize, usize, Option<usize>, Seq<usize>, LayerNodeKind) {
    (n.rank, n.order, n.real_node, n.cluster_path@, n.kind)
}

/// The layer nodes as plain values.
pub open spec fn nodes_view(ns: Seq<LayerNode>) -> Seq<(usize, usize, Option<usize>, Seq<usize>, LayerNodeKind)> {
    ns.map_values(|n: LayerNode| node_view(n))
}

/// The layers as sequences.
pub open spec fn layers_view(ls: Seq<Vec<usize>>) -> Seq<Seq<usize>> {
    ls.map_values(|l: Vec<usize>| l@)
}

/// A rank as a layer index: negative ranks count as 0.
pub open spec fn clamped_rank(r: i32) -> usize {
    if r < 0 {
        0
    } else {
        r as usize
    }
}

/// `layers` with empty layers added until layer `rank` exists.
pub open spec fn with_rank(layers: Seq<Seq<usize>>, rank: int) -> Seq<Seq<usize>> {
    if rank < layers.len() {
        layers
    } else {
        layers + Seq::new((rank + 1 - layers.len()) as nat, |i: int| Seq::<usize>::empty())
    }
}

/// `layers` with node `id` appended to layer `rank`, adding layers as needed.
pub open spec fn place(layers: Seq<Seq<usize>>, rank: int, id: usize) -> Seq<Seq<usize>> {
    let ext = with_rank(layers, rank);
    ext.update(rank, ext[rank].push(id))
}

/// Number of layers made before any node is placed: one more than the
/// highest rank, and at least one.
pub open spec fn initial_layer_count(ranks: Seq<i32>) -> int {
    if ranks.len() > 0 && max_of(ranks) > 0 {
        max_of(ranks) + 1
    } else {
        1
    }
}

/// The layers after the first `k` input nodes were placed at their ranks.
pub open spec fn real_layers(ranks: Seq<i32>, k: int) -> Seq<Seq<usize>>
    decreases k,
{
    if k <= 0 {
        Seq::new(initial_layer_count(ranks) as nat, |i: int| Seq::<usize>::empty())
    } else {
        place(real_layers(ranks, k - 1), clamped_rank(ranks[k - 1]) as int, (k - 1) as usize)
    }
}

/// The layer node of input node `l`.
pub open spec fn real_node_view(ranks: Seq<i32>, paths: Seq<Vec<usize>>, l: int) -> (
    usize,
    usize,
    Option<usize>,
    Seq<usize>,
    LayerNodeKind,
) {
    (clamped_rank(ranks[l]), 0, Some(l as usize), paths[l]@, LayerNodeKind::Real)
}

/// One layer node per input node, at its rank (negative ranks at 0), in
/// input order; input node `l` gets layer node `l`.
fn place_real_nodes(ranks: &Vec<i32>, paths: &[Vec<usize>]) -> (layering: Layering)
    requires
        paths@.len() == ranks@.len(),
    ensures
        nodes_view(layering.layer_nodes@) == Seq::new(ranks@.len(), |l: int| real_node_view(ranks@, paths@, l)),
        layers_view(layering.layers@) == real_layers(ranks@, ranks@.len() as int),
        layering.real_layer_node@ == Seq::new(ranks@.len(), |l: int| l as usize),
        layering.segment_edges@.len() == 0,
        layering.chains@ == Map::<usize, Vec<usize>>::empty(),
{
    let n = ranks.len();
    let top = max_rank(ranks.as_slice());
    proof {
        if ranks@.len() > 0 {
            crate::ranking::lemma_max_min_of(ranks@);
        }
    }
    let count: usize = if top + 1 > 1 {
        top + 1
    } else {
        1
    };
    let mut layers: Vec<Vec<usize>> = Vec::new();
    let mut k: usize = 0;
    while k < count
        invariant
            k <= count,
            layers@.len() == k,
            forall|i: int| 0 <= i < k ==> (#[trigger] layers@[i])@ == Seq::<usize>::empty(),
        decreases count - k,
    {
        layers.push(Vec::new());
        k += 1;
    }
    proof {
        assert(count as int == initial_layer_count(ranks@));
        assert(layers_view(layers@) =~= real_layers(ranks@, 0));
    }
    let mut layer_nodes: Vec<LayerNode> = Vec::new();
    let mut real_layer_node: Vec<usize> = Vec::new();
    let mut local: usize = 0;
    while local < n
        invariant
            local <= n,
            n == ranks@.len(),
            paths@.len() == n,
            nodes_view(layer_nodes@) == Seq::new(local as nat, |l: int| real_node_view(ranks@, paths@, l)),
            layers_view(layers@) == real_layers(ranks@, local as int),
            real_layer_node@ == Seq::new(local as nat, |l: int| l as usize),
        decreases n - local,
    {
        let r = ranks[local];
        let rank: usize = if r < 0 {
            0
        } else {
            r as usize
        };
        let ghost before = layers_view(layers@);
        while rank >= layers.len()
            invariant
                layers_view(layers@) == with_rank(before, rank as int).subrange(0, layers@.len() as int),
                before.len() <= layers@.len(),
                layers@.len() <= with_rank(before, rank as int).len(),
            decreases rank + 1 - layers.len(),
        {
            let ghost prev = layers@;
            layers.push(Vec::new());
            proof {
                assert(layers_view(layers@) =~= layers_view(prev).push(Seq::<usize>::empty()));
            }
        }
        proof {
            assert(layers_view(layers@) =~= with_rank(before, rank as int));
        }
        assert(nodes_view(layer_nodes@).len() == layer_nodes@.len());
        let id = layer_nodes.len();
        let ghost nodes_before = layer_nodes@;
        layer_nodes.push(LayerNode {
            rank,
            order: 0,
            real_node: Some(local),
            cluster_path: copy_list(paths[local].as_slice()),
            kind: LayerNodeKind::Real,
        });
        let ghost mid = layers@;
        layers[rank].push(id);
        proof {
            assert(id == local);
            assert(layers_view(layers@) =~= place(before, rank as int, local)) by {
                assert(layers_view(layers@) =~= layers_view(mid).update(rank as int, layers_view(mid)[rank as int].push(id)));
            }
            assert(nodes_view(layer_nodes@) =~= Seq::new((local + 1) as nat, |l: int| real_node_view(ranks@, paths@, l))) by {
                assert(nodes_view(layer_nodes@) =~= nodes_view(nodes_before).push(node_view(layer_nodes@[local as int])));
            }
        }
        real_layer_node.push(id);
        proof {
            assert(real_layer_node@ =~= Seq::new((local + 1) as nat, |l: int| l as usize));
        }
        local += 1;
    }
    Layering {
        layers,
        layer_nodes,
        real_layer_node,
        segment_edges: Vec::new(),
        chains: HashMap::new(),
    }
}

/// Appends node `id` to layer `rank`, adding empty layers as needed.
fn place_node(layers: &mut Vec<Vec<usize>>, rank: usize, id: usize)
    ensures
        layers_view(final(layers)@) == place(layers_view(old(layers)@), rank as int, id),
{
    let ghost before = layers_view(layers@);
    while rank >= layers.len()
        invariant
            layers_view(layers@) == with_rank(before, rank as int).subrange(0, layers@.len() as int),
            before.len() <= layers@.len(),
            layers@.len() <= with_rank(before, rank as int).len(),
        decreases rank + 1 - layers.len(),
    {
        let ghost prev = layers@;
        layers.push(Vec::new());
        proof {
            assert(layers_view(layers@) =~= layers_view(prev).push(Seq::<usize>::empty()));
        }
    }
    proof {
        assert(layers_view(layers@) =~= with_rank(before, rank as int));
    }
    let ghost mid = layers@;
    layers[rank].push(id);
    proof {
        assert(layers_view(layers@) =~= layers_view(mid).update(rank as int, layers_view(mid)[rank as int].push(id)));
    }
}

/// The chains as sequences.
pub open spec fn chains_view(m: Map<usize, Vec<usize>>) -> Map<usize, Seq<usize>> {
    Map::new(|k: usize| m.dom().contains(k), |k: usize| m[k]@)
}

/// The layered graph and the ranks as plain values.
pub open spec fn layering_view(l: Layering, ranks: Seq<i32>) -> (
    Seq<(usize, usize, Option<usize>, Seq<usize>, LayerNodeKind)>,
    Seq<Seq<usize>>,
    Seq<SegmentEdge>,
    Map<usize, Seq<usize>>,
    Seq<i32>,
) {
    (nodes_view(l.layer_nodes@), layers_view(l.layers@), l.segment_edges@, chains_view(l.chains@), ranks)
}

/// `w`, but at least 1.
pub open spec fn at_least_one(w: int) -> int {
    if w < 1 {
        1
    } else {
        w
    }
}

/// A segment of edge `e` from layer node `from` to layer node `to`.
pub open spec fn edge_segment(e: DirectedEdge, from: usize, to: usize, weight: int, flat: bool) -> SegmentEdge {
    SegmentEdge {
        from,
        to,
        edge_index: e.index,
        weight: weight as i32,
        cluster_crossings: e.cluster_crossings,
        flat,
        temp_kind: e.temp_kind,
    }
}

/// The dummy node at `step` of `diff` on edge `e`, which leaves rank
/// `tail_rank`.
pub open spec fn dummy_view(e: DirectedEdge, tail_rank: int, step: int, diff: int, tail_path: Seq<usize>, head_path: Seq<usize>) -> (
    usize,
    usize,
    Option<usize>,
    Seq<usize>,
    LayerNodeKind,
) {
    (
        (tail_rank + step) as usize,
        0,
        None,
        dummy_path_spec(tail_path, head_path, step, diff),
        LayerNodeKind::Dummy { edge_index: e.index, step: step as usize },
    )
}

/// `layers` after the first `k` dummies (numbered from `base`) were placed
/// on the ranks after `tail_rank`.
pub open spec fn place_dummies(layers: Seq<Seq<usize>>, tail_rank: int, base: int, k: int) -> Seq<Seq<usize>>
    decreases k,
{
    if k <= 0 {
        layers
    } else {
        place(place_dummies(layers, tail_rank, base, k - 1), tail_rank + k, (base + k - 1) as usize)
    }
}

/// The segments of an edge spanning `diff` ranks: tail, the dummies
/// numbered from `base`, head.
pub open spec fn long_edge_segments(e: DirectedEdge, tail: usize, head: usize, base: int, diff: int) -> Seq<SegmentEdge> {
    Seq::new(
        diff as nat,
        |j: int|
            edge_segment(
                e,
                if j == 0 {
                    tail
                } else {
                    (base + j - 1) as usize
                },
                if j == diff - 1 {
                    head
                } else {
                    (base + j) as usize
                },
                at_least_one(e.weight as int),
                false,
            ),
    )
}

/// The chain of an edge spanning `diff` ranks.
pub open spec fn long_edge_chain(tail: usize, head: usize, base: int, diff: int) -> Seq<usize> {
    seq![tail] + Seq::new((diff - 1) as nat, |j: int| (base + j) as usize) + seq![head]
}

/// The rank of a flat edge's label node: the rank above the edge, or 0.
pub open spec fn label_rank(edge_rank: int) -> int {
    if edge_rank > 0 {
        edge_rank - 1
    } else {
        0
    }
}

/// What laying out edge `e` does to the layered graph and the ranks. An
/// edge that is not flat and points to a rank no lower than its tail's
/// first raises its head to one below the tail. Edges whose head rank is
/// negative add nothing. A flat edge adds one flat segment, or, when
/// labelled, a label node on the rank above and two segments to it. Any
/// other edge adds one dummy node on every rank strictly between its ends
/// and the segments that chain them.
pub open spec fn layer_edge(
    st: (Seq<(usize, usize, Option<usize>, Seq<usize>, LayerNodeKind)>, Seq<Seq<usize>>, Seq<SegmentEdge>, Map<usize, Seq<usize>>, Seq<i32>),
    e: DirectedEdge,
    paths: Seq<Vec<usize>>,
) -> (Seq<(usize, usize, Option<usize>, Seq<usize>, LayerNodeKind)>, Seq<Seq<usize>>, Seq<SegmentEdge>, Map<usize, Seq<usize>>, Seq<i32>) {
    let (nodes, layers, segs, chains, ranks) = st;
    let tr0 = ranks[e.tail as int] as int;
    let hr0 = ranks[e.head as int] as int;
    let raise = !e.flat && hr0 <= tr0;
    let hr: int = if raise {
        tr0 + 1
    } else {
        hr0
    };
    let ranks1 = if raise {
        ranks.update(e.head as int, (tr0 + 1) as i32)
    } else {
        ranks
    };
    if hr < 0 {
        (nodes, layers, segs, chains, ranks1)
    } else {
        let tr: int = if tr0 < 0 {
            0
        } else {
            tr0
        };
        let diff = hr - tr;
        let base = nodes.len() as int;
        let tp = paths[e.tail as int]@;
        let hp = paths[e.head as int]@;
        if diff == 0 {
            if !e.flat {
                (nodes, layers, segs, chains, ranks1)
            } else if e.label is Some {
                let lr = label_rank(tr);
                let w = at_least_one(e.weight + 1);
                (
                    nodes.push(
                        (
                            lr as usize,
                            0,
                            None,
                            tp.subrange(0, common_prefix_len(tp, hp) as int),
                            LayerNodeKind::FlatVirtual { edge_index: e.index },
                        ),
                    ),
                    place(layers, lr, base as usize),
                    segs + seq![edge_segment(e, base as usize, e.tail, w, lr == tr), edge_segment(e, base as usize, e.head, w, lr == tr)],
                    chains.insert(e.index, seq![e.tail, base as usize, e.head]),
                    ranks1,
                )
            } else {
                (
                    nodes,
                    layers,
                    segs.push(edge_segment(e, e.tail, e.head, at_least_one(e.weight as int), true)),
                    chains.insert(e.index, seq![e.tail, e.head]),
                    ranks1,
                )
            }
        } else {
            (
                nodes + Seq::new((diff - 1) as nat, |j: int| dummy_view(e, tr, j + 1, diff, tp, hp)),
                place_dummies(layers, tr, base, diff - 1),
                segs + long_edge_segments(e, e.tail, e.head, base, diff),
                chains.insert(e.index, long_edge_chain(e.tail, e.head, base, diff)),
                ranks1,
            )
        }
    }
}

/// Law: each dummy of a long edge carries the cluster path of its own
/// step. When an edge that is not flat leaves a node on a rank `tr >= 0`
/// for a node at least two ranks lower, laying it out appends one dummy per
/// rank in between, and the dummy at step `s` (`1 <= s < diff`) sits on
/// rank `tr + s`, stands for step `s` of the edge, and lies in the clusters
/// `dummy_path_spec` gives for step `s` of `diff` between the tail's and the
/// head's cluster paths. The edge's new segments chain the tail, the
/// dummies in step order and the head, each with the edge's weight (at
/// least one).
pub proof fn law_dummies_follow_their_step(
    st: (Seq<(usize, usize, Option<usize>, Seq<usize>, LayerNodeKind)>, Seq<Seq<usize>>, Seq<SegmentEdge>, Map<usize, Seq<usize>>, Seq<i32>),
    e: DirectedEdge,
    paths: Seq<Vec<usize>>,
)
    requires
        !e.flat,
        e.tail < st.4.len(),
        e.head < st.4.len(),
        0 <= st.4[e.tail as int],
        st.4[e.tail as int] + 2 <= st.4[e.head as int],
        st.0.len() + st.4[e.head as int] <= usize::MAX,
    ensures
        ({
            let tr = st.4[e.tail as int] as int;
            let diff = st.4[e.head as int] - tr;
            let out = layer_edge(st, e, paths).0;
            let segs = layer_edge(st, e, paths).2;
            let base = st.0.len() as int;
            &&& out.len() == st.0.len() + diff - 1
            &&& out.subrange(0, st.0.len() as int) == st.0
            &&& segs.len() == st.2.len() + diff
            &&& segs.subrange(0, st.2.len() as int) == st.2
            &&& segs[st.2.len() as int].from == e.tail
            &&& segs[st.2.len() + diff - 1].to == e.head
            &&& forall|j: int|
                0 <= j < diff - 1 ==> #[trigger] segs[st.2.len() + j].to == base + j && segs[st.2.len() + j + 1].from
                    == base + j
            &&& forall|j: int|
                0 <= j < diff ==> !(#[trigger] segs[st.2.len() + j]).flat && segs[st.2.len() + j].edge_index == e.index
                    && segs[st.2.len() + j].weight == (if e.weight < 1 {
                    1
                } else {
                    e.weight
                })
            &&& forall|s: int|
                1 <= s < diff ==> {
                    let d = #[trigger] out[st.0.len() + s - 1];
                    &&& d.0 == tr + s
                    &&& d.2 is None
                    &&& d.3 == dummy_path_spec(paths[e.tail as int]@, paths[e.head as int]@, s, diff)
                    &&& d.4 == LayerNodeKind::Dummy { edge_index: e.index, step: s as usize }
                }
        }),
{
    let tr = st.4[e.tail as int] as int;
    let diff = st.4[e.head as int] - tr;
    let out = layer_edge(st, e, paths).0;
    let tp = paths[e.tail as int]@;
    let hp = paths[e.head as int]@;
    assert(out == st.0 + Seq::new((diff - 1) as nat, |j: int| dummy_view(e, tr, j + 1, diff, tp, hp)));
    assert(out.subrange(0, st.0.len() as int) =~= st.0);
    let segs = layer_edge(st, e, paths).2;
    assert(segs == st.2 + long_edge_segments(e, e.tail, e.head, st.0.len() as int, diff));
    assert(segs.subrange(0, st.2.len() as int) =~= st.2);
}

/// Law: the label node of a labelled flat edge lies in the clusters both
/// ends share. When a labelled flat edge joins two nodes on one rank
/// `tr >= 0`, laying it out appends one label node, on the rank above
/// (rank 0 when `tr` is 0), whose cluster path is the longest path that
/// begins both ends' cluster paths.
pub proof fn law_label_node_in_shared_clusters(
    st: (Seq<(usize, usize, Option<usize>, Seq<usize>, LayerNodeKind)>, Seq<Seq<usize>>, Seq<SegmentEdge>, Map<usize, Seq<usize>>, Seq<i32>),
    e: DirectedEdge,
    paths: Seq<Vec<usize>>,
)
    requires
        e.flat,
        e.label is Some,
        e.tail < st.4.len(),
        e.head < st.4.len(),
        0 <= st.4[e.tail as int],
        st.4[e.tail as int] == st.4[e.head as int],
    ensures
        ({
            let tr = st.4[e.tail as int] as int;
            let out = layer_edge(st, e, paths).0;
            let tp = paths[e.tail as int]@;
            let hp = paths[e.head as int]@;
            let d = out.last();
            &&& out.len() == st.0.len() + 1
            &&& out.drop_last() == st.0
            &&& d.0 == (if tr > 0 {
                tr - 1
            } else {
                0
            })
            &&& d.2 is None
            &&& crate::cluster_paths::is_prefix_of(d.3, tp)
            &&& crate::cluster_paths::is_prefix_of(d.3, hp)
            &&& (d.3.len() == tp.len() || d.3.len() == hp.len() || tp[d.3.len() as int] != hp[d.3.len() as int])
        }),
{
    let tp = paths[e.tail as int]@;
    let hp = paths[e.head as int]@;
    crate::cluster_paths::lemma_common_prefix_len(tp, hp);
    let c = common_prefix_len(tp, hp) as int;
    let out = layer_edge(st, e, paths).0;
    assert(out.drop_last() =~= st.0);
    assert(out.last().3 == tp.subrange(0, c));
    assert(tp.subrange(0, c) =~= hp.subrange(0, c));
}

/// Lays out an edge from layer node `tail` to layer node `head` that
/// spans `diff` ranks from `tail_rank`: one dummy node on every rank in
/// between, the segments that chain them and the edge's chain.
fn push_long_edge(
    layering: &mut Layering,
    e: &DirectedEdge,
    tail: usize,
    head: usize,
    tail_rank: usize,
    diff: usize,
    tail_path: &Vec<usize>,
    head_path: &Vec<usize>,
)
    requires
        diff >= 1,
        old(layering).layer_nodes@.len() + diff <= usize::MAX,
        tail_rank + diff <= usize::MAX,
        tail_path@.len() + head_path@.len() <= usize::MAX,
        diff * (tail_path@.len() + head_path@.len()) <= usize::MAX,
    ensures
        nodes_view(final(layering).layer_nodes@) == nodes_view(old(layering).layer_nodes@) + Seq::new(
            (diff - 1) as nat,
            |j: int| dummy_view(*e, tail_rank as int, j + 1, diff as int, tail_path@, head_path@),
        ),
        layers_view(final(layering).layers@) == place_dummies(
            layers_view(old(layering).layers@),
            tail_rank as int,
            old(layering).layer_nodes@.len() as int,
            diff - 1,
        ),
        final(layering).segment_edges@ == old(layering).segment_edges@ + long_edge_segments(
            *e,
            tail,
            head,
            old(layering).layer_nodes@.len() as int,
            diff as int,
        ),
        chains_view(final(layering).chains@) == chains_view(old(layering).chains@).insert(
            e.index,
            long_edge_chain(tail, head, old(layering).layer_nodes@.len() as int, diff as int),
        ),
        final(layering).real_layer_node@ == old(layering).real_layer_node@,
{
    let ghost nodes0 = nodes_view(layering.layer_nodes@);
    let ghost layers0 = layers_view(layering.layers@);
    let ghost segs0 = layering.segment_edges@;
    let base = layering.layer_nodes.len();
    let ghost all_segs = long_edge_segments(*e, tail, head, base as int, diff as int);
    let weight: i32 = if e.weight < 1 {
        1
    } else {
        e.weight
    };
    let mut chain: Vec<usize> = Vec::new();
    chain.push(tail);
    let mut current = tail;
    let mut step: usize = 1;
    proof {
        assert(nodes_view(layering.layer_nodes@) =~= nodes0 + Seq::new(
            0,
            |j: int| dummy_view(*e, tail_rank as int, j + 1, diff as int, tail_path@, head_path@),
        ));
        assert(layering.segment_edges@ =~= segs0 + all_segs.subrange(0, 0));
        assert(chain@ =~= seq![tail] + Seq::new(0, |j: int| (base + j) as usize));
    }
    while step < diff
        invariant
            1 <= step <= diff,
            base + diff <= usize::MAX,
            tail_rank + diff <= usize::MAX,
            tail_path@.len() + head_path@.len() <= usize::MAX,
            diff * (tail_path@.len() + head_path@.len()) <= usize::MAX,
            base == old(layering).layer_nodes@.len(),
            all_segs == long_edge_segments(*e, tail, head, base as int, diff as int),
            weight as int == at_least_one(e.weight as int),
            nodes_view(layering.layer_nodes@) == nodes0 + Seq::new(
                (step - 1) as nat,
                |j: int| dummy_view(*e, tail_rank as int, j + 1, diff as int, tail_path@, head_path@),
            ),
            layering.layer_nodes@.len() == base + step - 1,
            layers_view(layering.layers@) == place_dummies(layers0, tail_rank as int, base as int, step - 1),
            layering.segment_edges@ == segs0 + all_segs.subrange(0, step - 1),
            current == (if step == 1 {
                tail
            } else {
                (base + step - 2) as usize
            }),
            chain@ == seq![tail] + Seq::new((step - 1) as nat, |j: int| (base + j) as usize),
            layering.chains@ == old(layering).chains@,
            layering.real_layer_node@ == old(layering).real_layer_node@,
        decreases diff - step,
    {
        let rank = tail_rank + step;
        let id = layering.layer_nodes.len();
        proof {
            assert(step * (tail_path@.len() + head_path@.len()) <= diff * (tail_path@.len() + head_path@.len())) by (nonlinear_arith)
                requires
                    step <= diff,
            ;
        }
        let cluster_path = dummy_cluster_path_between(tail_path.as_slice(), head_path.as_slice(), step, diff);
        let ghost nodes_before = layering.layer_nodes@;
        layering.layer_nodes.push(LayerNode {
            rank,
            order: 0,
            real_node: None,
            cluster_path,
            kind: LayerNodeKind::Dummy { edge_index: e.index, step },
        });
        place_node(&mut layering.layers, rank, id);
        let ghost segs_before = layering.segment_edges@;
        layering.segment_edges.push(SegmentEdge {
            from: current,
            to: id,
            edge_index: e.index,
            weight,
            cluster_crossings: e.cluster_crossings,
            flat: false,
            temp_kind: e.temp_kind,
        });
        chain.push(id);
        current = id;
        proof {
            assert(nodes_view(layering.layer_nodes@) =~= nodes_view(nodes_before).push(node_view(layering.layer_nodes@[id as int])));
            assert(nodes_view(layering.layer_nodes@) =~= nodes0 + Seq::new(
                step as nat,
                |j: int| dummy_view(*e, tail_rank as int, j + 1, diff as int, tail_path@, head_path@),
            ));
            assert(all_segs[step - 1] == layering.segment_edges@.last());
            assert(layering.segment_edges@ =~= segs0 + all_segs.subrange(0, step as int));
            assert(chain@ =~= seq![tail] + Seq::new(step as nat, |j: int| (base + j) as usize));
        }
        step += 1;
    }
    layering.segment_edges.push(SegmentEdge {
        from: current,
        to: head,
        edge_index: e.index,
        weight,
        cluster_crossings: e.cluster_crossings,
        flat: false,
        temp_kind: e.temp_kind,
    });
    chain.push(head);
    proof {
        assert(all_segs[diff - 1] == layering.segment_edges@.last());
        assert(layering.segment_edges@ =~= segs0 + all_segs);
        assert(chain@ =~= long_edge_chain(tail, head, base as int, diff as int));
    }
    let ghost chains_before = layering.chains@;
    layering.chains.insert(e.index, chain);
    proof {
        assert(chains_view(layering.chains@) =~= chains_view(chains_before).insert(
            e.index,
            long_edge_chain(tail, head, base as int, diff as int),
        ));
    }
}

/// The first `len` entries of `list`.
fn copy_prefix(list: &Vec<usize>, len: usize) -> (copy: Vec<usize>)
    requires
        len <= list@.len(),
    ensures
        copy@ == list@.subrange(0, len as int),
{
    let mut copy: Vec<usize> = Vec::new();
    let mut i: usize = 0;
    while i < len
        invariant
            i <= len,
            len <= list@.len(),
            copy@ == list@.subrange(0, i as int),
        decreases len - i,
    {
        copy.push(list[i]);
        i += 1;
        assert(copy@ == list@.subrange(0, i as int));
    }
    copy
}

/// Lays out a flat edge from layer node `tail` to layer node `head` on rank
/// `edge_rank`: with a label, a label node on the rank above (or on rank 0)
/// joined to both ends; without, one flat segment.
fn push_flat_edge(
    layering: &mut Layering,
    e: &DirectedEdge,
    tail: usize,
    head: usize,
    edge_rank: usize,
    tail_path: &Vec<usize>,
    head_path: &Vec<usize>,
)
    requires
        old(layering).layer_nodes@.len() < usize::MAX,
        e.label is Some ==> e.weight < i32::MAX,
    ensures
        ({
            let base = old(layering).layer_nodes@.len() as usize;
            let lr = label_rank(edge_rank as int);
            let w = at_least_one(e.weight + 1);
            e.label is Some ==> {
                &&& nodes_view(final(layering).layer_nodes@) == nodes_view(old(layering).layer_nodes@).push(
                    (
                        lr as usize,
                        0,
                        None,
                        tail_path@.subrange(0, common_prefix_len(tail_path@, head_path@) as int),
                        LayerNodeKind::FlatVirtual { edge_index: e.index },
                    ),
                )
                &&& layers_view(final(layering).layers@) == place(layers_view(old(layering).layers@), lr, base)
                &&& final(layering).segment_edges@ == old(layering).segment_edges@ + seq![
                    edge_segment(*e, base, tail, w, lr == edge_rank),
                    edge_segment(*e, base, head, w, lr == edge_rank),
                ]
                &&& chains_view(final(layering).chains@) == chains_view(old(layering).chains@).insert(
                    e.index,
                    seq![tail, base, head],
                )
            }
        }),
        e.label is None ==> {
            &&& final(layering).layer_nodes@ == old(layering).layer_nodes@
            &&& final(layering).layers@ == old(layering).layers@
            &&& final(layering).segment_edges@ == old(layering).segment_edges@.push(
                edge_segment(*e, tail, head, at_least_one(e.weight as int), true),
            )
            &&& chains_view(final(layering).chains@) == chains_view(old(layering).chains@).insert(e.index, seq![tail, head])
        },
        final(layering).real_layer_node@ == old(layering).real_layer_node@,
{
    let ghost segs0 = layering.segment_edges@;
    let mut chain: Vec<usize> = Vec::new();
    chain.push(tail);
    if e.label.is_some() {
        let rank: usize = if edge_rank > 0 {
            edge_rank - 1
        } else {
            0
        };
        let shared = shared_prefix_len(tail_path.as_slice(), head_path.as_slice());
        proof {
            crate::cluster_paths::lemma_common_prefix_len(tail_path@, head_path@);
        }
        let cluster_path = copy_prefix(tail_path, shared);
        let label_node = layering.layer_nodes.len();
        let ghost nodes_before = layering.layer_nodes@;
        layering.layer_nodes.push(LayerNode {
            rank,
            order: 0,
            real_node: None,
            cluster_path,
            kind: LayerNodeKind::FlatVirtual { edge_index: e.index },
        });
        proof {
            assert(nodes_view(layering.layer_nodes@) =~= nodes_view(nodes_before).push(node_view(layering.layer_nodes@[label_node as int])));
        }
        place_node(&mut layering.layers, rank, label_node);
        let label_segments_flat = rank == edge_rank;
        let weight: i32 = if e.weight + 1 < 1 {
            1
        } else {
            e.weight + 1
        };
        layering.segment_edges.push(SegmentEdge {
            from: label_node,
            to: tail,
            edge_index: e.index,
            weight,
            cluster_crossings: e.cluster_crossings,
            flat: label_segments_flat,
            temp_kind: e.temp_kind,
        });
        layering.segment_edges.push(SegmentEdge {
            from: label_node,
            to: head,
            edge_index: e.index,
            weight,
            cluster_crossings: e.cluster_crossings,
            flat: label_segments_flat,
            temp_kind: e.temp_kind,
        });
        chain.push(label_node);
        proof {
            let w = at_least_one(e.weight + 1);
            let lr = label_rank(edge_rank as int);
            assert(layering.segment_edges@ =~= segs0 + seq![
                edge_segment(*e, label_node, tail, w, lr == edge_rank),
                edge_segment(*e, label_node, head, w, lr == edge_rank),
            ]);
        }
    } else {
        let weight: i32 = if e.weight < 1 {
            1
        } else {
            e.weight
        };
        layering.segment_edges.push(SegmentEdge {
            from: tail,
            to: head,
            edge_index: e.index,
            weight,
            cluster_crossings: e.cluster_crossings,
            flat: true,
            temp_kind: e.temp_kind,
        });
        proof {
            assert(layering.segment_edges@ =~= segs0.push(edge_segment(*e, tail, head, at_least_one(e.weight as int), true)));
        }
    }
    chain.push(head);
    proof {
        if e.label is Some {
            assert(chain@ =~= seq![tail, old(layering).layer_nodes@.len() as usize, head]);
        } else {
            assert(chain@ =~= seq![tail, head]);
        }
    }
    let ghost chains_before = layering.chains@;
    let ghost chain_view = chain@;
    layering.chains.insert(e.index, chain);
    proof {
        assert(chains_view(layering.chains@) =~= chains_view(chains_before).insert(e.index, chain_view));
    }
}

/// An upper bound on the number of ranks edge `e` can span.
pub open spec fn span_bound(ranks: Seq<i32>, e: DirectedEdge) -> int {
    let t = ranks[e.tail as int] as int;
    let h = ranks[e.head as int] as int;
    (if h > t + 1 {
        h
    } else {
        t + 1
    }) + (if t < 0 {
        -t
    } else {
        0
    }) + 1
}

/// Edge `e` can be laid out without overflow.
pub open spec fn edge_fits(node_count: int, ranks: Seq<i32>, e: DirectedEdge, paths: Seq<Vec<usize>>) -> bool {
    &&& ranks[e.tail as int] < i32::MAX
    &&& e.label is Some ==> e.weight < i32::MAX
    &&& node_count + span_bound(ranks, e) <= usize::MAX
    &&& span_bound(ranks, e) * (paths[e.tail as int]@.len() + paths[e.head as int]@.len()) <= usize::MAX
}

/// Lays out edge `e` as `layer_edge` states.
fn layer_one_edge(layering: &mut Layering, ranks: &mut Vec<i32>, e: &DirectedEdge, paths: &[Vec<usize>])
    requires
        e.tail < old(ranks)@.len(),
        e.head < old(ranks)@.len(),
        paths@.len() == old(ranks)@.len(),
        old(layering).real_layer_node@ == Seq::new(old(ranks)@.len(), |l: int| l as usize),
        e.flat ==> e.tail == e.head,
        edge_fits(old(layering).layer_nodes@.len() as int, old(ranks)@, *e, paths@),
    ensures
        layering_view(*final(layering), final(ranks)@) == layer_edge(layering_view(*old(layering), old(ranks)@), *e, paths@),
        final(layering).real_layer_node@ == old(layering).real_layer_node@,
        final(ranks)@.len() == old(ranks)@.len(),
        final(layering).layer_nodes@.len() <= old(layering).layer_nodes@.len() + span_bound(old(ranks)@, *e),
        forall|v: int|
            0 <= v < old(ranks)@.len() ==> #[trigger] final(ranks)@[v] == old(ranks)@[v] || final(ranks)@[v]
                == old(ranks)@[e.tail as int] + 1,
{
    let ghost st = layering_view(*layering, ranks@);
    let mut tail_rank = ranks[e.tail];
    let mut head_rank = ranks[e.head];
    if !e.flat && head_rank <= tail_rank {
        head_rank = tail_rank + 1;
        ranks.set(e.head, head_rank);
    }
    if head_rank < 0 {
        return;
    }
    if tail_rank < 0 {
        tail_rank = 0;
    }
    let tail_layer = layering.real_layer_node[e.tail];
    let head_layer = layering.real_layer_node[e.head];
    let diff = (head_rank - tail_rank) as usize;
    if diff == 0 {
        if e.flat {
            push_flat_edge(layering, e, tail_layer, head_layer, tail_rank as usize, &paths[e.tail], &paths[e.head]);
            proof {
                if e.label is Some {
                    assert(layering_view(*layering, ranks@) =~= layer_edge(st, *e, paths@));
                } else {
                    assert(nodes_view(layering.layer_nodes@) == st.0);
                    assert(layering_view(*layering, ranks@) =~= layer_edge(st, *e, paths@));
                }
                assert(nodes_view(layering.layer_nodes@).len() == layering.layer_nodes@.len());
                assert(nodes_view(old(layering).layer_nodes@).len() == old(layering).layer_nodes@.len());
            }
        }
        return;
    }
    proof {
        let b = span_bound(old(ranks)@, *e);
        let t = paths@[e.tail as int]@.len() + paths@[e.head as int]@.len();
        assert(diff as int <= b);
        assert(diff * t <= b * t) by (nonlinear_arith)
            requires
                diff as int <= b,
                t >= 0,
        ;
        assert(t <= diff * t) by (nonlinear_arith)
            requires
                diff >= 1,
                t >= 0,
        ;
    }
    push_long_edge(layering, e, tail_layer, head_layer, tail_rank as usize, diff, &paths[e.tail], &paths[e.head]);
    proof {
        assert(layering_view(*layering, ranks@) =~= layer_edge(st, *e, paths@));
        assert(nodes_view(layering.layer_nodes@).len() == layering.layer_nodes@.len());
        assert(nodes_view(old(layering).layer_nodes@).len() == old(layering).layer_nodes@.len());
    }
}

/// The highest rank, or 0.
pub open spec fn rank_top(ranks: Seq<i32>) -> int {
    if ranks.len() > 0 && max_of(ranks) > 0 {
        max_of(ranks)
    } else {
        0
    }
}

/// How far the lowest rank lies below 0, or 0.
pub open spec fn rank_depth(ranks: Seq<i32>) -> int {
    if ranks.len() > 0 && min_of(ranks) < 0 {
        -min_of(ranks)
    } else {
        0
    }
}

/// Every edge joins two of the `n` input nodes, and a flat edge is a loop.
pub open spec fn edges_in_range(n: int, edges: Seq<DirectedEdge>) -> bool {
    forall|k: int|
        0 <= k < edges.len() ==> (#[trigger] edges[k]).tail < n && edges[k].head < n && (edges[k].flat ==> edges[k].tail
            == edges[k].head)
}

/// The layered graph can be built without overflow.
pub open spec fn layering_fits(ranks: Seq<i32>, edges: Seq<DirectedEdge>, paths: Seq<Vec<usize>>) -> bool {
    let reach = rank_top(ranks) + edges.len() + rank_depth(ranks) + 3;
    &&& rank_top(ranks) + edges.len() < i32::MAX
    &&& ranks.len() + edges.len() * reach <= usize::MAX
    &&& forall|k: int| 0 <= k < edges.len() ==> ((#[trigger] edges[k]).label is Some ==> edges[k].weight < i32::MAX)
    &&& forall|k: int|
        0 <= k < edges.len() ==> reach * (paths[(#[trigger] edges[k]).tail as int]@.len() + paths[edges[k].head as int]@.len())
            <= usize::MAX
}

/// The layered graph and the ranks after the input nodes were placed and
/// the first `k` edges were laid out.
pub open spec fn layered_upto(ranks: Seq<i32>, edges: Seq<DirectedEdge>, paths: Seq<Vec<usize>>, k: int) -> (
    Seq<(usize, usize, Option<usize>, Seq<usize>, LayerNodeKind)>,
    Seq<Seq<usize>>,
    Seq<SegmentEdge>,
    Map<usize, Seq<usize>>,
    Seq<i32>,
)
    decreases k,
{
    if k <= 0 {
        (
            Seq::new(ranks.len(), |l: int| real_node_view(ranks, paths, l)),
            real_layers(ranks, ranks.len() as int),
            Seq::empty(),
            Map::empty(),
            ranks,
        )
    } else {
        layer_edge(layered_upto(ranks, edges, paths, k - 1), edges[k - 1], paths)
    }
}

/// Builds the layered graph: one layer node per input node at its rank
/// (input node `l` is layer node `l`; negative ranks count as 0), then, edge
/// by edge, the dummy chains, flat segments and label nodes that
/// `layer_edge` describes; ranks that an edge had to raise are updated in
/// `ranks`.
pub fn build_layered_graph(ranks: &mut Vec<i32>, oriented_edges: &[DirectedEdge], paths: &[Vec<usize>]) -> (layering:
    Layering)
    requires
        paths@.len() == old(ranks)@.len(),
        edges_in_range(old(ranks)@.len() as int, oriented_edges@),
        layering_fits(old(ranks)@, oriented_edges@, paths@),
    ensures
        layering_view(layering, final(ranks)@) == layered_upto(
            old(ranks)@,
            oriented_edges@,
            paths@,
            oriented_edges@.len() as int,
        ),
        layering.real_layer_node@ == Seq::new(old(ranks)@.len(), |l: int| l as usize),
{
    let ghost orig = ranks@;
    let ghost n = ranks@.len() as int;
    let ghost e_count = oriented_edges@.len() as int;
    let ghost top = rank_top(orig);
    let ghost depth = rank_depth(orig);
    let ghost reach = top + e_count + depth + 3;
    let mut layering = place_real_nodes(ranks, paths);
    proof {
        if n > 0 {
            lemma_max_min_of(orig);
        }
        assert(layering.chains@ =~= Map::<usize, Vec<usize>>::empty());
        assert(chains_view(layering.chains@) =~= Map::<usize, Seq<usize>>::empty());
        assert(layering_view(layering, ranks@) =~= layered_upto(orig, oriented_edges@, paths@, 0));
        assert(nodes_view(layering.layer_nodes@).len() == layering.layer_nodes@.len());
    }
    let mut k: usize = 0;
    while k < oriented_edges.len()
        invariant
            k <= oriented_edges@.len(),
            e_count == oriented_edges@.len(),
            n == orig.len(),
            ranks@.len() == n,
            paths@.len() == n,
            top == rank_top(orig),
            depth == rank_depth(orig),
            reach == top + e_count + depth + 3,
            edges_in_range(n, oriented_edges@),
            layering_fits(orig, oriented_edges@, paths@),
            layering_view(layering, ranks@) == layered_upto(orig, oriented_edges@, paths@, k as int),
            layering.real_layer_node@ == Seq::new(n as nat, |l: int| l as usize),
            forall|v: int| 0 <= v < n ==> -depth <= #[trigger] ranks@[v] <= top + k,
            layering.layer_nodes@.len() <= n + k * reach,
        decreases oriented_edges.len() - k,
    {
        let e = &oriented_edges[k];
        proof {
            let b = span_bound(ranks@, *e);
            assert(oriented_edges@[k as int] == *e);
            assert(b <= reach);
            assert(n + k * reach + reach <= n + e_count * reach) by (nonlinear_arith)
                requires
                    k < e_count,
                    reach >= 0,
            ;
            assert((k + 1) * reach == k * reach + reach) by (nonlinear_arith);
            let t = paths@[e.tail as int]@.len() + paths@[e.head as int]@.len();
            assert(reach * t <= usize::MAX);
            assert(b * t <= reach * t) by (nonlinear_arith)
                requires
                    b <= reach,
                    t >= 0,
            ;
        }
        let ghost before = ranks@;
        layer_one_edge(&mut layering, ranks, e, paths);
        proof {
            assert forall|v: int| 0 <= v < n implies -depth <= #[trigger] ranks@[v] <= top + k + 1 by {
                assert(ranks@[v] == before[v] || ranks@[v] == before[e.tail as int] + 1);
            }
        }
        k += 1;
    }
    layering
}

/// Every segment that is not flat joins a node to a node on the next rank.
pub open spec fn segments_adjacent(
    nodes: Seq<(usize, usize, Option<usize>, Seq<usize>, LayerNodeKind)>,
    segs: Seq<SegmentEdge>,
) -> bool {
    forall|i: int|
        0 <= i < segs.len() && !(#[trigger] segs[i]).flat ==> segs[i].from < nodes.len() && segs[i].to < nodes.len()
            && nodes[segs[i].to as int].0 == nodes[segs[i].from as int].0 + 1
}

/// Every node listed in layer `r` is a node of rank `r`.
pub open spec fn layers_match(nodes: Seq<(usize, usize, Option<usize>, Seq<usize>, LayerNodeKind)>, layers: Seq<Seq<usize>>) -> bool {
    forall|r: int, i: int|
        0 <= r < layers.len() && 0 <= i < layers[r].len() ==> (#[trigger] layers[r][i]) < nodes.len()
            && nodes[layers[r][i] as int].0 == r
}

/// Every edge that is not flat ends at least one rank below its tail.
pub open spec fn ranks_respect_edges(ranks: Seq<i32>, edges: Seq<DirectedEdge>) -> bool {
    forall|k: int|
        0 <= k < edges.len() && !(#[trigger] edges[k]).flat ==> ranks[edges[k].head as int] >= ranks[edges[k].tail as int]
            + 1
}

proof fn lemma_place_matches(
    nodes: Seq<(usize, usize, Option<usize>, Seq<usize>, LayerNodeKind)>,
    layers: Seq<Seq<usize>>,
    rank: int,
    id: usize,
)
    requires
        layers_match(nodes, layers),
        0 <= rank,
        id < nodes.len(),
        nodes[id as int].0 == rank,
    ensures
        layers_match(nodes, place(layers, rank, id)),
{
    let p = place(layers, rank, id);
    assert forall|r: int, i: int| 0 <= r < p.len() && 0 <= i < p[r].len() implies (#[trigger] p[r][i]) < nodes.len()
        && nodes[p[r][i] as int].0 == r by {
        if r != rank {
            assert(p[r] == layers[r]);
        } else if i < p[r].len() - 1 {
            if rank < layers.len() {
                assert(p[r][i] == layers[r][i]);
            }
        }
    }
}

proof fn lemma_matches_grow(
    nodes: Seq<(usize, usize, Option<usize>, Seq<usize>, LayerNodeKind)>,
    more: Seq<(usize, usize, Option<usize>, Seq<usize>, LayerNodeKind)>,
    layers: Seq<Seq<usize>>,
    segs: Seq<SegmentEdge>,
)
    requires
        layers_match(nodes, layers),
        segments_adjacent(nodes, segs),
    ensures
        layers_match(nodes + more, layers),
        segments_adjacent(nodes + more, segs),
{
    let all = nodes + more;
    assert forall|r: int, i: int| 0 <= r < layers.len() && 0 <= i < layers[r].len() implies (#[trigger] layers[r][i]) < all.len()
        && all[layers[r][i] as int].0 == r by {
        assert(all[layers[r][i] as int] == nodes[layers[r][i] as int]);
    }
    assert forall|i: int| 0 <= i < segs.len() && !(#[trigger] segs[i]).flat implies segs[i].from < all.len() && segs[i].to
        < all.len() && all[segs[i].to as int].0 == all[segs[i].from as int].0 + 1 by {
        assert(all[segs[i].to as int] == nodes[segs[i].to as int]);
        assert(all[segs[i].from as int] == nodes[segs[i].from as int]);
    }
}

proof fn lemma_dummies_match(
    nodes: Seq<(usize, usize, Option<usize>, Seq<usize>, LayerNodeKind)>,
    layers: Seq<Seq<usize>>,
    tr: int,
    base: int,
    k: int,
)
    requires
        layers_match(nodes, layers),
        0 <= tr,
        0 <= base,
        0 <= k,
        base + k <= nodes.len(),
        base + k <= usize::MAX,
        forall|j: int| 0 <= j < k ==> #[trigger] nodes[base + j].0 == tr + j + 1,
    ensures
        layers_match(nodes, place_dummies(layers, tr, base, k)),
    decreases k,
{
    if k > 0 {
        lemma_dummies_match(nodes, layers, tr, base, k - 1);
        assert(nodes[base + (k - 1)].0 == tr + (k - 1) + 1);
        lemma_place_matches(nodes, place_dummies(layers, tr, base, k - 1), tr + k, (base + k - 1) as usize);
    }
}

/// The layered graph after `k` edges, when the ranks are non-negative and
/// respect every edge: no rank was raised, the input nodes keep their layer
/// nodes, layers hold nodes of their rank and segments join adjacent ranks.
proof fn lemma_layered_upto(ranks: Seq<i32>, edges: Seq<DirectedEdge>, paths: Seq<Vec<usize>>, k: int)
    requires
        0 <= k <= edges.len(),
        paths.len() == ranks.len(),
        edges_in_range(ranks.len() as int, edges),
        forall|v: int| 0 <= v < ranks.len() ==> #[trigger] ranks[v] >= 0,
        ranks_respect_edges(ranks, edges),
        layering_fits(ranks, edges, paths),
    ensures
        layered_upto(ranks, edges, paths, k).0.len() <= ranks.len() + k * (rank_top(ranks) + edges.len() + rank_depth(
            ranks,
        ) + 3),
        layered_upto(ranks, edges, paths, k).4 == ranks,
        layered_upto(ranks, edges, paths, k).0.len() >= ranks.len(),
        forall|l: int|
            0 <= l < ranks.len() ==> #[trigger] layered_upto(ranks, edges, paths, k).0[l] == real_node_view(ranks, paths, l),
        layers_match(layered_upto(ranks, edges, paths, k).0, layered_upto(ranks, edges, paths, k).1),
        segments_adjacent(layered_upto(ranks, edges, paths, k).0, layered_upto(ranks, edges, paths, k).2),
    decreases k,
{
    let n = ranks.len() as int;
    let reach = rank_top(ranks) + edges.len() + rank_depth(ranks) + 3;
    if n > 0 {
        lemma_max_min_of(ranks);
    }
    if k == 0 {
        let nodes = Seq::new(ranks.len(), |l: int| real_node_view(ranks, paths, l));
        lemma_real_layers_match(ranks, paths, n);
    } else {
        lemma_layered_upto(ranks, edges, paths, k - 1);
        assert(n + (k - 1) * reach + reach <= n + edges.len() * reach) by (nonlinear_arith)
            requires
                k <= edges.len(),
                reach >= 0,
        ;
        assert((k - 1) * reach + reach == k * reach) by (nonlinear_arith);
        let st = layered_upto(ranks, edges, paths, k - 1);
        let e = edges[k - 1];
        let (nodes, layers, segs, chains, rk) = st;
        assert(e.tail < n && e.head < n);
        let tr = ranks[e.tail as int] as int;
        let hr = ranks[e.head as int] as int;
        let base = nodes.len() as int;
        let tp = paths[e.tail as int]@;
        let hp = paths[e.head as int]@;
        assert(nodes[e.tail as int] == real_node_view(ranks, paths, e.tail as int));
        assert(nodes[e.head as int] == real_node_view(ranks, paths, e.head as int));
        assert(tr <= rank_top(ranks) && hr <= rank_top(ranks));
        assert(base <= n + (k - 1) * reach);
        let nxt = layered_upto(ranks, edges, paths, k);
        if e.flat {
            assert(e.tail == e.head);
            if e.label is Some {
                let lr = label_rank(tr);
                let nv = (
                    lr as usize,
                    0usize,
                    None,
                    tp.subrange(0, common_prefix_len(tp, hp) as int),
                    LayerNodeKind::FlatVirtual { edge_index: e.index },
                );
                let nodes1 = nodes.push(nv);
                assert(nodes1 == nodes + seq![nv]);
                lemma_matches_grow(nodes, seq![nv], layers, segs);
                lemma_place_matches(nodes1, layers, lr, base as usize);
                assert(nxt.0 == nodes1);
                assert forall|l: int| 0 <= l < n implies #[trigger] nxt.0[l] == real_node_view(ranks, paths, l) by {
                    assert(nodes1[l] == nodes[l]);
                }
                let w = at_least_one(e.weight + 1);
                let added = seq![edge_segment(e, base as usize, e.tail, w, lr == tr), edge_segment(e, base as usize, e.head, w, lr == tr)];
                assert forall|i: int| 0 <= i < nxt.2.len() && !(#[trigger] nxt.2[i]).flat implies nxt.2[i].from < nxt.0.len()
                    && nxt.2[i].to < nxt.0.len() && nxt.0[nxt.2[i].to as int].0 == nxt.0[nxt.2[i].from as int].0 + 1 by {
                    if i < segs.len() {
                        assert(nxt.2[i] == segs[i]);
                    } else {
                        assert(nxt.2[i] == added[i - segs.len()]);
                        assert(nodes1[base] == nv);
                    }
                }
            } else {
                assert forall|i: int| 0 <= i < nxt.2.len() && !(#[trigger] nxt.2[i]).flat implies nxt.2[i].from < nxt.0.len()
                    && nxt.2[i].to < nxt.0.len() && nxt.0[nxt.2[i].to as int].0 == nxt.0[nxt.2[i].from as int].0 + 1 by {
                    assert(i < segs.len());
                    assert(nxt.2[i] == segs[i]);
                }
            }
        } else {
            assert(ranks_respect_edges(ranks, edges));
            assert(hr >= tr + 1);
            let diff = hr - tr;
            let dummies = Seq::new((diff - 1) as nat, |j: int| dummy_view(e, tr, j + 1, diff, tp, hp));
            let nodes1 = nodes + dummies;
            lemma_matches_grow(nodes, dummies, layers, segs);
            assert forall|j: int| 0 <= j < diff - 1 implies #[trigger] nodes1[base + j].0 == tr + j + 1 by {
                assert(nodes1[base + j] == dummies[j]);
            }
            lemma_dummies_match(nodes1, layers, tr, base, diff - 1);
            assert(nxt.0 == nodes1);
            assert forall|l: int| 0 <= l < n implies #[trigger] nxt.0[l] == real_node_view(ranks, paths, l) by {
                assert(nodes1[l] == nodes[l]);
            }
            let added = long_edge_segments(e, e.tail, e.head, base, diff);
            assert forall|i: int| 0 <= i < nxt.2.len() && !(#[trigger] nxt.2[i]).flat implies nxt.2[i].from < nxt.0.len()
                && nxt.2[i].to < nxt.0.len() && nxt.0[nxt.2[i].to as int].0 == nxt.0[nxt.2[i].from as int].0 + 1 by {
                if i < segs.len() {
                    assert(nxt.2[i] == segs[i]);
                } else {
                    let j = i - segs.len();
                    assert(nxt.2[i] == added[j]);
                    if j > 0 {
                        assert(nodes1[base + j - 1] == dummies[j - 1]);
                    }
                    if j < diff - 1 {
                        assert(nodes1[base + j] == dummies[j]);
                    }
                }
            }
        }
    }
}

proof fn lemma_real_layers_match(ranks: Seq<i32>, paths: Seq<Vec<usize>>, k: int)
    requires
        0 <= k <= ranks.len(),
        ranks.len() <= usize::MAX,
        forall|v: int| 0 <= v < ranks.len() ==> #[trigger] ranks[v] >= 0,
    ensures
        layers_match(Seq::new(ranks.len(), |l: int| real_node_view(ranks, paths, l)), real_layers(ranks, k)),
    decreases k,
{
    let nodes = Seq::new(ranks.len(), |l: int| real_node_view(ranks, paths, l));
    if k > 0 {
        lemma_real_layers_match(ranks, paths, k - 1);
        lemma_place_matches(nodes, real_layers(ranks, k - 1), clamped_rank(ranks[k - 1]) as int, (k - 1) as usize);
    }
}

/// Law: when every rank is non-negative and every edge that is not flat
/// ends below its tail, building the layered graph raises no rank, every
/// layer holds only nodes of its rank, and every segment that is not flat
/// joins a node to a node on the next rank.
pub proof fn law_layered_graph_joins_adjacent_ranks(ranks: Seq<i32>, edges: Seq<DirectedEdge>, paths: Seq<Vec<usize>>)
    requires
        paths.len() == ranks.len(),
        edges_in_range(ranks.len() as int, edges),
        layering_fits(ranks, edges, paths),
        forall|v: int| 0 <= v < ranks.len() ==> #[trigger] ranks[v] >= 0,
        ranks_respect_edges(ranks, edges),
    ensures
        layered_upto(ranks, edges, paths, edges.len() as int).4 == ranks,
        layers_match(layered_upto(ranks, edges, paths, edges.len() as int).0, layered_upto(ranks, edges, paths, edges.len() as int).1),
        segments_adjacent(
            layered_upto(ranks, edges, paths, edges.len() as int).0,
            layered_upto(ranks, edges, paths, edges.len() as int).2,
        ),
{
    lemma_layered_upto(ranks, edges, paths, edges.len() as int);
}

} // verus!
