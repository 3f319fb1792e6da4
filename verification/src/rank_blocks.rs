//! Blocks that are ranked together inside a container: whole child clusters
//! and single nodes.
use std::collections::HashMap;

use vstd::prelude::*;

use crate::cluster_tree::ClusterInternal;
use crate::simplex::round_half_away;

verus! {

broadcast use vstd::std_specs::hash::group_hash_axioms;

/// An item ranked inside a container: a child cluster or a direct node.
#[derive(Debug, Clone, Copy, PartialEq, Eq, Hash, Structural)]
pub enum RankBlockKind {
    Cluster(usize),
    Node(usize),
}

/// Ranks that a cluster's own layout gives its nodes, and its height in ranks.
#[derive(Debug, Clone)]
pub struct ContainerRankLayout {
    pub node_ranks: HashMap<usize, i32>,
    pub span: i32,
}

/// Rank gap that an edge between two items asks for: none between two
/// clusters, otherwise the minimum length (at least one).
pub fn cross_item_rank_delta(source_item: RankBlockKind, target_item: RankBlockKind, minimum_length: i32) -> (delta: i32)
    ensures
        delta == (match (source_item, target_item) {
            (RankBlockKind::Cluster(_), RankBlockKind::Cluster(_)) => 0,
            _ => if minimum_length > 1 {
                minimum_length
            } else {
                1
            },
        }),
{
    match (source_item, target_item) {
        (RankBlockKind::Cluster(_), RankBlockKind::Cluster(_)) => 0,
        _ => if minimum_length > 1 {
            minimum_length
        } else {
            1
        },
    }
}

/// Rank of a node inside the item it belongs to: its rank in the child
/// cluster's own layout, or 0 for a direct node or an unknown node.
pub fn local_node_rank(item: RankBlockKind, node_index: usize, child_layouts: &HashMap<usize, ContainerRankLayout>) -> (rank: i32)
    ensures
        rank == (match item {
            RankBlockKind::Cluster(c) => if child_layouts@.contains_key(c) && child_layouts@[c].node_ranks@.contains_key(
                node_index,
            ) {
                child_layouts@[c].node_ranks@[node_index]
            } else {
                0
            },
            RankBlockKind::Node(_) => 0,
        }),
{
    match item {
        RankBlockKind::Cluster(cluster_index) => match child_layouts.get(&cluster_index) {
            Some(layout) => match layout.node_ranks.get(&node_index) {
                Some(r) => *r,
                None => 0,
            },
            None => 0,
        },
        RankBlockKind::Node(_) => 0,
    }
}

/// The values of `v` as integers.
pub open spec fn ints(v: Seq<i32>) -> Seq<int> {
    v.map_values(|x: i32| x as int)
}

/// `t` with `x` inserted before its first entry greater than `x`.
pub open spec fn insert_sorted(t: Seq<int>, x: int) -> Seq<int>
    decreases t.len(),
{
    if t.len() == 0 {
        seq![x]
    } else if x < t[0] {
        seq![x] + t
    } else {
        seq![t[0]] + insert_sorted(t.drop_first(), x)
    }
}

/// The entries of `s` in increasing order, equal entries in their order.
pub open spec fn sorted_seq(s: Seq<int>) -> Seq<int>
    decreases s.len(),
{
    if s.len() == 0 {
        Seq::empty()
    } else {
        insert_sorted(sorted_seq(s.drop_last()), s.last())
    }
}

/// The middle of the sorted values; with an even count, the mean of the two
/// middle values rounded half away from zero.
pub open spec fn median_value(s: Seq<int>) -> int {
    let t = sorted_seq(s);
    let m = (t.len() / 2) as int;
    if t.len() % 2 == 0 {
        round_half_away(t[m - 1] + t[m], 2)
    } else {
        t[m]
    }
}

proof fn lemma_insert_at(t: Seq<int>, x: int, pos: int)
    requires
        0 <= pos <= t.len(),
        forall|j: int| 0 <= j < pos ==> t[j] <= x,
        pos < t.len() ==> x < t[pos],
    ensures
        insert_sorted(t, x) == t.subrange(0, pos) + seq![x] + t.subrange(pos, t.len() as int),
    decreases t.len(),
{
    if t.len() == 0 {
        assert(t.subrange(0, pos) + seq![x] + t.subrange(pos, t.len() as int) =~= seq![x]);
    } else if pos == 0 {
        assert(t.subrange(0, pos) + seq![x] + t.subrange(pos, t.len() as int) =~= seq![x] + t);
    } else {
        let r = t.drop_first();
        lemma_insert_at(r, x, pos - 1);
        assert(t.subrange(0, pos) + seq![x] + t.subrange(pos, t.len() as int) =~= seq![t[0]] + (r.subrange(0, pos - 1)
            + seq![x] + r.subrange(pos - 1, r.len() as int)));
    }
}

proof fn lemma_insert_bounded(t: Seq<int>, x: int, lo: int, hi: int)
    requires
        forall|j: int| 0 <= j < t.len() ==> lo <= #[trigger] t[j] <= hi,
        lo <= x <= hi,
    ensures
        insert_sorted(t, x).len() == t.len() + 1,
        forall|j: int| 0 <= j < insert_sorted(t, x).len() ==> lo <= #[trigger] insert_sorted(t, x)[j] <= hi,
    decreases t.len(),
{
    if t.len() > 0 && x >= t[0] {
        lemma_insert_bounded(t.drop_first(), x, lo, hi);
        let r = insert_sorted(t.drop_first(), x);
        assert forall|j: int| 0 <= j < insert_sorted(t, x).len() implies lo <= #[trigger] insert_sorted(t, x)[j] <= hi by {
            if j > 0 {
                assert(insert_sorted(t, x)[j] == r[j - 1]);
            }
        }
    }
}

proof fn lemma_sorted_bounded(s: Seq<int>, lo: int, hi: int)
    requires
        forall|j: int| 0 <= j < s.len() ==> lo <= #[trigger] s[j] <= hi,
    ensures
        sorted_seq(s).len() == s.len(),
        forall|j: int| 0 <= j < sorted_seq(s).len() ==> lo <= #[trigger] sorted_seq(s)[j] <= hi,
    decreases s.len(),
{
    if s.len() > 0 {
        lemma_sorted_bounded(s.drop_last(), lo, hi);
        lemma_insert_bounded(sorted_seq(s.drop_last()), s.last(), lo, hi);
    }
}

/// Inserts `x` into the sorted list `t` before its first greater entry.
fn sorted_insert(t: &mut Vec<i32>, x: i32)
    ensures
        ints(final(t)@) == insert_sorted(ints(old(t)@), x as int),
{
    let mut pos: usize = 0;
    while pos < t.len() && t[pos] <= x
        invariant
            pos <= t@.len(),
            forall|j: int| 0 <= j < pos ==> #[trigger] t@[j] <= x,
        decreases t.len() - pos,
    {
        pos += 1;
    }
    let ghost before = t@;
    proof {
        lemma_insert_at(ints(before), x as int, pos as int);
    }
    t.insert(pos, x);
    proof {
        assert(ints(t@) =~= ints(before).subrange(0, pos as int) + seq![x as int] + ints(before).subrange(
            pos as int,
            before.len() as int,
        ));
    }
}

/// The median of `values` as `median_value` states it.
fn median_of(values: &Vec<i32>, Ghost(bound): Ghost<int>) -> (m: i32)
    requires
        values@.len() > 0,
        0 <= bound <= 0x3fff_ffff,
        forall|j: int| 0 <= j < values@.len() ==> -bound <= #[trigger] values@[j] <= bound,
    ensures
        m == median_value(ints(values@)),
        -bound <= m <= bound,
{
    let mut sorted: Vec<i32> = Vec::new();
    let mut i: usize = 0;
    while i < values.len()
        invariant
            i <= values@.len(),
            ints(sorted@) == sorted_seq(ints(values@.subrange(0, i as int))),
        decreases values.len() - i,
    {
        sorted_insert(&mut sorted, values[i]);
        proof {
            let pre = ints(values@.subrange(0, i + 1));
            assert(pre.drop_last() =~= ints(values@.subrange(0, i as int)));
            assert(pre.last() == values@[i as int] as int);
        }
        i += 1;
    }
    proof {
        assert(values@.subrange(0, values@.len() as int) =~= values@);
        lemma_sorted_bounded(ints(values@), -bound, bound);
    }
    let len = sorted.len();
    let mid = len / 2;
    proof {
        assert(sorted@.len() == ints(sorted@).len());
        assert(-bound <= ints(sorted@)[mid as int] <= bound);
        assert(ints(sorted@)[mid as int] == sorted@[mid as int] as int);
    }
    if len % 2 == 0 {
        proof {
            assert(-bound <= ints(sorted@)[mid - 1] <= bound);
            assert(ints(sorted@)[mid - 1] == sorted@[mid - 1] as int);
        }
        let total: i32 = sorted[mid - 1] + sorted[mid];
        if total >= 0 {
            total / 2 + total % 2
        } else {
            -((-total) / 2 + (-total) % 2)
        }
    } else {
        sorted[mid]
    }
}

/// What an edge between two items asks of their base ranks: the target's
/// node (at `target_local_rank` inside its item) lies `delta` ranks below
/// the source's node (at `source_local_rank` inside its item).
#[derive(Debug, Clone, Copy)]
pub struct ItemRankConstraint {
    pub source_item: RankBlockKind,
    pub target_item: RankBlockKind,
    pub source_local_rank: i32,
    pub target_local_rank: i32,
    pub delta: i32,
}

/// Position of the first `item` in `items` from `from` on; -1 when absent.
pub open spec fn first_index(items: Seq<RankBlockKind>, item: RankBlockKind, from: int) -> int
    decreases items.len() - from,
{
    if from < 0 || from >= items.len() {
        -1
    } else if items[from] == item {
        from
    } else {
        first_index(items, item, from + 1)
    }
}

/// The base rank of `item` in `ranks` (listed in the order of `items`); 0 for
/// an item that is not listed.
pub open spec fn base_rank(items: Seq<RankBlockKind>, ranks: Seq<int>, item: RankBlockKind) -> int {
    let i = first_index(items, item, 0);
    if i >= 0 {
        ranks[i]
    } else {
        0
    }
}

/// The base rank that constraint `c` suggests for `item`, when it concerns
/// it: read as pulling the target when `item` is the target, else the source.
pub open spec fn suggestion(
    c: ItemRankConstraint,
    item: RankBlockKind,
    items: Seq<RankBlockKind>,
    ranks: Seq<int>,
) -> Option<int> {
    if c.target_item == item {
        Some(base_rank(items, ranks, c.source_item) + c.source_local_rank + c.delta - c.target_local_rank)
    } else if c.source_item == item {
        Some(base_rank(items, ranks, c.target_item) + c.target_local_rank - c.delta - c.source_local_rank)
    } else {
        None
    }
}

/// The suggestions of the constraints for `item`, in constraint order.
pub open spec fn suggestions(
    constraints: Seq<ItemRankConstraint>,
    item: RankBlockKind,
    items: Seq<RankBlockKind>,
    ranks: Seq<int>,
) -> Seq<int>
    decreases constraints.len(),
{
    if constraints.len() == 0 {
        Seq::empty()
    } else {
        let prev = suggestions(constraints.drop_last(), item, items, ranks);
        match suggestion(constraints.last(), item, items, ranks) {
            Some(v) => prev.push(v),
            None => prev,
        }
    }
}

/// Whether some item is a single node.
pub open spec fn has_direct_nodes(items: Seq<RankBlockKind>) -> bool {
    exists|i: int| 0 <= i < items.len() && #[trigger] items[i] is Node
}

/// The starting base ranks: clusters start at 1 when single nodes share the
/// container, everything else at 0.
pub open spec fn seed_ranks(items: Seq<RankBlockKind>) -> Seq<int> {
    Seq::new(items.len(), |i: int| if items[i] is Cluster && has_direct_nodes(items) { 1int } else { 0int })
}

/// One round: every item moves to the median of its suggestions, computed
/// from the ranks before the round (a cluster to at least 1 when single
/// nodes share the container); an item without suggestions keeps its rank.
pub open spec fn item_round(items: Seq<RankBlockKind>, constraints: Seq<ItemRankConstraint>, ranks: Seq<int>) -> Seq<int> {
    Seq::new(
        items.len(),
        |i: int|
            {
                let s = suggestions(constraints, items[i], items, ranks);
                if s.len() == 0 {
                    ranks[i]
                } else if items[i] is Cluster && has_direct_nodes(items) && median_value(s) < 1 {
                    1
                } else {
                    median_value(s)
                }
            },
    )
}

/// The base ranks after `k` rounds.
pub open spec fn item_ranks_after(items: Seq<RankBlockKind>, constraints: Seq<ItemRankConstraint>, k: nat) -> Seq<int>
    decreases k,
{
    if k == 0 {
        seed_ranks(items)
    } else {
        item_round(items, constraints, item_ranks_after(items, constraints, (k - 1) as nat))
    }
}

/// Number of rounds: six per item, at least six.
pub open spec fn item_round_count(n: int) -> nat {
    if n > 1 {
        (6 * n) as nat
    } else {
        6
    }
}

/// The size of an integer.
pub open spec fn abs_int(x: int) -> int {
    if x < 0 {
        -x
    } else {
        x
    }
}

/// How far one constraint can move a base rank.
pub open spec fn constraint_span(c: ItemRankConstraint) -> int {
    abs_int(c.source_local_rank as int) + abs_int(c.target_local_rank as int) + abs_int(c.delta as int)
}

/// The rounds stay well within `i32`.
pub open spec fn item_ranks_fit(items: Seq<RankBlockKind>, constraints: Seq<ItemRankConstraint>) -> bool {
    &&& 6 * items.len() <= usize::MAX
    &&& forall|k: int|
        0 <= k < constraints.len() ==> (item_round_count(items.len() as int) + 1) * constraint_span(
            #[trigger] constraints[k],
        ) + 2 <= 0x1fff_ffff
}

/// No item is listed twice.
pub open spec fn distinct_items(items: Seq<RankBlockKind>) -> bool {
    forall|i: int, j: int| 0 <= i < j < items.len() ==> items[i] != items[j]
}

/// The smallest value of `s` (0 when empty).
pub open spec fn min_value(s: Seq<int>) -> int
    decreases s.len(),
{
    if s.len() == 0 {
        0
    } else if s.len() == 1 {
        s[0]
    } else {
        let m = min_value(s.drop_last());
        if s.last() < m {
            s.last()
        } else {
            m
        }
    }
}

/// The largest span of the constraints (0 when there are none).
pub open spec fn max_span(constraints: Seq<ItemRankConstraint>) -> int
    decreases constraints.len(),
{
    if constraints.len() == 0 {
        0
    } else {
        let m = max_span(constraints.drop_last());
        if constraint_span(constraints.last()) > m {
            constraint_span(constraints.last())
        } else {
            m
        }
    }
}

proof fn lemma_max_span(constraints: Seq<ItemRankConstraint>)
    ensures
        0 <= max_span(constraints),
        forall|k: int| 0 <= k < constraints.len() ==> constraint_span(#[trigger] constraints[k]) <= max_span(constraints),
        constraints.len() > 0 ==> exists|k: int| 0 <= k < constraints.len() && constraint_span(#[trigger] constraints[k]) == max_span(constraints),
    decreases constraints.len(),
{
    if constraints.len() > 0 {
        let init = constraints.drop_last();
        lemma_max_span(init);
        assert forall|k: int| 0 <= k < constraints.len() implies constraint_span(#[trigger] constraints[k]) <= max_span(constraints) by {
            if k < init.len() {
                assert(constraints[k] == init[k]);
            }
        }
        if init.len() > 0 && constraint_span(constraints.last()) <= max_span(init) {
            let k = choose|k: int| 0 <= k < init.len() && constraint_span(#[trigger] init[k]) == max_span(init);
            assert(constraints[k] == init[k]);
        } else {
            assert(constraints[constraints.len() - 1] == constraints.last());
        }
    }
}

proof fn lemma_first_index(items: Seq<RankBlockKind>, item: RankBlockKind, from: int)
    ensures
        first_index(items, item, from) == -1 || (0 <= first_index(items, item, from) < items.len() && items[first_index(items, item, from)] == item),
    decreases items.len() - from,
{
    if 0 <= from < items.len() && items[from] != item {
        lemma_first_index(items, item, from + 1);
    }
}

proof fn lemma_first_index_found(items: Seq<RankBlockKind>, item: RankBlockKind, from: int, at: int)
    requires
        distinct_items(items),
        0 <= from <= at < items.len(),
        items[at] == item,
    ensures
        first_index(items, item, from) == at,
    decreases at - from,
{
    if from < at {
        assert(items[from] != item);
        lemma_first_index_found(items, item, from + 1, at);
    }
}

proof fn lemma_median_single(x: int)
    ensures
        median_value(seq![x]) == x,
{
    assert(seq![x].drop_last() =~= Seq::<int>::empty());
    assert(sorted_seq(seq![x]) == insert_sorted(sorted_seq(Seq::<int>::empty()), x));
    assert(sorted_seq(seq![x]) =~= seq![x]);
}

/// Law: the median of some values lies between the smallest and the
/// largest of them.
pub proof fn law_median_between_extremes(values: Seq<int>, lo: int, hi: int)
    requires
        values.len() > 0,
        forall|j: int| 0 <= j < values.len() ==> lo <= #[trigger] values[j] <= hi,
    ensures
        lo <= median_value(values) <= hi,
{
    lemma_sorted_bounded(values, lo, hi);
    let t = sorted_seq(values);
    let m = (t.len() / 2) as int;
    if t.len() % 2 == 0 {
        let num = t[m - 1] + t[m];
        crate::simplex::lemma_round_near(num, 2);
        let r = round_half_away(num, 2);
        assert(lo <= r <= hi) by (nonlinear_arith)
            requires
                -2 <= 2 * (num - r * 2) <= 2,
                2 * lo <= num <= 2 * hi,
        ;
    }
}

/// Law: in a round, an item with suggestions that is not held at rank 1
/// moves to a rank between its smallest and largest suggestion.
pub proof fn law_round_within_suggestions(
    items: Seq<RankBlockKind>,
    constraints: Seq<ItemRankConstraint>,
    ranks: Seq<int>,
    i: int,
    lo: int,
    hi: int,
)
    requires
        0 <= i < items.len(),
        suggestions(constraints, items[i], items, ranks).len() > 0,
        forall|j: int|
            0 <= j < suggestions(constraints, items[i], items, ranks).len() ==> lo <= #[trigger] suggestions(
                constraints,
                items[i],
                items,
                ranks,
            )[j] <= hi,
        !(items[i] is Cluster && has_direct_nodes(items)),
    ensures
        lo <= item_round(items, constraints, ranks)[i] <= hi,
{
    law_median_between_extremes(suggestions(constraints, items[i], items, ranks), lo, hi);
}

/// Law: a round reads a constraint as "the target's node lies `delta`
/// ranks below the source's node". With `c` the only constraint, between
/// two different listed items, a round puts the target where its node at
/// `target_local_rank` sits exactly `delta` below the source's node at
/// `source_local_rank` (as the source was before the round), and the
/// source where its node sits exactly `delta` above the target's node (as
/// the target was before); only a cluster that shares its container with
/// single nodes is held at rank 1 instead when that would put it lower.
/// Every other item keeps its rank.
pub proof fn law_round_meets_single_constraint(
    items: Seq<RankBlockKind>,
    c: ItemRankConstraint,
    ranks: Seq<int>,
    s: int,
    t: int,
)
    requires
        distinct_items(items),
        ranks.len() == items.len(),
        0 <= s < items.len(),
        0 <= t < items.len(),
        s != t,
        items[s] == c.source_item,
        items[t] == c.target_item,
    ensures
        ({
            let r = item_round(items, seq![c], ranks);
            let held_t = items[t] is Cluster && has_direct_nodes(items);
            let held_s = items[s] is Cluster && has_direct_nodes(items);
            &&& r.len() == items.len()
            &&& r[t] + c.target_local_rank == ranks[s] + c.source_local_rank + c.delta || (held_t && r[t] == 1
                && ranks[s] + c.source_local_rank + c.delta - c.target_local_rank < 1)
            &&& r[s] + c.source_local_rank + c.delta == ranks[t] + c.target_local_rank || (held_s && r[s] == 1
                && ranks[t] + c.target_local_rank - c.delta - c.source_local_rank < 1)
            &&& forall|i: int| 0 <= i < items.len() && i != s && i != t ==> #[trigger] r[i] == ranks[i]
        }),
{
    let cs = seq![c];
    lemma_first_index_found(items, c.source_item, 0, s);
    lemma_first_index_found(items, c.target_item, 0, t);
    assert(cs.drop_last() =~= Seq::<ItemRankConstraint>::empty());
    assert(cs.last() == c);
    let vt = ranks[s] + c.source_local_rank + c.delta - c.target_local_rank;
    let vs = ranks[t] + c.target_local_rank - c.delta - c.source_local_rank;
    assert(c.source_item != c.target_item);
    assert(base_rank(items, ranks, c.source_item) == ranks[s]);
    assert(base_rank(items, ranks, c.target_item) == ranks[t]);
    assert(suggestion(c, items[t], items, ranks) == Some(vt));
    assert(suggestion(c, items[s], items, ranks) == Some(vs));
    assert(suggestions(cs.drop_last(), items[t], items, ranks) == Seq::<int>::empty());
    assert(suggestions(cs.drop_last(), items[s], items, ranks) == Seq::<int>::empty());
    assert(suggestions(cs, items[t], items, ranks) =~= seq![vt]);
    assert(suggestions(cs, items[s], items, ranks) =~= seq![vs]);
    lemma_median_single(vt);
    lemma_median_single(vs);
    assert forall|i: int| 0 <= i < items.len() && i != s && i != t implies #[trigger] item_round(items, cs, ranks)[i]
        == ranks[i] by {
        assert(items[i] != c.source_item && items[i] != c.target_item);
        assert(suggestions(cs.drop_last(), items[i], items, ranks) == Seq::<int>::empty());
        assert(suggestions(cs, items[i], items, ranks) =~= Seq::<int>::empty());
    }
}

/// The base rank of `item`: its entry in `ranks`, or 0 when it is not listed.
fn lookup_base(items: &[RankBlockKind], ranks: &Vec<i32>, item: RankBlockKind) -> (r: i32)
    requires
        ranks@.len() == items@.len(),
    ensures
        r == base_rank(items@, ints(ranks@), item),
{
    let mut i: usize = 0;
    while i < items.len()
        invariant
            i <= items@.len(),
            ranks@.len() == items@.len(),
            first_index(items@, item, 0) == first_index(items@, item, i as int),
        decreases items.len() - i,
    {
        if items[i] == item {
            return ranks[i];
        }
        i += 1;
    }
    0
}

/// The suggestions of the constraints for `item`, from base ranks within
/// `bound`.
fn item_suggestions(
    constraints: &[ItemRankConstraint],
    item: RankBlockKind,
    items: &[RankBlockKind],
    ranks: &Vec<i32>,
    Ghost(bound): Ghost<int>,
    Ghost(cap): Ghost<int>,
) -> (found: Vec<i32>)
    requires
        ranks@.len() == items@.len(),
        0 <= bound,
        0 <= cap,
        bound + cap <= 0x1fff_ffff,
        forall|i: int| 0 <= i < ranks@.len() ==> -bound <= #[trigger] ranks@[i] <= bound,
        forall|k: int| 0 <= k < constraints@.len() ==> constraint_span(#[trigger] constraints@[k]) <= cap,
    ensures
        ints(found@) == suggestions(constraints@, item, items@, ints(ranks@)),
        forall|j: int| 0 <= j < found@.len() ==> -(bound + cap) <= #[trigger] found@[j] <= bound + cap,
{
    let mut found: Vec<i32> = Vec::new();
    let mut k: usize = 0;
    while k < constraints.len()
        invariant
            k <= constraints@.len(),
            ranks@.len() == items@.len(),
            0 <= bound,
            0 <= cap,
            bound + cap <= 0x1fff_ffff,
            forall|i: int| 0 <= i < ranks@.len() ==> -bound <= #[trigger] ranks@[i] <= bound,
            forall|q: int| 0 <= q < constraints@.len() ==> constraint_span(#[trigger] constraints@[q]) <= cap,
            ints(found@) == suggestions(constraints@.subrange(0, k as int), item, items@, ints(ranks@)),
            forall|j: int| 0 <= j < found@.len() ==> -(bound + cap) <= #[trigger] found@[j] <= bound + cap,
        decreases constraints.len() - k,
    {
        let c = constraints[k];
        proof {
            let pre = constraints@.subrange(0, k + 1);
            assert(pre.drop_last() =~= constraints@.subrange(0, k as int));
            assert(pre.last() == c);
            assert(constraint_span(constraints@[k as int]) <= cap);
        }
        let ghost before = found@;
        if c.target_item == item {
            let base = lookup_base(items, ranks, c.source_item);
            proof {
                let fi = first_index(items@, c.source_item, 0);
                lemma_first_index(items@, c.source_item, 0);
                if fi >= 0 {
                    assert(ints(ranks@)[fi] == ranks@[fi] as int);
                }
            }
            let v = base + c.source_local_rank + c.delta - c.target_local_rank;
            found.push(v);
            proof {
                assert(ints(found@) =~= ints(before).push(v as int));
            }
        } else if c.source_item == item {
            let base = lookup_base(items, ranks, c.target_item);
            proof {
                let fi = first_index(items@, c.target_item, 0);
                lemma_first_index(items@, c.target_item, 0);
                if fi >= 0 {
                    assert(ints(ranks@)[fi] == ranks@[fi] as int);
                }
            }
            let v = base + c.target_local_rank - c.delta - c.source_local_rank;
            found.push(v);
            proof {
                assert(ints(found@) =~= ints(before).push(v as int));
            }
        }
        k += 1;
    }
    proof {
        assert(constraints@.subrange(0, constraints@.len() as int) =~= constraints@);
    }
    found
}

/// One round over all items, from base ranks within `bound`.
fn item_round_exec(
    items: &[RankBlockKind],
    constraints: &[ItemRankConstraint],
    ranks: &Vec<i32>,
    has_direct: bool,
    Ghost(bound): Ghost<int>,
    Ghost(cap): Ghost<int>,
) -> (next: Vec<i32>)
    requires
        ranks@.len() == items@.len(),
        has_direct == has_direct_nodes(items@),
        1 <= bound,
        0 <= cap,
        bound + cap <= 0x1fff_ffff,
        forall|i: int| 0 <= i < ranks@.len() ==> -bound <= #[trigger] ranks@[i] <= bound,
        forall|k: int| 0 <= k < constraints@.len() ==> constraint_span(#[trigger] constraints@[k]) <= cap,
    ensures
        next@.len() == items@.len(),
        ints(next@) == item_round(items@, constraints@, ints(ranks@)),
        forall|i: int| 0 <= i < next@.len() ==> -(bound + cap) <= #[trigger] next@[i] <= bound + cap,
{
    let ghost target = item_round(items@, constraints@, ints(ranks@));
    let mut next: Vec<i32> = Vec::new();
    let mut i: usize = 0;
    while i < items.len()
        invariant
            i <= items@.len(),
            ranks@.len() == items@.len(),
            has_direct == has_direct_nodes(items@),
            1 <= bound,
            0 <= cap,
            bound + cap <= 0x1fff_ffff,
            forall|q: int| 0 <= q < ranks@.len() ==> -bound <= #[trigger] ranks@[q] <= bound,
            forall|k: int| 0 <= k < constraints@.len() ==> constraint_span(#[trigger] constraints@[k]) <= cap,
            target == item_round(items@, constraints@, ints(ranks@)),
            next@.len() == i,
            forall|j: int| 0 <= j < i ==> #[trigger] next@[j] as int == target[j],
            forall|j: int| 0 <= j < i ==> -(bound + cap) <= #[trigger] next@[j] <= bound + cap,
        decreases items.len() - i,
    {
        let item = items[i];
        let found = item_suggestions(constraints, item, items, ranks, Ghost(bound), Ghost(cap));
        if found.len() == 0 {
            next.push(ranks[i]);
        } else {
            let m = median_of(&found, Ghost(bound + cap));
            if matches!(item, RankBlockKind::Cluster(_)) && has_direct && m < 1 {
                next.push(1);
            } else {
                next.push(m);
            }
        }
        i += 1;
    }
    proof {
        assert(ints(next@) =~= target);
    }
    next
}

proof fn lemma_min_value(s: Seq<int>)
    ensures
        forall|i: int| 0 <= i < s.len() ==> min_value(s) <= #[trigger] s[i],
        s.len() > 0 ==> exists|i: int| 0 <= i < s.len() && #[trigger] s[i] == min_value(s),
    decreases s.len(),
{
    if s.len() > 1 {
        let init = s.drop_last();
        lemma_min_value(init);
        assert forall|i: int| 0 <= i < s.len() implies min_value(s) <= #[trigger] s[i] by {
            if i < init.len() {
                assert(s[i] == init[i]);
            }
        }
        if s.last() < min_value(init) {
            assert(s[s.len() - 1] == min_value(s));
        } else {
            let i = choose|i: int| 0 <= i < init.len() && #[trigger] init[i] == min_value(init);
            assert(s[i] == init[i]);
        }
    } else if s.len() == 1 {
        assert(s[0] == min_value(s));
    }
}

/// Base ranks for the items ranked together inside a container, listed in
/// the order of `items`. Starting from `seed_ranks`, every round moves each
/// item to the median of what the edge constraints that concern it suggest
/// (clusters to at least 1 when single nodes share the container), six
/// rounds per item and at least six; then all ranks are shifted so that the
/// smallest is 0.
pub fn solve_item_ranks(items: &[RankBlockKind], edge_constraints: &[ItemRankConstraint]) -> (ranks: Vec<i32>)
    requires
        distinct_items(items@),
        item_ranks_fit(items@, edge_constraints@),
    ensures
        ranks@.len() == items@.len(),
        forall|i: int|
            0 <= i < items@.len() ==> #[trigger] ranks@[i] as int == item_ranks_after(
                items@,
                edge_constraints@,
                item_round_count(items@.len() as int),
            )[i] - min_value(item_ranks_after(items@, edge_constraints@, item_round_count(items@.len() as int))),
        forall|i: int| 0 <= i < items@.len() ==> #[trigger] ranks@[i] >= 0,
        items@.len() > 0 ==> exists|i: int| 0 <= i < items@.len() && #[trigger] ranks@[i] == 0,
{
    let n = items.len();
    let ghost cap = max_span(edge_constraints@);
    let ghost rounds = item_round_count(n as int);
    proof {
        lemma_max_span(edge_constraints@);
        if edge_constraints@.len() > 0 {
            let k = choose|k: int| 0 <= k < edge_constraints@.len() && constraint_span(#[trigger] edge_constraints@[k]) == max_span(edge_constraints@);
            assert((rounds + 1) * constraint_span(edge_constraints@[k]) + 2 <= 0x1fff_ffff);
        }
        assert(rounds * cap <= (rounds + 1) * cap) by (nonlinear_arith)
            requires
                cap >= 0,
        ;
    }
    let mut has_direct = false;
    let mut i: usize = 0;
    while i < n
        invariant
            i <= n,
            n == items@.len(),
            has_direct <==> exists|j: int| 0 <= j < i && #[trigger] items@[j] is Node,
        decreases n - i,
    {
        if matches!(items[i], RankBlockKind::Node(_)) {
            has_direct = true;
        }
        i += 1;
    }
    let mut ranks: Vec<i32> = Vec::new();
    let mut i: usize = 0;
    while i < n
        invariant
            i <= n,
            n == items@.len(),
            has_direct == has_direct_nodes(items@),
            ranks@.len() == i,
            forall|j: int| 0 <= j < i ==> #[trigger] ranks@[j] as int == seed_ranks(items@)[j],
            forall|j: int| 0 <= j < i ==> 0 <= #[trigger] ranks@[j] <= 1,
        decreases n - i,
    {
        if matches!(items[i], RankBlockKind::Cluster(_)) && has_direct {
            ranks.push(1);
        } else {
            ranks.push(0);
        }
        i += 1;
    }
    proof {
        assert(ints(ranks@) =~= item_ranks_after(items@, edge_constraints@, 0));
    }
    let total: usize = if n > 1 {
        n * 6
    } else {
        6
    };
    let mut round: usize = 0;
    while round < total
        invariant
            round <= total,
            total as int == rounds,
            n == items@.len(),
            has_direct == has_direct_nodes(items@),
            ranks@.len() == n,
            0 <= cap,
            (rounds + 1) * cap + 2 <= 0x1fff_ffff,
            forall|k: int| 0 <= k < edge_constraints@.len() ==> constraint_span(#[trigger] edge_constraints@[k]) <= cap,
            ints(ranks@) == item_ranks_after(items@, edge_constraints@, round as nat),
            forall|j: int| 0 <= j < n ==> -(1 + round * cap) <= #[trigger] ranks@[j] <= 1 + round * cap,
        decreases total - round,
    {
        proof {
            assert(round * cap + cap <= rounds * cap + cap) by (nonlinear_arith)
                requires
                    round <= rounds,
                    cap >= 0,
            ;
            assert((rounds + 1) * cap == rounds * cap + cap) by (nonlinear_arith);
            assert(round * cap >= 0) by (nonlinear_arith)
                requires
                    cap >= 0,
            ;
        }
        let next = item_round_exec(items, edge_constraints, &ranks, has_direct, Ghost(1 + round * cap), Ghost(cap));
        ranks = next;
        proof {
            assert((round + 1) * cap == round * cap + cap) by (nonlinear_arith);
        }
        round += 1;
    }
    let ghost fin = item_ranks_after(items@, edge_constraints@, rounds);
    let ghost b = 1 + rounds * cap;
    proof {
        assert(rounds * cap + cap <= 0x1fff_ffff) by (nonlinear_arith)
            requires
                (rounds + 1) * cap + 2 <= 0x1fff_ffff,
        ;
        lemma_min_value(fin);
    }
    if n == 0 {
        return ranks;
    }
    let mut lowest: i32 = ranks[0];
    let mut i: usize = 1;
    while i < n
        invariant
            1 <= i <= n,
            n == items@.len(),
            ranks@.len() == n,
            ints(ranks@) == fin,
            lowest as int == min_value(fin.subrange(0, i as int)),
        decreases n - i,
    {
        proof {
            let pre = fin.subrange(0, i + 1);
            assert(pre.drop_last() =~= fin.subrange(0, i as int));
            assert(pre.last() == ranks@[i as int] as int);
        }
        if ranks[i] < lowest {
            lowest = ranks[i];
        }
        i += 1;
    }
    proof {
        assert(fin.subrange(0, n as int) =~= fin);
        assert(-b <= lowest <= b) by {
            let j = choose|j: int| 0 <= j < fin.len() && #[trigger] fin[j] == min_value(fin);
            assert(fin[j] == ranks@[j] as int);
        }
    }
    let ghost before = ranks@;
    let mut out: Vec<i32> = Vec::new();
    let mut i: usize = 0;
    while i < n
        invariant
            i <= n,
            n == items@.len(),
            before.len() == n,
            ints(before) == fin,
            lowest as int == min_value(fin),
            -b <= lowest <= b,
            b <= 0x1fff_ffff,
            forall|j: int| 0 <= j < n ==> -b <= #[trigger] before[j] <= b,
            ranks@ == before,
            out@.len() == i,
            forall|j: int| 0 <= j < i ==> #[trigger] out@[j] as int == fin[j] - min_value(fin),
        decreases n - i,
    {
        assert(fin[i as int] == before[i as int] as int);
        out.push(ranks[i] - lowest);
        i += 1;
    }
    proof {
        assert forall|j: int| 0 <= j < n implies #[trigger] out@[j] >= 0 by {
            assert(min_value(fin) <= fin[j]);
        }
        let j = choose|j: int| 0 <= j < fin.len() && #[trigger] fin[j] == min_value(fin);
        assert(out@[j] == 0);
    }
    out
}

/// Tie-breaking position of an item: a cluster's declaration position, and
/// for a single node its index after all clusters.
pub fn initial_item_order(item: &RankBlockKind, clusters: &[ClusterInternal]) -> (order: usize)
    requires
        *item matches RankBlockKind::Cluster(c) ==> c < clusters@.len(),
        *item matches RankBlockKind::Node(v) ==> clusters@.len() + v <= usize::MAX,
    ensures
        order == (match *item {
            RankBlockKind::Cluster(c) => clusters@[c as int].declaration_index as int,
            RankBlockKind::Node(v) => clusters@.len() + v,
        }),
{
    match item {
        RankBlockKind::Cluster(cluster_index) => clusters[*cluster_index].declaration_index,
        RankBlockKind::Node(node_index) => clusters.len() + *node_index,
    }
}

/// The minimum rank length used when clusters are laid out: doubled
/// (saturating) when edges carry labels, converted to `i32` by truncation.
pub fn graphviz_rank_min_length(minimum_length: u32, has_edge_labels: bool) -> (length: i32)
    ensures
        length == (if has_edge_labels {
            (if 2 * minimum_length > u32::MAX {
                u32::MAX
            } else {
                (2 * minimum_length) as u32
            }) as i32
        } else {
            minimum_length as i32
        }),
{
    if has_edge_labels {
        let doubled: u32 = if minimum_length > u32::MAX / 2 {
            u32::MAX
        } else {
            minimum_length * 2
        };
        doubled as i32
    } else {
        minimum_length as i32
    }
}

} // verus!
