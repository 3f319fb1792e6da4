//! Counting weighted edge crossings between adjacent ranks with a Fenwick
//! (binary indexed) tree.
use vstd::prelude::*;

use crate::edges::{mincross_weight_spec, segment_mincross_weight, SegmentEdge};

verus! {

/// The lowest set bit of `x` (zero for zero).
pub open spec fn lowbit(x: u64) -> u64 {
    x & ((!x) + 1) as u64
}

/// The lowest set bit of a tree index.
pub open spec fn lb(k: int) -> int {
    lowbit(k as u64) as int
}

/// Largest tree length handled, far beyond what memory allows.
pub open spec fn max_tree_len() -> int {
    0x8000_0000_0000_0000
}

pub proof fn lemma_lowbit_basic(x: u64)
    requires
        x > 0,
    ensures
        0 < lowbit(x) <= x,
{
    assert(0 < lowbit(x) <= x) by (bit_vector)
        requires
            x > 0,
    ;
}

proof fn lemma_index_steps(x: usize)
    requires
        x > 0,
    ensures
        (x & ((x - 1) as usize)) as int == x - lb(x as int),
        0 < lb(x as int) <= x,
{
    assert((x & ((x - 1) as usize)) as u64 == (x as u64) - lowbit(x as u64)) by (bit_vector)
        requires
            x > 0,
    ;
    lemma_lowbit_basic(x as u64);
}

proof fn lemma_lowbit_step(x: u64)
    requires
        x > 0,
        x + lowbit(x) <= u64::MAX,
    ensures
        lowbit((x + lowbit(x)) as u64) >= 2 * lowbit(x),
{
    assert(lowbit((x + lowbit(x)) as u64) >= 2 * lowbit(x)) by (bit_vector)
        requires
            x > 0,
            x + lowbit(x) <= u64::MAX,
    ;
}

proof fn lemma_lowbit_between(x: u64, k: u64)
    requires
        x > 0,
        x < k,
        k < x + lowbit(x),
    ensures
        k - lowbit(k) >= x,
{
    assert(k - lowbit(k) >= x) by (bit_vector)
        requires
            x > 0,
            x < k,
            k < x + lowbit(x),
    ;
}

/// `a[1] + ... + a[i]`.
pub open spec fn prefix(a: Seq<int>, i: int) -> int
    decreases i,
{
    if i <= 0 {
        0
    } else {
        prefix(a, i - 1) + a[i]
    }
}

/// `tree` is the Fenwick tree of `a`: entry `k` holds the sum of `a` over
/// the `lb(k)` positions ending at `k` (entry zero is unused).
pub open spec fn represents(tree: Seq<i64>, a: Seq<int>) -> bool {
    &&& tree.len() == a.len()
    &&& forall|k: int| 1 <= k < tree.len() ==> #[trigger] tree[k] == prefix(a, k) - prefix(a, k - lb(k))
}

/// The sum of the tree entries that a prefix query at `i` reads: `i`, then
/// `i` without its lowest bit, and so on down to zero.
pub open spec fn chain_sum(tree: Seq<i64>, i: int) -> int
    decreases i,
{
    if i <= 0 || i >= max_tree_len() {
        0
    } else {
        proof {
            lemma_lowbit_basic(i as u64);
        }
        tree[i] + chain_sum(tree, i - lb(i))
    }
}

/// Every running total of a prefix query at `i` that starts from `acc`
/// fits in an `i64`.
pub open spec fn chain_fits(tree: Seq<i64>, i: int, acc: int) -> bool
    decreases i,
{
    if i <= 0 || i >= max_tree_len() {
        true
    } else {
        proof {
            lemma_lowbit_basic(i as u64);
        }
        i64::MIN <= acc + tree[i] <= i64::MAX && chain_fits(tree, i - lb(i), acc + tree[i])
    }
}

/// Tree entry `k` covers position `i`: its range, the `lb(k)` positions
/// ending at `k`, holds `i`.
pub open spec fn covers(k: int, i: int) -> bool {
    1 <= i <= k && k - lb(k) < i
}

/// Adds `delta` to the entries of a Fenwick tree that cover position
/// `index`: `index`, then `index` plus its lowest set bit, and so on while
/// inside the tree.
pub fn fenwick_add_i64(tree: &mut [i64], index: usize, delta: i64)
    requires
        index > 0 || index >= old(tree)@.len(),
        old(tree)@.len() <= usize::MAX / 2,
        forall|k: int|
            0 <= k < old(tree)@.len() && covers(k, index as int) ==> i64::MIN <= #[trigger] old(tree)@[k] + delta
                <= i64::MAX,
    ensures
        final(tree)@.len() == old(tree)@.len(),
        forall|k: int|
            0 <= k < old(tree)@.len() ==> #[trigger] final(tree)@[k] == old(tree)@[k] + (if covers(k, index as int) {
                delta as int
            } else {
                0
            }),
{
    let ghost start = tree@;
    let ghost i = index as int;
    if index >= tree.len() {
        assert forall|k: int| 0 <= k < start.len() implies !covers(k, i) by {}
        return;
    }
    let mut x = index;
    let len = tree.len();
    proof {
        lemma_index_steps(x);
    }
    while x < len
        invariant
            len == start.len(),
            1 <= i <= x,
            x - lb(x as int) < i,
            tree@.len() == start.len(),
            start.len() <= usize::MAX / 2,
            forall|k: int| 0 <= k < start.len() && covers(k, i) ==> i64::MIN <= #[trigger] start[k] + delta <= i64::MAX,
            forall|k: int|
                0 <= k < start.len() ==> #[trigger] tree@[k] == start[k] + (if i <= k < x && covers(k, i) {
                    delta as int
                } else {
                    0
                }),
        decreases 2 * len - x,
    {
        proof {
            lemma_index_steps(x);
            assert(covers(x as int, i));
        }
        tree[x] = tree[x] + delta;
        let step = x - (x & (x - 1));
        let next = x + step;
        proof {
            let xu = x as u64;
            lemma_lowbit_step(xu);
            assert forall|k: int| x < k < next implies !covers(k, i) by {
                lemma_lowbit_between(xu, k as u64);
            }
            lemma_index_steps(next);
        }
        x = next;
    }
    proof {
        assert forall|k: int| 0 <= k < start.len() implies #[trigger] tree@[k] == start[k] + (if covers(k, i) {
            delta as int
        } else {
            0
        }) by {}
    }
}

/// The sum of the Fenwick tree entries read by a prefix query at `index`:
/// `index`, then `index` with its lowest set bit cleared, down to zero.
pub fn fenwick_sum_i64(tree: &[i64], index: usize) -> (sum: i64)
    requires
        index == 0 || index < tree@.len(),
        tree@.len() <= usize::MAX / 2,
        chain_fits(tree@, index as int, 0),
    ensures
        sum == chain_sum(tree@, index as int),
{
    let mut sum: i64 = 0;
    let mut index = index;
    let ghost start = index as int;
    while index > 0
        invariant
            index == 0 || index < tree@.len(),
            tree@.len() <= usize::MAX / 2,
            chain_fits(tree@, index as int, sum as int),
            sum + chain_sum(tree@, index as int) == chain_sum(tree@, start),
        decreases index,
    {
        proof {
            lemma_index_steps(index);
        }
        sum = sum + tree[index];
        index = index & (index - 1);
    }
    sum
}


/// `a` with `d` added at position `p`.
pub open spec fn bumped(a: Seq<int>, p: int, d: int) -> Seq<int> {
    a.update(p, a[p] + d)
}

proof fn lemma_prefix_bumped(a: Seq<int>, p: int, d: int, j: int)
    requires
        0 <= p < a.len(),
        j < a.len(),
    ensures
        prefix(bumped(a, p, d), j) == prefix(a, j) + (if j >= p && p >= 1 {
            d
        } else {
            0
        }),
    decreases j,
{
    if j > 0 {
        lemma_prefix_bumped(a, p, d, j - 1);
    }
}

/// Law: a prefix query on the Fenwick tree of `a` returns the sum of `a`
/// over positions `1..=i`.
pub proof fn law_fenwick_sum_is_prefix_sum(tree: Seq<i64>, a: Seq<int>, i: int)
    requires
        represents(tree, a),
        0 <= i < tree.len(),
        tree.len() <= usize::MAX / 2,
    ensures
        chain_sum(tree, i) == prefix(a, i),
    decreases i,
{
    if i > 0 {
        lemma_lowbit_basic(i as u64);
        law_fenwick_sum_is_prefix_sum(tree, a, i - lb(i));
    }
}

/// Law: on any tree at all (the tree of some sequence or not), adding `d`
/// to the entries that cover position `p` raises the prefix query at every
/// `j >= p` by `d` and leaves the queries below `p` as they were.
pub proof fn law_fenwick_add_then_sum(tree: Seq<i64>, after: Seq<i64>, p: int, d: int, j: int)
    requires
        1 <= p < tree.len(),
        0 <= j < tree.len(),
        tree.len() <= usize::MAX / 2,
        after.len() == tree.len(),
        forall|k: int| 0 <= k < tree.len() ==> #[trigger] after[k] == tree[k] + (if covers(k, p) {
            d
        } else {
            0
        }),
    ensures
        chain_sum(after, j) == chain_sum(tree, j) + (if j >= p {
            d
        } else {
            0
        }),
    decreases j,
{
    if j > 0 {
        lemma_lowbit_basic(j as u64);
        law_fenwick_add_then_sum(tree, after, p, d, j - lb(j));
        assert(after[j] == tree[j] + (if covers(j, p) {
            d
        } else {
            0
        }));
    }
}

/// Law: adding `d` to the entries that cover position `p` turns the
/// Fenwick tree of `a` into the Fenwick tree of `a` with `d` added at `p`.
pub proof fn law_fenwick_add_is_point_update(tree: Seq<i64>, after: Seq<i64>, a: Seq<int>, p: int, d: int)
    requires
        represents(tree, a),
        1 <= p < tree.len(),
        tree.len() <= usize::MAX / 2,
        after.len() == tree.len(),
        forall|k: int| 0 <= k < tree.len() ==> #[trigger] after[k] == tree[k] + (if covers(k, p) {
            d
        } else {
            0
        }),
    ensures
        represents(after, bumped(a, p, d)),
{
    assert forall|k: int| 1 <= k < after.len() implies #[trigger] after[k] == prefix(bumped(a, p, d), k) - prefix(
        bumped(a, p, d),
        k - lb(k),
    ) by {
        lemma_lowbit_basic(k as u64);
        lemma_prefix_bumped(a, p, d, k);
        lemma_prefix_bumped(a, p, d, k - lb(k));
    }
}

/// Total weight of the items.
pub open spec fn total_weight(vals: Seq<(usize, usize, i64)>) -> int
    decreases vals.len(),
{
    if vals.len() == 0 {
        0
    } else {
        total_weight(vals.drop_last()) + vals.last().2
    }
}

/// Total absolute weight of the items.
pub open spec fn abs_weight(vals: Seq<(usize, usize, i64)>) -> int
    decreases vals.len(),
{
    if vals.len() == 0 {
        0
    } else {
        abs_weight(vals.drop_last()) + (if vals.last().2 < 0 {
            -vals.last().2
        } else {
            vals.last().2 as int
        })
    }
}

/// Total weight of the items whose target is at most `x`.
pub open spec fn weight_at_most(vals: Seq<(usize, usize, i64)>, x: int) -> int
    decreases vals.len(),
{
    if vals.len() == 0 {
        0
    } else {
        weight_at_most(vals.drop_last(), x) + (if vals.last().1 <= x {
            vals.last().2 as int
        } else {
            0
        })
    }
}

/// Total weight of the items whose target is above `x`.
pub open spec fn weight_above(vals: Seq<(usize, usize, i64)>, x: int) -> int
    decreases vals.len(),
{
    if vals.len() == 0 {
        0
    } else {
        weight_above(vals.drop_last(), x) + (if vals.last().1 > x {
            vals.last().2 as int
        } else {
            0
        })
    }
}

/// Weighted count of inversions: for every pair of items where the earlier
/// one has the larger target, the product of their weights.
pub open spec fn inversion_weight(vals: Seq<(usize, usize, i64)>) -> int
    decreases vals.len(),
{
    if vals.len() == 0 {
        0
    } else {
        inversion_weight(vals.drop_last()) + vals.last().2 * weight_above(vals.drop_last(), vals.last().1 as int)
    }
}

/// The weight item `t` adds to the inversion count: its weight times the
/// total weight of the earlier items with a larger target.
pub open spec fn inversion_term(vals: Seq<(usize, usize, i64)>, t: int) -> int {
    vals[t].2 * weight_above(vals.subrange(0, t), vals[t].1 as int)
}

/// The sums `weighted_inversion_count` forms fit in `i64`: the total
/// absolute weight stays within `i64::MAX / 2` (the running weight totals
/// and Fenwick entries are sums of weights), and every product it adds and
/// every running inversion total fit.
pub open spec fn inversion_fits(vals: Seq<(usize, usize, i64)>) -> bool {
    &&& abs_weight(vals) <= 0x3fff_ffff_ffff_ffff
    &&& forall|t: int| 0 <= t < vals.len() ==> i64::MIN <= #[trigger] inversion_term(vals, t) <= i64::MAX
    &&& forall|t: int| 0 <= t <= vals.len() ==> i64::MIN <= #[trigger] inversion_weight(vals.subrange(0, t)) <= i64::MAX
}

proof fn lemma_weight_split(vals: Seq<(usize, usize, i64)>, x: int)
    ensures
        total_weight(vals) == weight_at_most(vals, x) + weight_above(vals, x),
        -abs_weight(vals) <= weight_at_most(vals, x) <= abs_weight(vals),
        -abs_weight(vals) <= weight_above(vals, x) <= abs_weight(vals),
        -abs_weight(vals) <= total_weight(vals) <= abs_weight(vals),
        abs_weight(vals) >= 0,
    decreases vals.len(),
{
    if vals.len() > 0 {
        lemma_weight_split(vals.drop_last(), x);
    }
}

/// With every prefix sum of `a` within `b`, the running totals of a prefix
/// query at `i` that started at position `i0` all fit.
proof fn lemma_chain_fits(tree: Seq<i64>, a: Seq<int>, i: int, p0: int, b: int)
    requires
        represents(tree, a),
        0 <= i < tree.len(),
        tree.len() <= usize::MAX / 2,
        forall|j: int| 0 <= j < tree.len() ==> -b <= #[trigger] prefix(a, j) <= b,
        -b <= p0 <= b,
        b <= 0x3fff_ffff_ffff_ffff,
    ensures
        chain_fits(tree, i, p0 - prefix(a, i)),
    decreases i,
{
    assert(i < max_tree_len());
    if i > 0 {
        lemma_lowbit_basic(i as u64);
        lemma_chain_fits(tree, a, i - lb(i), p0, b);
        assert(tree[i] == prefix(a, i) - prefix(a, i - lb(i)));
        assert(p0 - prefix(a, i) + tree[i] == p0 - prefix(a, i - lb(i)));
        assert(-b <= prefix(a, i - lb(i)) <= b);
    }
}

/// Weighted number of inversions among the targets, in the given order:
/// for each item, its weight times the total weight of the earlier items
/// with a larger target, using a Fenwick tree over targets `0..=size`.
pub fn weighted_inversion_count(values: &[(usize, usize, i64)], size: usize) -> (inversions: i64)
    requires
        forall|t: int| 0 <= t < values@.len() ==> (#[trigger] values@[t]).1 <= size,
        size + 2 <= usize::MAX / 2,
        inversion_fits(values@),
    ensures
        inversions == inversion_weight(values@),
{
    let ghost vals = values@;
    let ghost bw = abs_weight(vals);
    proof {
        lemma_weight_split(vals, 0);
    }
    if values.len() <= 1 {
        proof {
            if vals.len() == 1 {
                assert(vals.drop_last().len() == 0);
                assert(weight_above(vals.drop_last(), vals.last().1 as int) == 0);
                assert(inversion_weight(vals.drop_last()) == 0);
                assert(vals.last().2 * 0 == 0);
            }
        }
        return 0;
    }
    let len = size + 2;
    let mut fenwick: Vec<i64> = Vec::new();
    let mut k: usize = 0;
    while k < len
        invariant
            k <= len,
            fenwick@.len() == k,
            forall|j: int| 0 <= j < k ==> fenwick@[j] == 0,
        decreases len - k,
    {
        fenwick.push(0);
        k += 1;
    }
    let ghost mut a: Seq<int> = Seq::new(len as nat, |j: int| 0int);
    proof {
        assert forall|j: int| j < len implies #[trigger] prefix(a, j) == 0 by {
            lemma_prefix_zero(a, j);
        }
        assert(represents(fenwick@, a));
    }
    let mut seen: i64 = 0;
    let mut inversions: i64 = 0;
    let mut t: usize = 0;
    proof {
        lemma_weight_split(vals, 0);
        assert(vals.subrange(0, 0).len() == 0);
    }
    while t < values.len()
        invariant
            t <= vals.len(),
            vals == values@,
            len == size + 2,
            len <= usize::MAX / 2,
            fenwick@.len() == len,
            a.len() == len,
            forall|s: int| 0 <= s < vals.len() ==> (#[trigger] vals[s]).1 <= size,
            bw == abs_weight(vals),
            0 <= bw <= 0x3fff_ffff_ffff_ffff,
            inversion_fits(vals),
            represents(fenwick@, a),
            forall|j: int| 0 <= j < len ==> #[trigger] prefix(a, j) == weight_at_most(vals.subrange(0, t as int), j - 1),
            seen == total_weight(vals.subrange(0, t as int)),
            inversions == inversion_weight(vals.subrange(0, t as int)),
            abs_weight(vals.subrange(0, t as int)) <= abs_weight(vals),
        decreases values.len() - t,
    {
        let (_, to, weight) = values[t];
        let idx = to + 1;
        let ghost done = vals.subrange(0, t as int);
        let ghost next = vals.subrange(0, t + 1);
        proof {
            assert(next.drop_last() == done);
            assert(next.last() == vals[t as int]);
            lemma_abs_weight_prefix(vals, t + 1);
            lemma_weight_split(done, to as int);
            lemma_weight_split(next, to as int);
            assert forall|j: int| 0 <= j < len implies -bw <= #[trigger] prefix(a, j) <= bw by {
                lemma_weight_split(done, j - 1);
            }
            lemma_chain_fits(fenwick@, a, idx as int, prefix(a, idx as int), bw);
        }
        let prefix_weight = fenwick_sum_i64(fenwick.as_slice(), idx);
        proof {
            law_fenwick_sum_is_prefix_sum(fenwick@, a, idx as int);
            assert(prefix_weight == weight_at_most(done, to as int));
            let above = seen - prefix_weight;
            assert(above == weight_above(done, to as int));
            let w = weight as int;
            assert(-bw <= above <= bw);
            assert(inversion_term(vals, t as int) == w * above);
            assert(i64::MIN <= w * above <= i64::MAX);
            assert(inversion_weight(next) == inversion_weight(done) + w * above);
            assert(i64::MIN <= inversions + w * above <= i64::MAX);
        }
        inversions = inversions + weight * (seen - prefix_weight);
        let ghost before = fenwick@;
        proof {
            assert forall|k: int| 0 <= k < before.len() && covers(k, idx as int) implies i64::MIN <= #[trigger] before[k]
                + weight <= i64::MAX by {
                lemma_lowbit_basic(k as u64);
                lemma_weight_split(done, k - 1);
                lemma_weight_split(done, k - lb(k) - 1);
            }
        }
        fenwick_add_i64(fenwick.as_mut_slice(), idx, weight);
        proof {
            law_fenwick_add_is_point_update(before, fenwick@, a, idx as int, weight as int);
            let a2 = bumped(a, idx as int, weight as int);
            assert forall|j: int| 0 <= j < len implies #[trigger] prefix(a2, j) == weight_at_most(next, j - 1) by {
                lemma_prefix_bumped(a, idx as int, weight as int, j);
            }
            a = a2;
        }
        seen = seen + weight;
        t += 1;
    }
    proof {
        assert(vals.subrange(0, vals.len() as int) == vals);
    }
    inversions
}

proof fn lemma_prefix_zero(a: Seq<int>, j: int)
    requires
        forall|i: int| 0 <= i < a.len() ==> a[i] == 0,
        j < a.len(),
    ensures
        prefix(a, j) == 0,
    decreases j,
{
    if j > 0 {
        lemma_prefix_zero(a, j - 1);
    }
}

proof fn lemma_abs_weight_prefix(vals: Seq<(usize, usize, i64)>, t: int)
    requires
        0 <= t <= vals.len(),
    ensures
        abs_weight(vals.subrange(0, t)) <= abs_weight(vals),
        abs_weight(vals.subrange(0, t)) >= 0,
    decreases vals.len() - t,
{
    lemma_weight_split(vals.subrange(0, t), 0);
    if t < vals.len() {
        lemma_abs_weight_prefix(vals, t + 1);
        assert(vals.subrange(0, t + 1).drop_last() == vals.subrange(0, t));
    } else {
        assert(vals.subrange(0, t) == vals);
        lemma_weight_split(vals, 0);
    }
}


/// What a layer node stands for: an input node, a dummy at some step along
/// a long edge, or the virtual node that carries a flat edge's label.
#[derive(Debug, Clone, Copy, PartialEq, Eq, Structural)]
pub enum LayerNodeKind {
    Real,
    Dummy { edge_index: usize, step: usize },
    FlatVirtual { edge_index: usize },
}

/// A node of the layered graph as crossing counting and ordering read it:
/// its rank, its position within the rank, the input node it stands for
/// (none for a dummy), the clusters it lies in, outermost first, and what
/// it stands for.
#[derive(Debug, Clone)]
pub struct LayerNode {
    pub rank: usize,
    pub order: usize,
    pub real_node: Option<usize>,
    pub cluster_path: Vec<usize>,
    pub kind: LayerNodeKind,
}

/// The segment joins a node on `rank` to a node on the next rank.
pub open spec fn spans_pair(rank: int, nodes: Seq<LayerNode>, s: SegmentEdge) -> bool {
    !s.flat && nodes[s.from as int].rank == rank && nodes[s.to as int].rank == rank + 1
}

/// The crossing items of the segments between `rank` and the next rank, in
/// segment order: source position, target position, weight.
pub open spec fn pair_items(rank: int, nodes: Seq<LayerNode>, segments: Seq<SegmentEdge>) -> Seq<(usize, usize, i64)>
    decreases segments.len(),
{
    if segments.len() == 0 {
        Seq::empty()
    } else {
        let rest = pair_items(rank, nodes, segments.drop_last());
        let s = segments.last();
        if spans_pair(rank, nodes, s) {
            rest.push((nodes[s.from as int].order, nodes[s.to as int].order, mincross_weight_spec(s) as i64))
        } else {
            rest
        }
    }
}

/// Item `a` sorts no later than item `b`: by source, then target position.
pub open spec fn item_le(a: (usize, usize, i64), b: (usize, usize, i64)) -> bool {
    a.0 < b.0 || (a.0 == b.0 && a.1 <= b.1)
}

/// `s` with `x` inserted after every item that sorts no later than it.
pub open spec fn insert_item(s: Seq<(usize, usize, i64)>, x: (usize, usize, i64)) -> Seq<(usize, usize, i64)>
    decreases s.len(),
{
    if s.len() == 0 {
        seq![x]
    } else if item_le(s.last(), x) {
        s.push(x)
    } else {
        insert_item(s.drop_last(), x).push(s.last())
    }
}

/// The items sorted by source, then target position, keeping their order
/// otherwise.
pub open spec fn sort_items(s: Seq<(usize, usize, i64)>) -> Seq<(usize, usize, i64)>
    decreases s.len(),
{
    if s.len() == 0 {
        s
    } else {
        insert_item(sort_items(s.drop_last()), s.last())
    }
}

/// The weighted crossings between `rank` and the next rank.
pub open spec fn pair_crossing_weight(rank: int, nodes: Seq<LayerNode>, segments: Seq<SegmentEdge>) -> int {
    let items = pair_items(rank, nodes, segments);
    if items.len() <= 1 {
        0
    } else {
        inversion_weight(sort_items(items))
    }
}

/// The segments name existing nodes and their weights are small.
pub open spec fn segments_fit(nodes: Seq<LayerNode>, segments: Seq<SegmentEdge>) -> bool {
    forall|i: int|
        0 <= i < segments.len() && !(#[trigger] segments[i]).flat ==> segments[i].from < nodes.len()
            && segments[i].to < nodes.len() && segments[i].cluster_crossings * 2 <= i32::MAX
            && segments[i].weight + segments[i].cluster_crossings * 2 + 2 <= i32::MAX
}

proof fn lemma_insert_item(s: Seq<(usize, usize, i64)>, x: (usize, usize, i64))
    ensures
        insert_item(s, x).len() == s.len() + 1,
        abs_weight(insert_item(s, x)) == abs_weight(s) + (if x.2 < 0 {
            -x.2
        } else {
            x.2 as int
        }),
        forall|i: int| 0 <= i < insert_item(s, x).len() ==> #[trigger] insert_item(s, x)[i] == x || s.contains(insert_item(s, x)[i]),
    decreases s.len(),
{
    if s.len() > 0 && !item_le(s.last(), x) {
        lemma_insert_item(s.drop_last(), x);
        let r = insert_item(s.drop_last(), x);
        assert(insert_item(s, x).drop_last() == r);
        assert(insert_item(s, x).last() == s.last());
        assert(abs_weight(insert_item(s, x)) == abs_weight(r) + (if s.last().2 < 0 {
            -s.last().2
        } else {
            s.last().2 as int
        }));
        assert forall|i: int| 0 <= i < insert_item(s, x).len() implies #[trigger] insert_item(s, x)[i] == x || s.contains(insert_item(s, x)[i]) by {
            if i < r.len() {
                assert(insert_item(s, x)[i] == r[i]);
                if r[i] != x {
                    let j = choose|j: int| 0 <= j < s.drop_last().len() && s.drop_last()[j] == r[i];
                    assert(s[j] == r[i]);
                }
            } else {
                assert(s[s.len() - 1] == s.last());
            }
        }
    } else if s.len() > 0 {
        assert(insert_item(s, x).drop_last() == s);
        assert(insert_item(s, x).last() == x);
        assert forall|i: int| 0 <= i < insert_item(s, x).len() implies #[trigger] insert_item(s, x)[i] == x || s.contains(insert_item(s, x)[i]) by {
            if i < s.len() {
                assert(insert_item(s, x)[i] == s[i]);
            }
        }
    } else {
        assert(insert_item(s, x).drop_last() =~= s);
        assert(insert_item(s, x).last() == x);
    }
}

proof fn lemma_sort_items(s: Seq<(usize, usize, i64)>)
    ensures
        sort_items(s).len() == s.len(),
        abs_weight(sort_items(s)) == abs_weight(s),
        forall|i: int| 0 <= i < sort_items(s).len() ==> s.contains(#[trigger] sort_items(s)[i]),
    decreases s.len(),
{
    if s.len() > 0 {
        lemma_sort_items(s.drop_last());
        let t = sort_items(s.drop_last());
        lemma_insert_item(t, s.last());
        assert forall|i: int| 0 <= i < sort_items(s).len() implies s.contains(#[trigger] sort_items(s)[i]) by {
            let y = sort_items(s)[i];
            if y == s.last() {
                assert(s[s.len() - 1] == y);
            } else {
                let j = choose|j: int| 0 <= j < t.len() && t[j] == y;
                assert(s.drop_last().contains(t[j]));
                let k = choose|k: int| 0 <= k < s.drop_last().len() && s.drop_last()[k] == y;
                assert(s[k] == y);
            }
        }
    }
}

/// `s` with `x` inserted after every item that sorts no later than it.
fn insert_sorted(s: &mut Vec<(usize, usize, i64)>, x: (usize, usize, i64))
    ensures
        final(s)@ == insert_item(old(s)@, x),
{
    let ghost start = s@;
    let mut pos: usize = s.len();
    assert(start.subrange(0, pos as int) =~= start);
    assert(insert_item(start, x) + start.subrange(pos as int, start.len() as int) =~= insert_item(start, x));
    while pos > 0 && !(s[pos - 1].0 < x.0 || (s[pos - 1].0 == x.0 && s[pos - 1].1 <= x.1))
        invariant
            pos <= s@.len(),
            s@ == start,
            insert_item(start, x) == insert_item(start.subrange(0, pos as int), x) + start.subrange(pos as int, start.len() as int),
        decreases pos,
    {
        proof {
            let p = pos as int;
            let pre = start.subrange(0, p);
            assert(pre.drop_last() =~= start.subrange(0, p - 1));
            assert(pre.last() == start[p - 1]);
            assert(insert_item(pre, x) == insert_item(start.subrange(0, p - 1), x).push(start[p - 1]));
            assert(insert_item(start.subrange(0, p - 1), x).push(start[p - 1]) + start.subrange(p, start.len() as int)
                =~= insert_item(start.subrange(0, p - 1), x) + start.subrange(p - 1, start.len() as int));
        }
        pos -= 1;
    }
    proof {
        let p = pos as int;
        let pre = start.subrange(0, p);
        if p > 0 {
            assert(pre.last() == start[p - 1]);
            assert(insert_item(pre, x) == pre.push(x));
        } else {
            assert(insert_item(pre, x) == seq![x]);
        }
    }
    s.insert(pos, x);
    proof {
        let p = pos as int;
        assert(s@ =~= start.subrange(0, p).push(x) + start.subrange(p, start.len() as int));
    }
}

/// Weighted crossings between the segments that join `rank` to the next
/// rank: each segment becomes (source position, target position, weight),
/// the items are sorted by positions, and their weighted inversions are
/// counted. Flat segments and fewer than two segments count nothing.
pub fn pair_crossings(rank: usize, nodes: &[LayerNode], segments: &[SegmentEdge]) -> (crossings: i64)
    requires
        rank < usize::MAX,
        segments_fit(nodes@, segments@),
        inversion_fits(sort_items(pair_items(rank as int, nodes@, segments@))),
        forall|i: int| 0 <= i < nodes@.len() ==> (#[trigger] nodes@[i]).order + 4 <= usize::MAX / 2,
    ensures
        crossings == pair_crossing_weight(rank as int, nodes@, segments@),
{
    let mut pairs: Vec<(usize, usize, i64)> = Vec::new();
    let mut max_target_order: usize = 0;
    let mut i: usize = 0;
    while i < segments.len()
        invariant
            i <= segments@.len(),
            rank < usize::MAX,
            segments_fit(nodes@, segments@),
            forall|j: int| 0 <= j < nodes@.len() ==> (#[trigger] nodes@[j]).order + 4 <= usize::MAX / 2,
            pairs@ == pair_items(rank as int, nodes@, segments@.subrange(0, i as int)),
            forall|j: int| 0 <= j < pairs@.len() ==> (#[trigger] pairs@[j]).1 <= max_target_order,
            max_target_order + 4 <= usize::MAX / 2,
        decreases segments.len() - i,
    {
        let edge = &segments[i];
        proof {
            assert(segments@.subrange(0, i + 1).drop_last() =~= segments@.subrange(0, i as int));
            assert(segments@.subrange(0, i + 1).last() == segments@[i as int]);
        }
        if !edge.flat {
            let from = &nodes[edge.from];
            let to = &nodes[edge.to];
            if from.rank == rank && to.rank == rank + 1 {
                let w = segment_mincross_weight(edge);
                if to.order > max_target_order {
                    max_target_order = to.order;
                }
                pairs.push((from.order, to.order, w as i64));
            }
        }
        i += 1;
    }
    proof {
        assert(segments@.subrange(0, segments@.len() as int) =~= segments@);
    }
    if pairs.len() <= 1 {
        return 0;
    }
    let ghost items = pairs@;
    let mut sorted: Vec<(usize, usize, i64)> = Vec::new();
    let mut k: usize = 0;
    while k < pairs.len()
        invariant
            k <= items.len(),
            items == pairs@,
            sorted@ == sort_items(items.subrange(0, k as int)),
        decreases pairs.len() - k,
    {
        proof {
            assert(items.subrange(0, k + 1).drop_last() =~= items.subrange(0, k as int));
            assert(items.subrange(0, k + 1).last() == items[k as int]);
        }
        insert_sorted(&mut sorted, pairs[k]);
        k += 1;
    }
    proof {
        assert(items.subrange(0, items.len() as int) =~= items);
        lemma_sort_items(items);
        assert forall|t: int| 0 <= t < sorted@.len() implies (#[trigger] sorted@[t]).1 <= max_target_order + 2 by {
            assert(items.contains(sorted@[t]));
        }
    }
    weighted_inversion_count(sorted.as_slice(), max_target_order + 2)
}


/// The weighted crossings summed over the rank pairs `(0, 1)` up to
/// `(k - 1, k)`.
pub open spec fn crossing_sum(k: int, nodes: Seq<LayerNode>, segments: Seq<SegmentEdge>) -> int
    decreases k,
{
    if k <= 0 {
        0
    } else {
        crossing_sum(k - 1, nodes, segments) + pair_crossing_weight(k - 1, nodes, segments)
    }
}

/// Weighted crossings of the whole layering: the sum of `pair_crossings`
/// over every pair of adjacent ranks (zero with at most one rank).
pub fn total_crossings(layers: &[Vec<usize>], nodes: &[LayerNode], segments: &[SegmentEdge]) -> (total: i64)
    requires
        segments_fit(nodes@, segments@),
        forall|i: int| 0 <= i < nodes@.len() ==> (#[trigger] nodes@[i]).order + 4 <= usize::MAX / 2,
        forall|r: int| 0 <= r < layers@.len() - 1 ==> inversion_fits(sort_items(#[trigger] pair_items(r, nodes@, segments@))),
        forall|k: int| 0 <= k < layers@.len() ==> i64::MIN <= #[trigger] crossing_sum(k, nodes@, segments@) <= i64::MAX,
    ensures
        layers@.len() <= 1 ==> total == 0,
        layers@.len() > 1 ==> total == crossing_sum(layers@.len() - 1, nodes@, segments@),
{
    if layers.len() <= 1 {
        return 0;
    }
    let last = layers.len() - 1;
    let mut total: i64 = 0;
    let mut rank: usize = 0;
    while rank < last
        invariant
            rank <= last,
            last == layers@.len() - 1,
            segments_fit(nodes@, segments@),
            forall|i: int| 0 <= i < nodes@.len() ==> (#[trigger] nodes@[i]).order + 4 <= usize::MAX / 2,
            forall|r: int| 0 <= r < layers@.len() - 1 ==> inversion_fits(sort_items(#[trigger] pair_items(r, nodes@, segments@))),
            forall|k: int| 0 <= k < layers@.len() ==> i64::MIN <= #[trigger] crossing_sum(k, nodes@, segments@) <= i64::MAX,
            total == crossing_sum(rank as int, nodes@, segments@),
        decreases last - rank,
    {
        let c = pair_crossings(rank, nodes, segments);
        proof {
            assert(crossing_sum(rank + 1, nodes@, segments@) == crossing_sum(rank as int, nodes@, segments@) + c);
        }
        total = total + c;
        rank += 1;
    }
    total
}

/// Two segments between the same pair of ranks cross: their source
/// positions and their target positions come in opposite orders.
pub open spec fn items_cross(a: (usize, usize, i64), b: (usize, usize, i64)) -> bool {
    (a.0 < b.0 && a.1 > b.1) || (b.0 < a.0 && b.1 > a.1)
}

/// The product of the weights of two crossing segments; zero when they do
/// not cross.
pub open spec fn cross_weight(a: (usize, usize, i64), b: (usize, usize, i64)) -> int {
    if items_cross(a, b) {
        a.2 * b.2
    } else {
        0
    }
}

/// Total crossing weight between `x` and the segments of `s`.
pub open spec fn cross_with(s: Seq<(usize, usize, i64)>, x: (usize, usize, i64)) -> int
    decreases s.len(),
{
    if s.len() == 0 {
        0
    } else {
        cross_with(s.drop_last(), x) + cross_weight(s.last(), x)
    }
}

/// Total crossing weight over all pairs of segments of `s`.
pub open spec fn crossing_pairs(s: Seq<(usize, usize, i64)>) -> int
    decreases s.len(),
{
    if s.len() == 0 {
        0
    } else {
        crossing_pairs(s.drop_last()) + cross_with(s.drop_last(), s.last())
    }
}

/// Every item sorts no later than every item after it.
pub open spec fn items_sorted(s: Seq<(usize, usize, i64)>) -> bool {
    forall|i: int, j: int| 0 <= i < j < s.len() ==> item_le(s[i], s[j])
}

proof fn lemma_cross_weight_symmetric(a: (usize, usize, i64), b: (usize, usize, i64))
    ensures
        cross_weight(a, b) == cross_weight(b, a),
{
    assert(a.2 * b.2 == b.2 * a.2) by (nonlinear_arith);
}

proof fn lemma_cross_with_insert(t: Seq<(usize, usize, i64)>, y: (usize, usize, i64), x: (usize, usize, i64))
    ensures
        cross_with(insert_item(t, y), x) == cross_with(t, x) + cross_weight(y, x),
    decreases t.len(),
{
    if t.len() == 0 {
        assert(insert_item(t, y).drop_last() =~= t);
    } else if item_le(t.last(), y) {
        assert(insert_item(t, y).drop_last() == t);
    } else {
        lemma_cross_with_insert(t.drop_last(), y, x);
        assert(insert_item(t, y).drop_last() == insert_item(t.drop_last(), y));
    }
}

proof fn lemma_cross_with_sorted(s: Seq<(usize, usize, i64)>, x: (usize, usize, i64))
    ensures
        cross_with(sort_items(s), x) == cross_with(s, x),
    decreases s.len(),
{
    if s.len() > 0 {
        lemma_cross_with_sorted(s.drop_last(), x);
        lemma_cross_with_insert(sort_items(s.drop_last()), s.last(), x);
    }
}

proof fn lemma_crossing_pairs_insert(t: Seq<(usize, usize, i64)>, y: (usize, usize, i64))
    ensures
        crossing_pairs(insert_item(t, y)) == crossing_pairs(t) + cross_with(t, y),
    decreases t.len(),
{
    if t.len() == 0 {
        assert(insert_item(t, y).drop_last() =~= t);
    } else if item_le(t.last(), y) {
        assert(insert_item(t, y).drop_last() == t);
    } else {
        let z = t.last();
        let r = insert_item(t.drop_last(), y);
        lemma_crossing_pairs_insert(t.drop_last(), y);
        lemma_cross_with_insert(t.drop_last(), y, z);
        lemma_cross_weight_symmetric(y, z);
        assert(insert_item(t, y).drop_last() == r);
        assert(insert_item(t, y).last() == z);
    }
}

/// Law: the crossing weight of a set of segments does not depend on the
/// order in which they are listed; in particular sorting keeps it.
pub proof fn law_crossing_pairs_ignore_order(s: Seq<(usize, usize, i64)>)
    ensures
        crossing_pairs(sort_items(s)) == crossing_pairs(s),
    decreases s.len(),
{
    if s.len() > 0 {
        law_crossing_pairs_ignore_order(s.drop_last());
        lemma_crossing_pairs_insert(sort_items(s.drop_last()), s.last());
        lemma_cross_with_sorted(s.drop_last(), s.last());
    }
}

proof fn lemma_insert_item_sorted(t: Seq<(usize, usize, i64)>, x: (usize, usize, i64))
    requires
        items_sorted(t),
    ensures
        items_sorted(insert_item(t, x)),
    decreases t.len(),
{
    lemma_insert_item(t, x);
    if t.len() == 0 {
    } else if item_le(t.last(), x) {
        let r = insert_item(t, x);
        assert(r == t.push(x));
        assert forall|i: int, j: int| 0 <= i < j < r.len() implies item_le(r[i], r[j]) by {
            if j == t.len() {
                if i < t.len() - 1 {
                    assert(item_le(t[i], t[t.len() - 1]));
                }
            }
        }
    } else {
        let tp = t.drop_last();
        assert forall|i: int, j: int| 0 <= i < j < tp.len() implies item_le(tp[i], tp[j]) by {
            assert(item_le(t[i], t[j]));
        }
        lemma_insert_item_sorted(tp, x);
        lemma_insert_item(tp, x);
        let r = insert_item(tp, x);
        let z = t.last();
        assert(insert_item(t, x) == r.push(z));
        assert forall|i: int, j: int| 0 <= i < j < r.len() + 1 implies item_le(r.push(z)[i], r.push(z)[j]) by {
            if j == r.len() {
                assert(r.push(z)[i] == r[i]);
                if r[i] != x {
                    let k = choose|k: int| 0 <= k < tp.len() && tp[k] == r[i];
                    assert(item_le(t[k], t[t.len() - 1]));
                }
            } else {
                assert(r.push(z)[i] == r[i]);
                assert(r.push(z)[j] == r[j]);
            }
        }
    }
}

proof fn lemma_sort_items_sorted(s: Seq<(usize, usize, i64)>)
    ensures
        items_sorted(sort_items(s)),
    decreases s.len(),
{
    if s.len() > 0 {
        lemma_sort_items_sorted(s.drop_last());
        lemma_insert_item_sorted(sort_items(s.drop_last()), s.last());
    }
}

/// Against a later item of a sorted list, an earlier item crosses exactly
/// when its target is above.
proof fn lemma_cross_with_sorted_last(v: Seq<(usize, usize, i64)>, z: (usize, usize, i64))
    requires
        forall|i: int| 0 <= i < v.len() ==> item_le(#[trigger] v[i], z),
    ensures
        cross_with(v, z) == z.2 * weight_above(v, z.1 as int),
    decreases v.len(),
{
    if v.len() > 0 {
        let vp = v.drop_last();
        assert forall|i: int| 0 <= i < vp.len() implies item_le(#[trigger] vp[i], z) by {
            assert(item_le(v[i], z));
        }
        lemma_cross_with_sorted_last(vp, z);
        let y = v.last();
        assert(item_le(v[v.len() - 1], z));
        let t: int = if y.1 > z.1 {
            y.2 as int
        } else {
            0
        };
        assert(cross_weight(y, z) == z.2 * t) by {
            assert(y.2 * z.2 == z.2 * y.2) by (nonlinear_arith);
        }
        let wa = weight_above(vp, z.1 as int);
        assert(z.2 * (wa + t) == z.2 * wa + z.2 * t) by (nonlinear_arith);
    }
}

/// A sorted list's weighted inversions are its crossing pairs.
proof fn lemma_sorted_inversions(v: Seq<(usize, usize, i64)>)
    requires
        items_sorted(v),
    ensures
        inversion_weight(v) == crossing_pairs(v),
    decreases v.len(),
{
    if v.len() > 0 {
        let vp = v.drop_last();
        assert forall|i: int, j: int| 0 <= i < j < vp.len() implies item_le(vp[i], vp[j]) by {
            assert(item_le(v[i], v[j]));
        }
        lemma_sorted_inversions(vp);
        assert forall|i: int| 0 <= i < vp.len() implies item_le(#[trigger] vp[i], v.last()) by {
            assert(item_le(v[i], v[v.len() - 1]));
        }
        lemma_cross_with_sorted_last(vp, v.last());
    }
}

/// Law: the weighted crossings between a rank and the next are the crossing
/// pairs of the segments between them: every two segments whose ends come
/// in opposite orders count the product of their weights.
pub proof fn law_pair_crossings_count_crossing_pairs(rank: int, nodes: Seq<LayerNode>, segments: Seq<SegmentEdge>)
    ensures
        pair_crossing_weight(rank, nodes, segments) == crossing_pairs(pair_items(rank, nodes, segments)),
{
    let items = pair_items(rank, nodes, segments);
    if items.len() <= 1 {
        if items.len() == 1 {
            let e = items.drop_last();
            assert(e =~= Seq::<(usize, usize, i64)>::empty());
            assert(crossing_pairs(e) == 0);
            assert(cross_with(e, items.last()) == 0);
        }
        assert(crossing_pairs(items) == 0);
    } else {
        lemma_sort_items_sorted(items);
        lemma_sorted_inversions(sort_items(items));
        law_crossing_pairs_ignore_order(items);
        assert(pair_crossing_weight(rank, nodes, segments) == inversion_weight(sort_items(items)));
    }
}

} // verus!
