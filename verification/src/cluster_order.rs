//! Ordering the nodes of one rank by cluster: keeping the members of a
//! cluster together, ordering sibling clusters, and finding the direct child
//! cluster below a parent for a node.
use vstd::prelude::*;

verus! {

/// The list never decreases.
pub open spec fn nondecreasing(s: Seq<usize>) -> bool {
    forall|i: int, j: int| 0 <= i <= j < s.len() ==> s[i] <= s[j]
}

/// Every node's cluster list is sorted, as binary search needs.
pub open spec fn memberships_sorted(memberships: Seq<Vec<usize>>) -> bool {
    forall|v: int| 0 <= v < memberships.len() ==> nondecreasing(#[trigger] memberships[v]@)
}

/// `node` has a membership list and it names `cluster`.
pub open spec fn is_member(memberships: Seq<Vec<usize>>, node: usize, cluster: usize) -> bool {
    node < memberships.len() && memberships[node as int]@.contains(cluster)
}

/// Membership in `cluster`, as a predicate on nodes.
pub open spec fn member_of(memberships: Seq<Vec<usize>>, cluster: usize) -> spec_fn(usize) -> bool {
    |v: usize| is_member(memberships, v, cluster)
}

/// Non-membership in `cluster`, as a predicate on nodes.
pub open spec fn outside_of(memberships: Seq<Vec<usize>>, cluster: usize) -> spec_fn(usize) -> bool {
    |v: usize| !is_member(memberships, v, cluster)
}

/// How many nodes at the front of `s` are not members of `cluster`.
pub open spec fn leading_outside(s: Seq<usize>, memberships: Seq<Vec<usize>>, cluster: usize) -> int
    decreases s.len(),
{
    if s.len() == 0 {
        0
    } else if is_member(memberships, s[0], cluster) {
        0
    } else {
        1 + leading_outside(s.drop_first(), memberships, cluster)
    }
}

/// The rank with the members of `cluster` gathered into one block, in their
/// order, placed where the first member stood; the other nodes keep their
/// order around it. Unchanged when at most one node is a member.
pub open spec fn contiguous_order(rank: Seq<usize>, memberships: Seq<Vec<usize>>, cluster: usize) -> Seq<usize> {
    let members = rank.filter(member_of(memberships, cluster));
    let others = rank.filter(outside_of(memberships, cluster));
    let at = leading_outside(rank, memberships, cluster);
    if members.len() <= 1 {
        rank
    } else {
        others.subrange(0, at) + members + others.subrange(at, others.len() as int)
    }
}

/// Whether a sorted list holds `x`, by binary search.
fn sorted_contains(list: &Vec<usize>, x: usize) -> (r: bool)
    requires
        nondecreasing(list@),
    ensures
        r == list@.contains(x),
{
    let mut lo: usize = 0;
    let mut hi: usize = list.len();
    while lo < hi
        invariant
            lo <= hi <= list@.len(),
            nondecreasing(list@),
            forall|i: int| 0 <= i < lo ==> list@[i] < x,
            forall|i: int| hi <= i < list@.len() ==> list@[i] > x,
        decreases hi - lo,
    {
        let mid = lo + (hi - lo) / 2;
        if list[mid] == x {
            return true;
        } else if list[mid] < x {
            lo = mid + 1;
        } else {
            hi = mid;
        }
    }
    proof {
        if list@.contains(x) {
            let i = choose|i: int| 0 <= i < list@.len() && list@[i] == x;
        }
    }
    false
}

/// Whether `node` is a member of `cluster`.
fn member(memberships: &[Vec<usize>], node: usize, cluster: usize) -> (r: bool)
    requires
        memberships_sorted(memberships@),
    ensures
        r == is_member(memberships@, node, cluster),
{
    if node < memberships.len() {
        sorted_contains(&memberships[node], cluster)
    } else {
        false
    }
}

proof fn lemma_leading_outside(s: Seq<usize>, memberships: Seq<Vec<usize>>, cluster: usize, p: int)
    requires
        0 <= p < s.len(),
        is_member(memberships, s[p], cluster),
        forall|i: int| 0 <= i < p ==> !is_member(memberships, #[trigger] s[i], cluster),
    ensures
        leading_outside(s, memberships, cluster) == p,
    decreases p,
{
    if p > 0 {
        lemma_leading_outside(s.drop_first(), memberships, cluster, p - 1);
    }
}

proof fn lemma_filter_step(s: Seq<usize>, pred: spec_fn(usize) -> bool, i: int)
    requires
        0 <= i < s.len(),
    ensures
        s.subrange(0, i + 1).filter(pred) == (if pred(s[i]) {
            s.subrange(0, i).filter(pred).push(s[i])
        } else {
            s.subrange(0, i).filter(pred)
        }),
{
    reveal(Seq::filter);
    assert(s.subrange(0, i + 1).drop_last() =~= s.subrange(0, i));
}

/// Gathers the members of `cluster` in `rank_nodes` into one block, placed
/// where the first member stood, keeping the order of the members and of
/// the other nodes. Nodes without a membership list are not members.
pub fn enforce_cluster_contiguity(
    rank_nodes: &mut Vec<usize>,
    node_cluster_memberships: &[Vec<usize>],
    cluster_index: usize,
)
    requires
        memberships_sorted(node_cluster_memberships@),
    ensures
        final(rank_nodes)@ == contiguous_order(old(rank_nodes)@, node_cluster_memberships@, cluster_index),
{
    let ghost rank = rank_nodes@;
    let ghost mem = node_cluster_memberships@;
    let ghost inside = member_of(mem, cluster_index);
    let ghost outside = outside_of(mem, cluster_index);
    let mut members: Vec<usize> = Vec::new();
    let mut others: Vec<usize> = Vec::new();
    let mut first: usize = 0;
    let mut i: usize = 0;
    while i < rank_nodes.len()
        invariant
            i <= rank.len(),
            rank == rank_nodes@,
            mem == node_cluster_memberships@,
            memberships_sorted(mem),
            inside == member_of(mem, cluster_index),
            outside == outside_of(mem, cluster_index),
            members@ == rank.subrange(0, i as int).filter(inside),
            others@ == rank.subrange(0, i as int).filter(outside),
            members@.len() == 0 ==> forall|j: int| 0 <= j < i ==> !is_member(mem, #[trigger] rank[j], cluster_index),
            members@.len() > 0 ==> first < i && is_member(mem, rank[first as int], cluster_index) && forall|j: int|
                0 <= j < first ==> !is_member(mem, #[trigger] rank[j], cluster_index),
        decreases rank_nodes.len() - i,
    {
        let v = rank_nodes[i];
        proof {
            lemma_filter_step(rank, inside, i as int);
            lemma_filter_step(rank, outside, i as int);
        }
        if member(node_cluster_memberships, v, cluster_index) {
            if members.len() == 0 {
                first = i;
            }
            members.push(v);
        } else {
            others.push(v);
        }
        i += 1;
    }
    proof {
        assert(rank.subrange(0, rank.len() as int) =~= rank);
    }
    if members.len() <= 1 {
        return;
    }
    proof {
        lemma_leading_outside(rank, mem, cluster_index, first as int);
        assert(rank.subrange(0, first as int).filter(outside) =~= rank.subrange(0, first as int)) by {
            lemma_filter_all(rank.subrange(0, first as int), outside);
        }
        lemma_filter_prefix_len(rank, outside, first as int);
    }
    let at = if first < others.len() {
        first
    } else {
        others.len()
    };
    let mut merged: Vec<usize> = Vec::new();
    let mut k: usize = 0;
    while k < at
        invariant
            k <= at <= others@.len(),
            merged@ == others@.subrange(0, k as int),
        decreases at - k,
    {
        merged.push(others[k]);
        k += 1;
    }
    let mut k: usize = 0;
    while k < members.len()
        invariant
            k <= members@.len(),
            at <= others@.len(),
            merged@ == others@.subrange(0, at as int) + members@.subrange(0, k as int),
        decreases members.len() - k,
    {
        merged.push(members[k]);
        k += 1;
    }
    let mut k: usize = at;
    while k < others.len()
        invariant
            at <= k <= others@.len(),
            merged@ == others@.subrange(0, at as int) + members@ + others@.subrange(at as int, k as int),
        decreases others.len() - k,
    {
        merged.push(others[k]);
        k += 1;
    }
    proof {
        assert(members@.subrange(0, members@.len() as int) =~= members@);
        assert(merged@ =~= contiguous_order(rank, mem, cluster_index));
    }
    *rank_nodes = merged;
}

proof fn lemma_filter_all(s: Seq<usize>, pred: spec_fn(usize) -> bool)
    requires
        forall|i: int| 0 <= i < s.len() ==> pred(#[trigger] s[i]),
    ensures
        s.filter(pred) == s,
    decreases s.len(),
{
    reveal(Seq::filter);
    if s.len() > 0 {
        lemma_filter_all(s.drop_last(), pred);
        assert(s.drop_last().push(s.last()) =~= s);
    }
}

/// Filtering a sequence whose first `p` entries pass keeps at least `p`
/// entries.
proof fn lemma_filter_prefix_len(s: Seq<usize>, pred: spec_fn(usize) -> bool, p: int)
    requires
        0 <= p <= s.len(),
        s.subrange(0, p).filter(pred) == s.subrange(0, p),
    ensures
        s.filter(pred).len() >= p,
{
    lemma_filter_len_mono(s, pred, p);
}

/// Filtering a longer prefix never keeps fewer entries.
proof fn lemma_filter_len_mono(s: Seq<usize>, pred: spec_fn(usize) -> bool, p: int)
    requires
        0 <= p <= s.len(),
    ensures
        s.subrange(0, p).filter(pred).len() <= s.filter(pred).len(),
    decreases s.len() - p,
{
    if p < s.len() {
        lemma_filter_step(s, pred, p);
        lemma_filter_len_mono(s, pred, p + 1);
    } else {
        assert(s.subrange(0, p) =~= s);
    }
}


/// The last position of `cluster` in `group`, or -1 when it is absent.
pub open spec fn sibling_pos(group: Seq<usize>, cluster: usize) -> int
    decreases group.len(),
{
    if group.len() == 0 {
        -1
    } else if group.last() == cluster {
        group.len() - 1
    } else {
        sibling_pos(group.drop_last(), cluster)
    }
}

/// The sibling position of the first cluster in `list` that belongs to
/// `group`, or -1 when none does.
pub open spec fn first_sibling_key(list: Seq<usize>, group: Seq<usize>) -> int
    decreases list.len(),
{
    if list.len() == 0 {
        -1
    } else if sibling_pos(group, list[0]) >= 0 {
        sibling_pos(group, list[0])
    } else {
        first_sibling_key(list.drop_first(), group)
    }
}

/// The sibling position that orders `node`, or -1 when none of its
/// clusters is a sibling.
pub open spec fn sibling_key(memberships: Seq<Vec<usize>>, group: Seq<usize>, node: usize) -> int {
    if node < memberships.len() {
        first_sibling_key(memberships[node as int]@, group)
    } else {
        -1
    }
}

/// `node` belongs to one of the sibling clusters.
pub open spec fn in_siblings(memberships: Seq<Vec<usize>>, group: Seq<usize>) -> spec_fn(usize) -> bool {
    |v: usize| sibling_key(memberships, group, v) >= 0
}

/// `node` is ordered by sibling position `k`.
pub open spec fn keyed(memberships: Seq<Vec<usize>>, group: Seq<usize>, k: int) -> spec_fn(usize) -> bool {
    |v: usize| sibling_key(memberships, group, v) == k
}

/// The nodes of `nodes` with keys below `k`, grouped by key in increasing
/// order, keeping their order within a key.
pub open spec fn by_key_below(nodes: Seq<usize>, memberships: Seq<Vec<usize>>, group: Seq<usize>, k: int) -> Seq<usize>
    decreases k,
{
    if k <= 0 {
        Seq::empty()
    } else {
        by_key_below(nodes, memberships, group, k - 1) + nodes.filter(keyed(memberships, group, k - 1))
    }
}

/// The rank with the nodes of the sibling clusters reordered among their
/// own slots by sibling position (stable within a cluster); other nodes
/// keep their slots. Unchanged with fewer than two siblings or fewer than
/// two such nodes.
pub open spec fn sibling_order(rank: Seq<usize>, memberships: Seq<Vec<usize>>, group: Seq<usize>) -> Seq<usize> {
    let grouped = rank.filter(in_siblings(memberships, group));
    let ordered = by_key_below(grouped, memberships, group, group.len() as int);
    if group.len() < 2 || grouped.len() < 2 {
        rank
    } else {
        Seq::new(
            rank.len(),
            |j: int|
                if in_siblings(memberships, group)(rank[j]) {
                    ordered[rank.subrange(0, j).filter(in_siblings(memberships, group)).len() as int]
                } else {
                    rank[j]
                },
        )
    }
}

/// The last position of `cluster` in `group`, or -1.
fn find_sibling_pos(group: &[usize], cluster: usize) -> (r: i64)
    requires
        group@.len() < 0x8000_0000_0000_0000,
    ensures
        r == sibling_pos(group@, cluster),
{
    let mut k: usize = group.len();
    assert(group@.subrange(0, k as int) =~= group@);
    while k > 0
        invariant
            k <= group@.len(),
            group@.len() < 0x8000_0000_0000_0000,
            sibling_pos(group@, cluster) == sibling_pos(group@.subrange(0, k as int), cluster),
        decreases k,
    {
        proof {
            assert(group@.subrange(0, k as int).drop_last() =~= group@.subrange(0, k - 1));
        }
        if group[k - 1] == cluster {
            return (k - 1) as i64;
        }
        k -= 1;
    }
    -1
}

/// The sibling key of `node`.
fn find_sibling_key(memberships: &[Vec<usize>], group: &[usize], node: usize) -> (r: i64)
    requires
        group@.len() < 0x8000_0000_0000_0000,
    ensures
        r == sibling_key(memberships@, group@, node),
{
    if node >= memberships.len() {
        return -1;
    }
    let list = &memberships[node];
    let mut i: usize = 0;
    assert(list@.subrange(0, list@.len() as int) =~= list@);
    while i < list.len()
        invariant
            i <= list@.len(),
            node < memberships@.len(),
            list@ == memberships@[node as int]@,
            group@.len() < 0x8000_0000_0000_0000,
            first_sibling_key(list@, group@) == first_sibling_key(list@.subrange(i as int, list@.len() as int), group@),
        decreases list.len() - i,
    {
        let pos = find_sibling_pos(group, list[i]);
        proof {
            let rest = list@.subrange(i as int, list@.len() as int);
            assert(rest[0] == list@[i as int]);
            assert(rest.drop_first() =~= list@.subrange(i + 1, list@.len() as int));
        }
        if pos >= 0 {
            proof {
                let rest = list@.subrange(i as int, list@.len() as int);
                assert(rest.len() > 0);
                assert(sibling_pos(group@, rest[0]) == pos);
                assert(first_sibling_key(rest, group@) == pos);
            }
            return pos;
        }
        i += 1;
    }
    -1
}

proof fn lemma_by_key_step(nodes: Seq<usize>, memberships: Seq<Vec<usize>>, group: Seq<usize>, k: int)
    requires
        k >= 0,
    ensures
        by_key_below(nodes, memberships, group, k + 1) == by_key_below(nodes, memberships, group, k)
            + nodes.filter(keyed(memberships, group, k)),
{
}

/// Reorders the nodes of `rank_nodes` that belong to one of the sibling
/// clusters in `sibling_group` by the position of their cluster in the
/// group (a cluster listed twice counts at its last position; a node counts
/// under the first of its clusters that is a sibling), keeping their order
/// within one cluster and leaving every other node in its slot.
pub fn enforce_sibling_cluster_order(
    rank_nodes: &mut [usize],
    node_cluster_memberships: &[Vec<usize>],
    sibling_group: &[usize],
)
    requires
        sibling_group@.len() < 0x8000_0000_0000_0000,
    ensures
        final(rank_nodes)@ == sibling_order(old(rank_nodes)@, node_cluster_memberships@, sibling_group@),
{
    if sibling_group.len() < 2 {
        return;
    }
    let ghost rank = rank_nodes@;
    let ghost mem = node_cluster_memberships@;
    let ghost group = sibling_group@;
    let ghost inside = in_siblings(mem, group);
    let mut keys: Vec<i64> = Vec::new();
    let mut grouped: Vec<usize> = Vec::new();
    let mut i: usize = 0;
    while i < rank_nodes.len()
        invariant
            i <= rank.len(),
            rank == rank_nodes@,
            mem == node_cluster_memberships@,
            group == sibling_group@,
            group.len() < 0x8000_0000_0000_0000,
            inside == in_siblings(mem, group),
            grouped@ == rank.subrange(0, i as int).filter(inside),
            keys@.len() == grouped@.len(),
            forall|j: int| 0 <= j < keys@.len() ==> keys@[j] == sibling_key(mem, group, #[trigger] grouped@[j]),
        decreases rank_nodes.len() - i,
    {
        let v = rank_nodes[i];
        let key = find_sibling_key(node_cluster_memberships, sibling_group, v);
        proof {
            lemma_filter_step(rank, inside, i as int);
        }
        if key >= 0 {
            grouped.push(v);
            keys.push(key);
        }
        i += 1;
    }
    proof {
        assert(rank.subrange(0, rank.len() as int) =~= rank);
    }
    if grouped.len() < 2 {
        return;
    }
    let ghost g = grouped@;
    let mut ordered: Vec<usize> = Vec::new();
    let mut k: usize = 0;
    while k < sibling_group.len()
        invariant
            k <= group.len(),
            group == sibling_group@,
            g == grouped@,
            keys@.len() == g.len(),
            forall|j: int| 0 <= j < keys@.len() ==> keys@[j] == sibling_key(mem, group, #[trigger] g[j]),
            ordered@ == by_key_below(g, mem, group, k as int),
            group.len() < 0x8000_0000_0000_0000,
        decreases sibling_group.len() - k,
    {
        let ghost before = ordered@;
        let mut j: usize = 0;
        while j < grouped.len()
            invariant
                j <= g.len(),
                g == grouped@,
                keys@.len() == g.len(),
                k < group.len(),
                group.len() < 0x8000_0000_0000_0000,
                forall|jj: int| 0 <= jj < keys@.len() ==> keys@[jj] == sibling_key(mem, group, #[trigger] g[jj]),
                ordered@ == before + g.subrange(0, j as int).filter(keyed(mem, group, k as int)),
            decreases grouped.len() - j,
        {
            proof {
                lemma_filter_step(g, keyed(mem, group, k as int), j as int);
            }
            if keys[j] == k as i64 {
                ordered.push(grouped[j]);
            }
            j += 1;
        }
        proof {
            assert(g.subrange(0, g.len() as int) =~= g);
            lemma_by_key_step(g, mem, group, k as int);
        }
        k += 1;
    }
    let ghost target = sibling_order(rank, mem, group);
    let mut next: usize = 0;
    let mut j: usize = 0;
    while j < rank_nodes.len()
        invariant
            j <= rank.len(),
            rank_nodes@.len() == rank.len(),
            mem == node_cluster_memberships@,
            group == sibling_group@,
            group.len() < 0x8000_0000_0000_0000,
            inside == in_siblings(mem, group),
            g == rank.filter(inside),
            g.len() >= 2,
            group.len() >= 2,
            ordered@ == by_key_below(g, mem, group, group.len() as int),
            next == rank.subrange(0, j as int).filter(inside).len(),
            target == sibling_order(rank, mem, group),
            forall|q: int| 0 <= q < j ==> rank_nodes@[q] == target[q],
            forall|q: int| j <= q < rank.len() ==> rank_nodes@[q] == rank[q],
        decreases rank_nodes.len() - j,
    {
        let v = rank_nodes[j];
        let key = find_sibling_key(node_cluster_memberships, sibling_group, v);
        proof {
            lemma_filter_step(rank, inside, j as int);
            lemma_filter_len_mono(rank, inside, j + 1);
        }
        if key >= 0 {
            proof {
                assert forall|q: int| 0 <= q < g.len() implies 0 <= sibling_key(mem, group, #[trigger] g[q]) < group.len() by {
                    rank.lemma_filter_pred(inside, q);
                    lemma_sibling_key_bound(mem, group, g[q]);
                }
                lemma_by_key_len(g, mem, group, group.len() as int);
            }
            let replacement = ordered[next];
            rank_nodes[j] = replacement;
            next += 1;
        }
        j += 1;
    }
    proof {
        assert(rank_nodes@ =~= target);
    }
}

proof fn lemma_sibling_pos_bound(group: Seq<usize>, cluster: usize)
    ensures
        -1 <= sibling_pos(group, cluster) < group.len(),
    decreases group.len(),
{
    if group.len() > 0 {
        lemma_sibling_pos_bound(group.drop_last(), cluster);
    }
}

proof fn lemma_first_key_bound(list: Seq<usize>, group: Seq<usize>)
    ensures
        -1 <= first_sibling_key(list, group) < group.len(),
    decreases list.len(),
{
    if list.len() > 0 {
        lemma_sibling_pos_bound(group, list[0]);
        lemma_first_key_bound(list.drop_first(), group);
    }
}

proof fn lemma_sibling_key_bound(memberships: Seq<Vec<usize>>, group: Seq<usize>, node: usize)
    ensures
        -1 <= sibling_key(memberships, group, node) < group.len(),
{
    if node < memberships.len() {
        lemma_first_key_bound(memberships[node as int]@, group);
    }
}

/// Keys from zero up to `k`, as a predicate on nodes.
pub open spec fn key_below(memberships: Seq<Vec<usize>>, group: Seq<usize>, k: int) -> spec_fn(usize) -> bool {
    |v: usize| 0 <= sibling_key(memberships, group, v) < k
}

/// Filtering by one of two exclusive predicates, or by either, splits the
/// count.
proof fn lemma_filter_split_len(
    s: Seq<usize>,
    p: spec_fn(usize) -> bool,
    q: spec_fn(usize) -> bool,
    r: spec_fn(usize) -> bool,
)
    requires
        forall|x: usize| #[trigger] p(x) == (q(x) || r(x)),
        forall|x: usize| !(#[trigger] q(x) && r(x)),
    ensures
        s.filter(p).len() == s.filter(q).len() + s.filter(r).len(),
    decreases s.len(),
{
    reveal(Seq::filter);
    if s.len() > 0 {
        lemma_filter_split_len(s.drop_last(), p, q, r);
        assert(p(s.last()) == (q(s.last()) || r(s.last())));
        assert(!(q(s.last()) && r(s.last())));
    }
}

proof fn lemma_filter_none(s: Seq<usize>, p: spec_fn(usize) -> bool)
    requires
        forall|x: usize| !#[trigger] p(x),
    ensures
        s.filter(p).len() == 0,
    decreases s.len(),
{
    reveal(Seq::filter);
    if s.len() > 0 {
        lemma_filter_none(s.drop_last(), p);
        assert(!p(s.last()));
    }
}

/// Grouping by key below `k` keeps exactly the nodes whose key is below
/// `k`.
proof fn lemma_by_key_count(nodes: Seq<usize>, memberships: Seq<Vec<usize>>, group: Seq<usize>, k: int)
    requires
        k >= 0,
    ensures
        by_key_below(nodes, memberships, group, k).len() == nodes.filter(key_below(memberships, group, k)).len(),
    decreases k,
{
    if k == 0 {
        lemma_filter_none(nodes, key_below(memberships, group, 0));
    } else {
        lemma_by_key_count(nodes, memberships, group, k - 1);
        let p = key_below(memberships, group, k);
        let q = key_below(memberships, group, k - 1);
        let r = keyed(memberships, group, k - 1);
        assert forall|x: usize| #[trigger] p(x) == (q(x) || r(x)) by {}
        assert forall|x: usize| !(#[trigger] q(x) && r(x)) by {}
        lemma_filter_split_len(nodes, p, q, r);
    }
}

/// With every key below `k`, grouping by key keeps all nodes.
proof fn lemma_by_key_len(nodes: Seq<usize>, memberships: Seq<Vec<usize>>, group: Seq<usize>, k: int)
    requires
        k >= 0,
        forall|i: int| 0 <= i < nodes.len() ==> 0 <= sibling_key(memberships, group, #[trigger] nodes[i]) < k,
    ensures
        by_key_below(nodes, memberships, group, k).len() == nodes.len(),
{
    lemma_by_key_count(nodes, memberships, group, k);
    let p = key_below(memberships, group, k);
    assert forall|i: int| 0 <= i < nodes.len() implies p(#[trigger] nodes[i]) by {}
    lemma_filter_all(nodes, p);
}


/// Cluster `a` comes before or with cluster `b` when ordered by depth, then
/// by index.
pub open spec fn depth_le(depths: Seq<usize>, a: usize, b: usize) -> bool {
    depths[a as int] < depths[b as int] || (depths[a as int] == depths[b as int] && a <= b)
}

/// `chain` is ordered by depth, then by index.
pub open spec fn depth_ordered(chain: Seq<usize>, depths: Seq<usize>) -> bool {
    forall|i: int, j: int| 0 <= i < j < chain.len() ==> depth_le(depths, #[trigger] chain[i], #[trigger] chain[j])
}

/// The cluster right after the last occurrence of `parent` in `chain`
/// (not counting its final entry), if any.
pub open spec fn child_after(chain: Seq<usize>, parent: usize) -> Option<usize>
    decreases chain.len(),
{
    if chain.len() < 2 {
        None
    } else if chain[chain.len() - 2] == parent {
        Some(chain.last())
    } else {
        child_after(chain.drop_last(), parent)
    }
}

/// For each node, its clusters from the outermost (least deep) inward.
/// Answers the question "which cluster of `node` lies directly inside
/// `parent`" by reading the node's chain.
pub struct DirectChildLookup {
    pub chains: Vec<Vec<usize>>,
}

impl DirectChildLookup {
    /// The cluster of `node` directly inside `parent`, or its outermost
    /// cluster when `parent` is none.
    pub open spec fn child_spec(&self, parent: Option<usize>, node: usize) -> Option<usize> {
        if node >= self.chains@.len() {
            None
        } else {
            let chain = self.chains@[node as int]@;
            match parent {
                None => if chain.len() > 0 {
                    Some(chain[0])
                } else {
                    None
                },
                Some(p) => child_after(chain, p),
            }
        }
    }

    /// The cluster of `node` directly inside `parent` (its outermost cluster
    /// when `parent` is none); none when there is no such cluster.
    pub fn get(&self, parent: Option<usize>, node: usize) -> (r: Option<usize>)
        ensures
            r == self.child_spec(parent, node),
    {
        if node >= self.chains.len() {
            return None;
        }
        let chain = &self.chains[node];
        match parent {
            None => {
                if chain.len() > 0 {
                    Some(chain[0])
                } else {
                    None
                }
            },
            Some(p) => {
                let mut k: usize = chain.len();
                assert(chain@.subrange(0, k as int) =~= chain@);
                while k >= 2
                    invariant
                        k <= chain@.len(),
                        parent == Some(p),
                        node < self.chains@.len(),
                        chain@ == self.chains@[node as int]@,
                        child_after(chain@, p) == child_after(chain@.subrange(0, k as int), p),
                    decreases k,
                {
                    proof {
                        assert(chain@.subrange(0, k as int).drop_last() =~= chain@.subrange(0, k - 1));
                    }
                    if chain[k - 2] == p {
                        proof {
                            let t = chain@.subrange(0, k as int);
                            assert(t[t.len() - 2] == p);
                            assert(t.last() == chain@[k - 1]);
                        }
                        return Some(chain[k - 1]);
                    }
                    k -= 1;
                }
                None
            },
        }
    }
}

/// The clusters of one node ordered by depth, then by index.
fn order_by_depth(memberships: &Vec<usize>, cluster_depths: &[usize]) -> (chain: Vec<usize>)
    requires
        forall|k: int| 0 <= k < memberships@.len() ==> memberships@[k] < cluster_depths@.len(),
    ensures
        chain@.to_multiset() == memberships@.to_multiset(),
        depth_ordered(chain@, cluster_depths@),
{
    broadcast use vstd::seq_lib::group_to_multiset_ensures;

    let mut chain: Vec<usize> = Vec::new();
    let mut i: usize = 0;
    while i < memberships.len()
        invariant
            i <= memberships@.len(),
            forall|k: int| 0 <= k < memberships@.len() ==> memberships@[k] < cluster_depths@.len(),
            forall|k: int| 0 <= k < chain@.len() ==> chain@[k] < cluster_depths@.len(),
            chain@.to_multiset() == memberships@.subrange(0, i as int).to_multiset(),
            depth_ordered(chain@, cluster_depths@),
        decreases memberships.len() - i,
    {
        let x = memberships[i];
        let dx = cluster_depths[x];
        let mut pos: usize = 0;
        while pos < chain.len() && (cluster_depths[chain[pos]] < dx || (cluster_depths[chain[pos]] == dx
            && chain[pos] <= x))
            invariant
                pos <= chain@.len(),
                x < cluster_depths@.len(),
                dx == cluster_depths@[x as int],
                forall|k: int| 0 <= k < chain@.len() ==> chain@[k] < cluster_depths@.len(),
                forall|k: int| 0 <= k < pos ==> depth_le(cluster_depths@, #[trigger] chain@[k], x),
            decreases chain.len() - pos,
        {
            pos += 1;
        }
        let ghost before = chain@;
        chain.insert(pos, x);
        proof {
            assert(memberships@.subrange(0, i + 1) =~= memberships@.subrange(0, i as int).push(x));
            assert(chain@ == before.insert(pos as int, x));
            vstd::seq_lib::to_multiset_insert(before, pos as int, x);
            vstd::seq_lib::to_multiset_build(memberships@.subrange(0, i as int), x);
            assert forall|a: int, b: int| 0 <= a < b < chain@.len() implies depth_le(
                cluster_depths@,
                #[trigger] chain@[a],
                #[trigger] chain@[b],
            ) by {
                if b < pos {
                } else if b == pos {
                    assert(chain@[a] == before[a]);
                } else if a < pos {
                    assert(chain@[a] == before[a]);
                    assert(chain@[b] == before[b - 1]);
                    if pos < before.len() {
                        assert(depth_le(cluster_depths@, before[a], before[pos as int]));
                        assert(!depth_le(cluster_depths@, before[pos as int], x));
                    }
                } else if a == pos {
                    assert(chain@[b] == before[b - 1]);
                    assert(!depth_le(cluster_depths@, before[pos as int], x));
                    assert(depth_le(cluster_depths@, before[pos as int], before[b - 1]) || b - 1 == pos);
                } else {
                    assert(chain@[a] == before[a - 1]);
                    assert(chain@[b] == before[b - 1]);
                }
            }
        }
        i += 1;
    }
    proof {
        assert(memberships@.subrange(0, memberships@.len() as int) =~= memberships@);
    }
    chain
}

/// For each node, its clusters ordered by depth (then index), so that the
/// cluster directly inside a parent can be looked up.
pub fn build_direct_child_lookup(
    node_cluster_memberships: &[Vec<usize>],
    cluster_depths: &[usize],
) -> (lookup: DirectChildLookup)
    requires
        forall|v: int, k: int|
            0 <= v < node_cluster_memberships@.len() && 0 <= k < node_cluster_memberships@[v]@.len()
                ==> #[trigger] node_cluster_memberships@[v]@[k] < cluster_depths@.len(),
    ensures
        lookup.chains@.len() == node_cluster_memberships@.len(),
        forall|v: int|
            0 <= v < node_cluster_memberships@.len() ==> (#[trigger] lookup.chains@[v])@.to_multiset()
                == node_cluster_memberships@[v]@.to_multiset() && depth_ordered(
                lookup.chains@[v]@,
                cluster_depths@,
            ),
{
    let mut chains: Vec<Vec<usize>> = Vec::new();
    let mut v: usize = 0;
    while v < node_cluster_memberships.len()
        invariant
            v <= node_cluster_memberships@.len(),
            chains@.len() == v,
            forall|w: int, k: int|
                0 <= w < node_cluster_memberships@.len() && 0 <= k < node_cluster_memberships@[w]@.len()
                    ==> #[trigger] node_cluster_memberships@[w]@[k] < cluster_depths@.len(),
            forall|w: int|
                0 <= w < v ==> (#[trigger] chains@[w])@.to_multiset() == node_cluster_memberships@[w]@.to_multiset()
                    && depth_ordered(chains@[w]@, cluster_depths@),
        decreases node_cluster_memberships.len() - v,
    {
        let chain = order_by_depth(&node_cluster_memberships[v], cluster_depths);
        chains.push(chain);
        v += 1;
    }
    DirectChildLookup { chains }
}


proof fn lemma_filter_partition(s: Seq<usize>, memberships: Seq<Vec<usize>>, cluster: usize)
    ensures
        s.filter(member_of(memberships, cluster)).to_multiset().add(
            s.filter(outside_of(memberships, cluster)).to_multiset(),
        ) == s.to_multiset(),
    decreases s.len(),
{
    broadcast use vstd::seq_lib::group_to_multiset_ensures;
    broadcast use vstd::multiset::group_multiset_axioms;

    reveal(Seq::filter);
    if s.len() == 0 {
        assert(s.filter(member_of(memberships, cluster)).to_multiset() =~= vstd::multiset::Multiset::empty());
        assert(s.filter(outside_of(memberships, cluster)).to_multiset() =~= vstd::multiset::Multiset::empty());
        assert(s.to_multiset() =~= vstd::multiset::Multiset::empty());
    } else {
        lemma_filter_partition(s.drop_last(), memberships, cluster);
        assert(s.drop_last().push(s.last()) =~= s);
        let x = s.last();
        let ins = s.drop_last().filter(member_of(memberships, cluster));
        let outs = s.drop_last().filter(outside_of(memberships, cluster));
        if is_member(memberships, x, cluster) {
            assert(s.filter(member_of(memberships, cluster)) == ins.push(x));
            assert(s.filter(outside_of(memberships, cluster)) == outs);
            assert(ins.push(x).to_multiset().add(outs.to_multiset()) =~= ins.to_multiset().add(
                outs.to_multiset(),
            ).insert(x));
        } else {
            assert(s.filter(member_of(memberships, cluster)) == ins);
            assert(s.filter(outside_of(memberships, cluster)) == outs.push(x));
            assert(ins.to_multiset().add(outs.push(x).to_multiset()) =~= ins.to_multiset().add(
                outs.to_multiset(),
            ).insert(x));
        }
    }
}

/// Two passing entries make a filtered sequence of length at least two.
proof fn lemma_filter_two(s: Seq<usize>, pred: spec_fn(usize) -> bool, i: int, k: int)
    requires
        0 <= i < k < s.len(),
        pred(s[i]),
        pred(s[k]),
    ensures
        s.filter(pred).len() >= 2,
{
    lemma_filter_step(s, pred, i);
    lemma_filter_len_mono(s.subrange(0, k), pred, i + 1);
    assert(s.subrange(0, k).subrange(0, i + 1) =~= s.subrange(0, i + 1));
    lemma_filter_step(s, pred, k);
    lemma_filter_len_mono(s, pred, k + 1);
}

/// Law: gathering a cluster's members keeps exactly the same nodes, and
/// afterwards the members stand in one unbroken block.
pub proof fn law_contiguity_keeps_nodes_and_groups_members(
    rank: Seq<usize>,
    memberships: Seq<Vec<usize>>,
    cluster: usize,
)
    ensures
        contiguous_order(rank, memberships, cluster).to_multiset() == rank.to_multiset(),
        forall|i: int, j: int, k: int|
            0 <= i < j < k < contiguous_order(rank, memberships, cluster).len() && is_member(
                memberships,
                #[trigger] contiguous_order(rank, memberships, cluster)[i],
                cluster,
            ) && is_member(memberships, #[trigger] contiguous_order(rank, memberships, cluster)[k], cluster)
                ==> is_member(memberships, #[trigger] contiguous_order(rank, memberships, cluster)[j], cluster),
{
    broadcast use vstd::seq_lib::group_to_multiset_ensures;
    broadcast use vstd::multiset::group_multiset_axioms;

    let inside = member_of(memberships, cluster);
    let outside = outside_of(memberships, cluster);
    let members = rank.filter(inside);
    let others = rank.filter(outside);
    let at = leading_outside(rank, memberships, cluster);
    let r = contiguous_order(rank, memberships, cluster);
    lemma_filter_partition(rank, memberships, cluster);
    if members.len() <= 1 {
        assert forall|i: int, j: int, k: int|
            0 <= i < j < k < r.len() && is_member(memberships, #[trigger] r[i], cluster) && is_member(
                memberships,
                #[trigger] r[k],
                cluster,
            ) implies is_member(memberships, #[trigger] r[j], cluster) by {
            lemma_filter_two(rank, inside, i, k);
        }
    } else {
        lemma_leading_outside_bound(rank, memberships, cluster);
        let a = others.subrange(0, at);
        let b = others.subrange(at, others.len() as int);
        assert(a + b =~= others);
        vstd::seq_lib::lemma_multiset_commutative(a, members);
        vstd::seq_lib::lemma_multiset_commutative(a + members, b);
        vstd::seq_lib::lemma_multiset_commutative(a, b);
        assert(r.to_multiset() =~= rank.to_multiset());
        assert forall|q: int| 0 <= q < others.len() implies !is_member(memberships, #[trigger] others[q], cluster) by {
            rank.lemma_filter_pred(outside, q);
        }
        assert forall|q: int| 0 <= q < members.len() implies is_member(memberships, #[trigger] members[q], cluster) by {
            rank.lemma_filter_pred(inside, q);
        }
        assert forall|i: int, j: int, k: int|
            0 <= i < j < k < r.len() && is_member(memberships, #[trigger] r[i], cluster) && is_member(
                memberships,
                #[trigger] r[k],
                cluster,
            ) implies is_member(memberships, #[trigger] r[j], cluster) by {
            if i < at {
                assert(r[i] == others[i]);
            }
            if k >= at + members.len() {
                assert(r[k] == others[k - members.len()]);
            }
            assert(r[j] == members[j - at]);
        }
    }
}

proof fn lemma_leading_outside_bound(s: Seq<usize>, memberships: Seq<Vec<usize>>, cluster: usize)
    ensures
        0 <= leading_outside(s, memberships, cluster) <= s.filter(outside_of(memberships, cluster)).len(),
    decreases s.len(),
{
    reveal(Seq::filter);
    if s.len() > 0 && !is_member(memberships, s[0], cluster) {
        lemma_leading_outside_bound(s.drop_first(), memberships, cluster);
        lemma_filter_first(s, outside_of(memberships, cluster));
    }
}

/// Filtering a sequence whose first entry passes keeps that entry in front
/// of the filtered rest.
proof fn lemma_filter_first(s: Seq<usize>, pred: spec_fn(usize) -> bool)
    requires
        s.len() > 0,
        pred(s[0]),
    ensures
        s.filter(pred).len() == s.drop_first().filter(pred).len() + 1,
    decreases s.len(),
{
    reveal(Seq::filter);
    if s.len() > 1 {
        lemma_filter_first(s.drop_last(), pred);
        assert(s.drop_last().drop_first() =~= s.drop_first().drop_last());
        assert(s.drop_first().last() == s.last());
    } else {
        assert(s.drop_first().len() == 0);
        assert(s.drop_last().len() == 0);
    }
}

proof fn lemma_filter_uniform(s: Seq<usize>, pred: spec_fn(usize) -> bool)
    ensures
        (forall|i: int| 0 <= i < s.len() ==> pred(#[trigger] s[i])) ==> s.filter(pred) == s,
        (forall|i: int| 0 <= i < s.len() ==> !pred(#[trigger] s[i])) ==> s.filter(pred) == Seq::<usize>::empty(),
    decreases s.len(),
{
    reveal(Seq::filter);
    if s.len() > 0 {
        lemma_filter_uniform(s.drop_last(), pred);
        if forall|i: int| 0 <= i < s.len() ==> pred(#[trigger] s[i]) {
            assert(forall|i: int| 0 <= i < s.drop_last().len() ==> pred(#[trigger] s.drop_last()[i])) by {
                assert forall|i: int| 0 <= i < s.drop_last().len() implies pred(#[trigger] s.drop_last()[i]) by {
                    assert(s.drop_last()[i] == s[i]);
                }
            }
            assert(pred(s[s.len() - 1]));
            assert(s.drop_last().push(s.last()) =~= s);
        }
        if forall|i: int| 0 <= i < s.len() ==> !pred(#[trigger] s[i]) {
            assert(forall|i: int| 0 <= i < s.drop_last().len() ==> !pred(#[trigger] s.drop_last()[i])) by {
                assert forall|i: int| 0 <= i < s.drop_last().len() implies !pred(#[trigger] s.drop_last()[i]) by {
                    assert(s.drop_last()[i] == s[i]);
                }
            }
            assert(!pred(s[s.len() - 1]));
        }
    }
}

proof fn lemma_leading_outside_concat(x: Seq<usize>, z: Seq<usize>, memberships: Seq<Vec<usize>>, cluster: usize)
    requires
        forall|i: int| 0 <= i < x.len() ==> !is_member(memberships, #[trigger] x[i], cluster),
        z.len() > 0,
        is_member(memberships, z[0], cluster),
    ensures
        leading_outside(x + z, memberships, cluster) == x.len(),
    decreases x.len(),
{
    if x.len() == 0 {
        assert(x + z =~= z);
    } else {
        assert(!is_member(memberships, x[0], cluster));
        assert((x + z)[0] == x[0]);
        assert((x + z).drop_first() =~= x.drop_first() + z);
        assert forall|i: int| 0 <= i < x.drop_first().len() implies !is_member(
            memberships,
            #[trigger] x.drop_first()[i],
            cluster,
        ) by {
            assert(x.drop_first()[i] == x[i + 1]);
        }
        lemma_leading_outside_concat(x.drop_first(), z, memberships, cluster);
    }
}

/// Law: gathering a cluster's members a second time changes nothing.
pub proof fn law_contiguity_is_idempotent(rank: Seq<usize>, memberships: Seq<Vec<usize>>, cluster: usize)
    ensures
        contiguous_order(contiguous_order(rank, memberships, cluster), memberships, cluster) == contiguous_order(
            rank,
            memberships,
            cluster,
        ),
{
    let inside = member_of(memberships, cluster);
    let outside = outside_of(memberships, cluster);
    let members = rank.filter(inside);
    let others = rank.filter(outside);
    let at = leading_outside(rank, memberships, cluster);
    if members.len() > 1 {
        lemma_leading_outside_bound(rank, memberships, cluster);
        let x = others.subrange(0, at);
        let y = others.subrange(at, others.len() as int);
        let r = contiguous_order(rank, memberships, cluster);
        assert(r == x + members + y);
        assert forall|q: int| 0 <= q < others.len() implies !is_member(memberships, #[trigger] others[q], cluster) by {
            rank.lemma_filter_pred(outside, q);
        }
        assert forall|q: int| 0 <= q < members.len() implies is_member(memberships, #[trigger] members[q], cluster) by {
            rank.lemma_filter_pred(inside, q);
        }
        assert forall|q: int| 0 <= q < x.len() implies !is_member(memberships, #[trigger] x[q], cluster) by {
            assert(x[q] == others[q]);
        }
        assert forall|q: int| 0 <= q < y.len() implies !is_member(memberships, #[trigger] y[q], cluster) by {
            assert(y[q] == others[q + at]);
        }
        assert(forall|q: int| 0 <= q < x.len() ==> !inside(#[trigger] x[q]));
        assert(forall|q: int| 0 <= q < x.len() ==> outside(#[trigger] x[q]));
        assert(forall|q: int| 0 <= q < y.len() ==> !inside(#[trigger] y[q]));
        assert(forall|q: int| 0 <= q < y.len() ==> outside(#[trigger] y[q]));
        assert(forall|q: int| 0 <= q < members.len() ==> inside(#[trigger] members[q]));
        assert(forall|q: int| 0 <= q < members.len() ==> !outside(#[trigger] members[q]));
        lemma_filter_uniform(x, inside);
        lemma_filter_uniform(x, outside);
        lemma_filter_uniform(y, inside);
        lemma_filter_uniform(y, outside);
        lemma_filter_uniform(members, inside);
        lemma_filter_uniform(members, outside);
        Seq::filter_distributes_over_add(x, members, inside);
        Seq::filter_distributes_over_add(x + members, y, inside);
        Seq::filter_distributes_over_add(x, members, outside);
        Seq::filter_distributes_over_add(x + members, y, outside);
        assert(r.filter(inside) =~= members);
        assert(r.filter(outside) =~= others);
        assert(x + members + y =~= x + (members + y));
        lemma_leading_outside_concat(x, members + y, memberships, cluster);
        assert(leading_outside(r, memberships, cluster) == at);
    }
}

} // verus!
