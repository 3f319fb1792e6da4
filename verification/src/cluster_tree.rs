//! The tree of declared clusters: which nodes each cluster holds, how deep
//! each cluster is nested, and which clusters are siblings.
use vstd::prelude::*;

use crate::cluster_order::{memberships_sorted, nondecreasing};

verus! {

/// A declared cluster as the ordering passes read it: its position in the
/// declaration, the layer nodes it holds and the cluster it is nested in.
#[derive(Debug, Clone)]
pub struct ClusterInternal {
    pub declaration_index: usize,
    pub node_indices: Vec<usize>,
    pub parent: Option<usize>,
}

/// The clusters each node belongs to after the first `k` clusters were
/// recorded: cluster indices in increasing order; node indices out of range
/// are ignored.
pub open spec fn memberships_after(clusters: Seq<ClusterInternal>, node_count: int, k: int) -> Seq<Seq<usize>>
    decreases k,
{
    if k <= 0 {
        Seq::new(node_count as nat, |v: int| Seq::<usize>::empty())
    } else {
        let prev = memberships_after(clusters, node_count, k - 1);
        Seq::new(
            node_count as nat,
            |v: int| prev[v] + Seq::new(
                clusters[k - 1].node_indices@.filter(|x: usize| x == v).len(),
                |j: int| (k - 1) as usize,
            ),
        )
    }
}

/// Each node's clusters come in cluster order, all below `k`.
proof fn lemma_memberships_ordered(clusters: Seq<ClusterInternal>, node_count: int, k: int)
    requires
        0 <= k <= usize::MAX,
        0 <= node_count,
    ensures
        forall|v: int|
            0 <= v < node_count ==> nondecreasing(#[trigger] memberships_after(clusters, node_count, k)[v]),
        forall|v: int, i: int|
            0 <= v < node_count && 0 <= i < memberships_after(clusters, node_count, k)[v].len() ==> (
            #[trigger] memberships_after(clusters, node_count, k)[v][i]) < k,
    decreases k,
{
    if k > 0 {
        lemma_memberships_ordered(clusters, node_count, k - 1);
        let prev = memberships_after(clusters, node_count, k - 1);
        let cur = memberships_after(clusters, node_count, k);
        assert forall|v: int| 0 <= v < node_count implies nondecreasing(#[trigger] cur[v]) && forall|i: int|
            0 <= i < cur[v].len() ==> (#[trigger] cur[v][i]) < k by {
            let tail = Seq::new(
                clusters[k - 1].node_indices@.filter(|x: usize| x == v).len(),
                |j: int| (k - 1) as usize,
            );
            assert(cur[v] == prev[v] + tail);
            assert forall|i: int, j: int| 0 <= i <= j < cur[v].len() implies cur[v][i] <= cur[v][j] by {
                let plen = prev[v].len() as int;
                if j < plen {
                    assert(nondecreasing(prev[v]));
                } else if i < plen {
                    assert(prev[v][i] < k - 1);
                    assert(cur[v][j] == tail[j - plen]);
                } else {
                    assert(cur[v][j] == tail[j - plen]);
                    assert(cur[v][i] == tail[i - plen]);
                }
            }
            assert forall|i: int| 0 <= i < cur[v].len() implies (#[trigger] cur[v][i]) < k by {
                if i < prev[v].len() {
                    assert(prev[v][i] < k - 1);
                } else {
                    assert(cur[v][i] == tail[i - prev[v].len()]);
                }
            }
        }
    }
}

/// For each of the `node_count` nodes, the clusters that list it (once per
/// listing), in cluster order.
pub fn build_node_cluster_memberships(node_count: usize, clusters: &[ClusterInternal]) -> (memberships: Vec<Vec<usize>>)
    ensures
        memberships@.len() == node_count,
        memberships_sorted(memberships@),
        forall|v: int| 0 <= v < node_count ==> (#[trigger] memberships@[v])@ == memberships_after(
            clusters@,
            node_count as int,
            clusters@.len() as int,
        )[v],
{
    let mut memberships: Vec<Vec<usize>> = Vec::new();
    let mut v: usize = 0;
    while v < node_count
        invariant
            v <= node_count,
            memberships@.len() == v,
            forall|w: int| 0 <= w < v ==> (#[trigger] memberships@[w])@ == Seq::<usize>::empty(),
        decreases node_count - v,
    {
        memberships.push(Vec::new());
        v += 1;
    }
    let mut c: usize = 0;
    while c < clusters.len()
        invariant
            c <= clusters@.len(),
            memberships@.len() == node_count,
            forall|w: int| 0 <= w < node_count ==> (#[trigger] memberships@[w])@ == memberships_after(
                clusters@,
                node_count as int,
                c as int,
            )[w],
        decreases clusters.len() - c,
    {
        let list = &clusters[c].node_indices;
        let ghost prev = memberships_after(clusters@, node_count as int, c as int);
        let mut i: usize = 0;
        while i < list.len()
            invariant
                i <= list@.len(),
                c < clusters@.len(),
                list@ == clusters@[c as int].node_indices@,
                memberships@.len() == node_count,
                prev == memberships_after(clusters@, node_count as int, c as int),
                forall|w: int| 0 <= w < node_count ==> (#[trigger] memberships@[w])@ == prev[w] + Seq::new(
                    list@.subrange(0, i as int).filter(|x: usize| x == w).len(),
                    |j: int| c,
                ),
            decreases list.len() - i,
        {
            let node = list[i];
            proof {
                reveal(Seq::filter);
                assert(list@.subrange(0, i + 1).drop_last() =~= list@.subrange(0, i as int));
                assert(list@.subrange(0, i + 1).last() == node);
            }
            if node < memberships.len() {
                memberships[node].push(c);
            }
            proof {
                assert forall|w: int| 0 <= w < node_count implies (#[trigger] memberships@[w])@ == prev[w] + Seq::new(
                    list@.subrange(0, i + 1).filter(|x: usize| x == w).len(),
                    |j: int| c,
                ) by {
                    reveal(Seq::filter);
                    let before = list@.subrange(0, i as int).filter(|x: usize| x == w).len();
                    if node as int == w {
                        assert(list@.subrange(0, i + 1).filter(|x: usize| x == w).len() == before + 1);
                        assert(Seq::new((before + 1) as nat, |j: int| c) =~= Seq::new(before, |j: int| c).push(c));
                        assert(prev[w] + Seq::new((before + 1) as nat, |j: int| c) =~= (prev[w] + Seq::new(
                            before,
                            |j: int| c,
                        )).push(c));
                    } else {
                        assert(list@.subrange(0, i + 1).filter(|x: usize| x == w).len() == before);
                    }
                }
            }
            i += 1;
        }
        proof {
            assert(list@.subrange(0, list@.len() as int) =~= list@);
            assert forall|w: int| 0 <= w < node_count implies (#[trigger] memberships@[w])@ == memberships_after(
                clusters@,
                node_count as int,
                c + 1,
            )[w] by {}
        }
        c += 1;
    }
    proof {
        lemma_memberships_ordered(clusters@, node_count as int, clusters@.len() as int);
        assert forall|v: int| 0 <= v < memberships@.len() implies nondecreasing(#[trigger] memberships@[v]@) by {
            assert(memberships@[v]@ == memberships_after(clusters@, node_count as int, clusters@.len() as int)[v]);
        }
    }
    memberships
}

/// The parent links of the clusters.
pub open spec fn cluster_parents(clusters: Seq<ClusterInternal>) -> Seq<Option<usize>> {
    Seq::new(clusters.len(), |i: int| clusters[i].parent)
}

/// The number of parent links from cluster `c` up to a cluster without a
/// parent, when they all name clusters and there are fewer than `fuel`.
pub open spec fn depth_within(parents: Seq<Option<usize>>, c: int, fuel: nat) -> Option<nat>
    decreases fuel,
{
    if fuel == 0 {
        None
    } else {
        match parents[c] {
            None => Some(0),
            Some(p) => if p < parents.len() {
                match depth_within(parents, p as int, (fuel - 1) as nat) {
                    Some(d) => Some(d + 1),
                    None => None,
                }
            } else {
                None
            },
        }
    }
}

/// Every cluster's parent chain names clusters only and ends at a cluster
/// without a parent: the parent links form a forest.
pub open spec fn is_cluster_forest(parents: Seq<Option<usize>>) -> bool {
    forall|c: int| 0 <= c < parents.len() ==> (#[trigger] depth_within(parents, c, parents.len())) is Some
}

proof fn lemma_depth_within(parents: Seq<Option<usize>>, c: int, fuel: nat, more: nat)
    requires
        depth_within(parents, c, fuel) is Some,
        fuel <= more,
    ensures
        depth_within(parents, c, more) == depth_within(parents, c, fuel),
        depth_within(parents, c, fuel).unwrap() < fuel,
    decreases fuel,
{
    match parents[c] {
        None => {},
        Some(p) => {
            lemma_depth_within(parents, p as int, (fuel - 1) as nat, (more - 1) as nat);
        },
    }
}

/// The depth of cluster `idx`, filling the cache on the way.
fn depth_for(idx: usize, clusters: &[ClusterInternal], cache: &mut Vec<Option<usize>>) -> (depth: usize)
    requires
        idx < clusters@.len(),
        is_cluster_forest(cluster_parents(clusters@)),
        old(cache)@.len() == clusters@.len(),
        forall|x: int|
            0 <= x < clusters@.len() && (#[trigger] old(cache)@[x]) is Some ==> old(cache)@[x].unwrap() as nat
                == depth_within(cluster_parents(clusters@), x, clusters@.len()).unwrap(),
    ensures
        depth as nat == depth_within(cluster_parents(clusters@), idx as int, clusters@.len()).unwrap(),
        final(cache)@.len() == clusters@.len(),
        forall|x: int|
            0 <= x < clusters@.len() && (#[trigger] final(cache)@[x]) is Some ==> final(cache)@[x].unwrap() as nat
                == depth_within(cluster_parents(clusters@), x, clusters@.len()).unwrap(),
    decreases depth_within(cluster_parents(clusters@), idx as int, clusters@.len()).unwrap(),
{
    let ghost parents = cluster_parents(clusters@);
    let ghost n = clusters@.len();
    if let Some(depth) = cache[idx] {
        return depth;
    }
    proof {
        assert(depth_within(parents, idx as int, n) is Some);
        lemma_depth_within(parents, idx as int, n, n);
    }
    let depth = match clusters[idx].parent {
        Some(parent) => {
            proof {
                assert(parents[idx as int] == Some(parent));
                assert(parent < n);
                lemma_depth_within(parents, parent as int, (n - 1) as nat, n);
            }
            let d = depth_for(parent, clusters, cache);
            d + 1
        },
        None => 0,
    };
    cache.set(idx, Some(depth));
    depth
}

/// How deep each cluster is nested: the number of parent links up to a
/// top-level cluster.
pub fn build_cluster_depths(clusters: &[ClusterInternal]) -> (depths: Vec<usize>)
    requires
        is_cluster_forest(cluster_parents(clusters@)),
    ensures
        depths@.len() == clusters@.len(),
        forall|c: int|
            0 <= c < clusters@.len() ==> (#[trigger] depths@[c]) as nat == depth_within(
                cluster_parents(clusters@),
                c,
                clusters@.len(),
            ).unwrap(),
{
    let mut cache: Vec<Option<usize>> = Vec::new();
    let mut k: usize = 0;
    while k < clusters.len()
        invariant
            k <= clusters@.len(),
            cache@.len() == k,
            forall|x: int| 0 <= x < k ==> (#[trigger] cache@[x]) is None,
        decreases clusters.len() - k,
    {
        cache.push(None);
        k += 1;
    }
    let mut depths: Vec<usize> = Vec::new();
    let mut c: usize = 0;
    while c < clusters.len()
        invariant
            c <= clusters@.len(),
            is_cluster_forest(cluster_parents(clusters@)),
            cache@.len() == clusters@.len(),
            forall|x: int|
                0 <= x < clusters@.len() && (#[trigger] cache@[x]) is Some ==> cache@[x].unwrap() as nat == depth_within(
                    cluster_parents(clusters@),
                    x,
                    clusters@.len(),
                ).unwrap(),
            depths@.len() == c,
            forall|x: int|
                0 <= x < c ==> (#[trigger] depths@[x]) as nat == depth_within(
                    cluster_parents(clusters@),
                    x,
                    clusters@.len(),
                ).unwrap(),
        decreases clusters.len() - c,
    {
        let d = depth_for(c, clusters, &mut cache);
        depths.push(d);
        c += 1;
    }
    depths
}

/// `a` comes before `b` among siblings: an earlier declaration, then a
/// lower index.
pub open spec fn declared_before(clusters: Seq<ClusterInternal>, a: usize, b: usize) -> bool {
    clusters[a as int].declaration_index < clusters[b as int].declaration_index || (
    clusters[a as int].declaration_index == clusters[b as int].declaration_index && a < b)
}

/// `g` lists, in declaration order, all clusters that share one parent, and
/// there are at least two of them.
pub open spec fn is_sibling_group(clusters: Seq<ClusterInternal>, g: Seq<usize>) -> bool {
    &&& g.len() >= 2
    &&& forall|k: int| 0 <= k < g.len() ==> (#[trigger] g[k]) < clusters.len() && clusters[g[k] as int].parent == clusters[g[0] as int].parent
    &&& forall|c: int|
        0 <= c < clusters.len() && (#[trigger] clusters[c]).parent == clusters[g[0] as int].parent ==> g.contains(
            c as usize,
        )
    &&& forall|a: int, b: int| 0 <= a < b < g.len() ==> declared_before(clusters, #[trigger] g[a], #[trigger] g[b])
}

/// Some other cluster shares the parent of cluster `c`.
pub open spec fn has_sibling(clusters: Seq<ClusterInternal>, c: int) -> bool {
    exists|d: int| 0 <= d < clusters.len() && d != c && (#[trigger] clusters[d]).parent == clusters[c].parent
}

fn same_parent(a: Option<usize>, b: Option<usize>) -> (r: bool)
    ensures
        r == (a == b),
{
    match (a, b) {
        (Some(x), Some(y)) => x == y,
        (None, None) => true,
        _ => false,
    }
}

/// The clusters from `start` on that share parent `p`, in declaration order.
fn siblings_from(clusters: &[ClusterInternal], start: usize, p: Option<usize>) -> (group: Vec<usize>)
    requires
        start <= clusters@.len(),
    ensures
        forall|k: int| 0 <= k < group@.len() ==> start <= #[trigger] group@[k] < clusters@.len() && clusters@[group@[k] as int].parent == p,
        forall|c: int| start <= c < clusters@.len() && (#[trigger] clusters@[c]).parent == p ==> group@.contains(c as usize),
        forall|a: int, b: int| 0 <= a < b < group@.len() ==> declared_before(clusters@, #[trigger] group@[a], #[trigger] group@[b]),
{
    let mut group: Vec<usize> = Vec::new();
    let mut k: usize = start;
    while k < clusters.len()
        invariant
            start <= k <= clusters@.len(),
            forall|j: int| 0 <= j < group@.len() ==> start <= #[trigger] group@[j] < k && clusters@[group@[j] as int].parent == p,
            forall|c: int| start <= c < k && (#[trigger] clusters@[c]).parent == p ==> group@.contains(c as usize),
            forall|a: int, b: int| 0 <= a < b < group@.len() ==> declared_before(clusters@, #[trigger] group@[a], #[trigger] group@[b]),
        decreases clusters.len() - k,
    {
        if same_parent(clusters[k].parent, p) {
            let dk = clusters[k].declaration_index;
            let mut pos: usize = 0;
            while pos < group.len() && clusters[group[pos]].declaration_index <= dk
                invariant
                    pos <= group@.len(),
                    k < clusters@.len(),
                    dk == clusters@[k as int].declaration_index,
                    forall|j: int| 0 <= j < group@.len() ==> start <= #[trigger] group@[j] < k,
                    forall|j: int| 0 <= j < pos ==> declared_before(clusters@, #[trigger] group@[j], k as usize),
                decreases group.len() - pos,
            {
                pos += 1;
            }
            let ghost before = group@;
            group.insert(pos, k);
            proof {
                assert(group@ == before.insert(pos as int, k));
                assert forall|a: int, b: int| 0 <= a < b < group@.len() implies declared_before(
                    clusters@,
                    #[trigger] group@[a],
                    #[trigger] group@[b],
                ) by {
                    if b < pos {
                    } else if b == pos {
                        assert(group@[a] == before[a]);
                    } else if a < pos {
                        assert(group@[a] == before[a]);
                        assert(group@[b] == before[b - 1]);
                    } else if a == pos {
                        assert(group@[b] == before[b - 1]);
                        assert(clusters@[before[pos as int] as int].declaration_index > dk);
                        if b - 1 > pos {
                            assert(declared_before(clusters@, before[pos as int], before[b - 1]));
                        }
                    } else {
                        assert(group@[a] == before[a - 1]);
                        assert(group@[b] == before[b - 1]);
                    }
                }
                assert forall|c: int| start <= c < k + 1 && (#[trigger] clusters@[c]).parent == p implies group@.contains(
                    c as usize,
                ) by {
                    if c == k {
                        assert(group@[pos as int] == k);
                    } else {
                        let j = choose|j: int| 0 <= j < before.len() && before[j] == c as usize;
                        if j < pos {
                            assert(group@[j] == c as usize);
                        } else {
                            assert(group@[j + 1] == c as usize);
                        }
                    }
                }
                assert forall|j: int| 0 <= j < group@.len() implies start <= #[trigger] group@[j] < k + 1
                    && clusters@[group@[j] as int].parent == p by {
                    if j < pos {
                        assert(group@[j] == before[j]);
                    } else if j > pos {
                        assert(group@[j] == before[j - 1]);
                    }
                }
            }
        }
        k += 1;
    }
    group
}

/// The groups found among the parents of the first `i` clusters: sibling
/// groups, each for the parent of one of those clusters, ordered by first
/// cluster, and covering every cluster with a sibling whose parent is one
/// of those.
pub open spec fn groups_so_far(clusters: Seq<ClusterInternal>, groups: Seq<Vec<usize>>, i: int) -> bool {
    &&& forall|t: int| 0 <= t < groups.len() ==> is_sibling_group(clusters, (#[trigger] groups[t])@)
    &&& forall|t: int|
        0 <= t < groups.len() ==> exists|j: int|
            0 <= j < i && (#[trigger] clusters[j]).parent == clusters[(#[trigger] groups[t])@[0] as int].parent
    &&& forall|a: int, b: int| 0 <= a < b < groups.len() ==> (#[trigger] groups[a])@[0] < (#[trigger] groups[b])@[0]
    &&& forall|c: int|
        0 <= c < clusters.len() && has_sibling(clusters, c) && (exists|j: int|
            0 <= j < i && (#[trigger] clusters[j]).parent == clusters[c].parent) ==> exists|t: int|
            0 <= t < groups.len() && (#[trigger] groups[t])@.contains(c as usize)
}

/// Adds the group of the parent of cluster `i` when no earlier cluster has
/// that parent and it has at least two clusters.
#[verifier::rlimit(40)]
fn add_group_of(groups: &mut Vec<Vec<usize>>, clusters: &[ClusterInternal], i: usize)
    requires
        i < clusters@.len(),
        groups_so_far(clusters@, old(groups)@, i as int),
    ensures
        groups_so_far(clusters@, final(groups)@, i + 1),
{
    let n = clusters.len();
    let p = clusters[i].parent;
    let ghost old_groups = groups@;
    let mut seen = false;
    let mut j: usize = 0;
    while j < i
        invariant
            j <= i,
            i < n,
            n == clusters@.len(),
            p == clusters@[i as int].parent,
            seen == exists|q: int| 0 <= q < j && (#[trigger] clusters@[q]).parent == p,
        decreases i - j,
    {
        if same_parent(clusters[j].parent, p) {
            seen = true;
        }
        j += 1;
    }
    if !seen {
        let group = siblings_from(clusters, i, p);
        proof {
            assert forall|c: int| 0 <= c < n && (#[trigger] clusters@[c]).parent == p implies group@.contains(c as usize) by {
                if c < i {
                    assert(clusters@[c].parent == p);
                }
            }
        }
        if group.len() > 1 {
            let g0 = group[0];
            let mut pos: usize = 0;
            while pos < groups.len() && groups[pos][0] < g0
                invariant
                    pos <= groups@.len(),
                    forall|t: int| 0 <= t < groups@.len() ==> is_sibling_group(clusters@, (#[trigger] groups@[t])@),
                    forall|t: int| 0 <= t < pos ==> (#[trigger] groups@[t])@[0] < g0,
                decreases groups.len() - pos,
            {
                pos += 1;
            }
            let ghost before = groups@;
            proof {
                assert(clusters@[g0 as int].parent == p);
                assert(is_sibling_group(clusters@, group@)) by {
                    assert forall|k: int| 0 <= k < group@.len() implies (#[trigger] group@[k]) < clusters@.len()
                        && clusters@[group@[k] as int].parent == clusters@[group@[0] as int].parent by {}
                    assert forall|c: int| 0 <= c < clusters@.len() && (#[trigger] clusters@[c]).parent
                        == clusters@[group@[0] as int].parent implies group@.contains(c as usize) by {}
                }
                // the new group's parent is new, so its first cluster is in no earlier group
                assert forall|t: int| 0 <= t < before.len() implies (#[trigger] before[t])@[0] != g0 by {
                    let q = choose|q: int| 0 <= q < i && (#[trigger] clusters@[q]).parent == clusters@[before[t]@[0] as int].parent;
                    if before[t]@[0] == g0 {
                        assert(clusters@[q].parent == p);
                    }
                }
            }
            groups.insert(pos, group);
            proof {
                assert(groups@ == before.insert(pos as int, group));
                assert forall|t: int| 0 <= t < groups@.len() implies is_sibling_group(clusters@, (#[trigger] groups@[t])@) by {
                    if t < pos {
                        assert(groups@[t] == before[t]);
                    } else if t > pos {
                        assert(groups@[t] == before[t - 1]);
                    }
                }
                assert forall|a: int, b: int| 0 <= a < b < groups@.len() implies (#[trigger] groups@[a])@[0] < (
                #[trigger] groups@[b])@[0] by {
                    if b < pos {
                        assert(groups@[a] == before[a]);
                        assert(groups@[b] == before[b]);
                    } else if b == pos {
                        assert(groups@[a] == before[a]);
                    } else if a < pos {
                        assert(groups@[a] == before[a]);
                        assert(groups@[b] == before[b - 1]);
                        assert(before[pos as int]@[0] >= g0);
                        if b - 1 > pos {
                            assert(before[pos as int]@[0] < before[b - 1]@[0]);
                        }
                    } else if a == pos {
                        assert(groups@[b] == before[b - 1]);
                        assert(before[pos as int]@[0] >= g0);
                        assert(before[pos as int]@[0] != g0);
                        if b - 1 > pos {
                            assert(before[pos as int]@[0] < before[b - 1]@[0]);
                        }
                    } else {
                        assert(groups@[a] == before[a - 1]);
                        assert(groups@[b] == before[b - 1]);
                    }
                }
                assert forall|t: int| #![trigger old_groups[t]] 0 <= t < old_groups.len() implies exists|t2: int|
                    0 <= t2 < groups@.len() && #[trigger] groups@[t2] == old_groups[t] by {
                    if t < pos {
                        assert(groups@[t] == old_groups[t]);
                    } else {
                        assert(groups@[t + 1] == old_groups[t]);
                    }
                }
                assert forall|c: int| 0 <= c < n && (#[trigger] clusters@[c]).parent == p && has_sibling(clusters@, c)
                    implies exists|t: int| 0 <= t < groups@.len() && (#[trigger] groups@[t])@.contains(c as usize) by {
                    assert(groups@[pos as int] == group);
                }
            }
        } else {
            proof {
                assert forall|c: int| 0 <= c < n && (#[trigger] clusters@[c]).parent == p implies !has_sibling(clusters@, c) by {
                    if has_sibling(clusters@, c) {
                        let d = choose|d: int| 0 <= d < clusters@.len() && d != c && (#[trigger] clusters@[d]).parent == clusters@[c].parent;
                        assert(group@.contains(c as usize));
                        assert(group@.contains(d as usize));
                        let x = choose|x: int| 0 <= x < group@.len() && group@[x] == c as usize;
                        let y = choose|y: int| 0 <= y < group@.len() && group@[y] == d as usize;
                        assert(x != y);
                    }
                }
            }
        }
    }
    proof {
        if seen {
            assert(groups@ == old_groups);
        }
        assert forall|t: int| #![trigger old_groups[t]] 0 <= t < old_groups.len() implies exists|t2: int|
            0 <= t2 < groups@.len() && #[trigger] groups@[t2] == old_groups[t] by {
            if groups@ == old_groups {
                assert(groups@[t] == old_groups[t]);
            }
        }
    }
    proof {
        assert forall|t: int|
            0 <= t < groups@.len() implies exists|j: int|
                0 <= j < i + 1 && (#[trigger] clusters@[j]).parent == clusters@[(#[trigger] groups@[t])@[0] as int].parent by {
            assert(clusters@[i as int].parent == p);
        }
        assert forall|c: int|
            0 <= c < n && has_sibling(clusters@, c) && (exists|j: int| 0 <= j < i + 1 && (#[trigger] clusters@[j]).parent == clusters@[c].parent)
                implies exists|t: int| 0 <= t < groups@.len() && (#[trigger] groups@[t])@.contains(c as usize) by {
            if clusters@[c].parent == p && !seen {
            } else {
                let j = choose|j: int| 0 <= j < i + 1 && (#[trigger] clusters@[j]).parent == clusters@[c].parent;
                if j == i {
                    let q = choose|q: int| 0 <= q < i && (#[trigger] clusters@[q]).parent == p;
                    assert(clusters@[q].parent == clusters@[c].parent);
                }
                let t = choose|t: int| 0 <= t < old_groups.len() && (#[trigger] old_groups[t])@.contains(c as usize);
                let t2 = choose|t2: int| 0 <= t2 < groups@.len() && #[trigger] groups@[t2] == old_groups[t];
                assert(groups@[t2]@.contains(c as usize));
            }
        }
    }
}

/// The groups of sibling clusters, in declaration order within each group,
/// the groups ordered by their first cluster: every set of at least two
/// clusters that share a parent (or are all top level) forms one group.
pub fn declaration_sibling_cluster_groups(clusters: &[ClusterInternal]) -> (groups: Vec<Vec<usize>>)
    ensures
        forall|t: int| 0 <= t < groups@.len() ==> is_sibling_group(clusters@, (#[trigger] groups@[t])@),
        forall|a: int, b: int| 0 <= a < b < groups@.len() ==> (#[trigger] groups@[a])@[0] < (#[trigger] groups@[b])@[0],
        forall|c: int|
            0 <= c < clusters@.len() && has_sibling(clusters@, c) ==> exists|t: int|
                0 <= t < groups@.len() && (#[trigger] groups@[t])@.contains(c as usize),
{
    let n = clusters.len();
    let mut groups: Vec<Vec<usize>> = Vec::new();
    let mut i: usize = 0;
    while i < n
        invariant
            i <= n,
            n == clusters@.len(),
            groups_so_far(clusters@, groups@, i as int),
        decreases n - i,
    {
        add_group_of(&mut groups, clusters, i);
        i += 1;
    }
    proof {
        assert forall|c: int|
            0 <= c < clusters@.len() && has_sibling(clusters@, c) implies exists|t: int|
                0 <= t < groups@.len() && (#[trigger] groups@[t])@.contains(c as usize) by {
            // `c` itself is one of the clusters gone through with its parent
            assert(clusters@[c].parent == clusters@[c].parent);
        }
    }
    groups
}

} // verus!
