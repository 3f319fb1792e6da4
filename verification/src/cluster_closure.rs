//! Preparing declared clusters for the cluster constraints: each cluster's
//! node list is sorted, and every cluster takes in the nodes of the clusters
//! nested in it, however deep.
use vstd::prelude::*;

use crate::cluster_order::{
    contiguous_order, enforce_cluster_contiguity, is_member, law_contiguity_keeps_nodes_and_groups_members, memberships_sorted,
};
use crate::cluster_tree::ClusterInternal;
use crate::membership::{law_merge_is_sorted_union, merge_sorted_unique_usize, merged_target, strictly_sorted};

verus! {

/// Every id of `small` is in `big`.
pub open spec fn includes(big: Seq<usize>, small: Seq<usize>) -> bool {
    forall|x: usize| #[trigger] small.contains(x) ==> big.contains(x)
}

/// Sorts `list` and drops repeated ids.
pub fn sort_dedup(list: &mut Vec<usize>)
    ensures
        strictly_sorted(final(list)@),
        forall|x: usize| #[trigger] final(list)@.contains(x) <==> old(list)@.contains(x),
{
    let ghost original = list@;
    let mut sorted: Vec<usize> = Vec::new();
    let mut i: usize = 0;
    while i < list.len()
        invariant
            i <= original.len(),
            list@ == original,
            strictly_sorted(sorted@),
            forall|x: usize| #[trigger] sorted@.contains(x) <==> original.subrange(0, i as int).contains(x),
        decreases list.len() - i,
    {
        let one: Vec<usize> = vec![list[i]];
        let ghost before = sorted@;
        proof {
            law_merge_is_sorted_union(before, one@);
        }
        merge_sorted_unique_usize(&mut sorted, one.as_slice());
        proof {
            let pre = original.subrange(0, i as int);
            let post = original.subrange(0, i + 1);
            assert(post =~= pre.push(original[i as int]));
            assert(sorted@ == merged_target(before, one@));
            assert forall|x: usize| #[trigger] sorted@.contains(x) <==> post.contains(x) by {
                assert(one@.contains(x) <==> x == original[i as int]) by {
                    if x == original[i as int] {
                        assert(one@[0] == x);
                    }
                }
                if pre.contains(x) {
                    let k = choose|k: int| 0 <= k < pre.len() && pre[k] == x;
                    assert(post[k] == x);
                }
                if x == original[i as int] {
                    assert(post[i as int] == x);
                }
                if post.contains(x) {
                    let k = choose|k: int| 0 <= k < post.len() && post[k] == x;
                    if k < i {
                        assert(pre[k] == x);
                    }
                }
            }
        }
        i += 1;
    }
    proof {
        assert(original.subrange(0, original.len() as int) =~= original);
    }
    *list = sorted;
}

/// Merges the nodes of `child` into `parent`; returns whether `parent`
/// gained a node.
pub fn merge_cluster_nodes(parent: &mut ClusterInternal, child: &ClusterInternal) -> (changed: bool)
    ensures
        final(parent).node_indices@ == merged_target(old(parent).node_indices@, child.node_indices@),
        final(parent).declaration_index == old(parent).declaration_index,
        final(parent).parent == old(parent).parent,
        changed == (final(parent).node_indices@ != old(parent).node_indices@),
{
    merge_sorted_unique_usize(&mut parent.node_indices, child.node_indices.as_slice())
}

/// Nodes that cluster `c` lists; none where the cluster was dropped.
pub open spec fn members(cl: Seq<Option<ClusterInternal>>, c: int) -> Seq<usize> {
    if 0 <= c < cl.len() {
        match cl[c] {
            Some(ci) => ci.node_indices@,
            None => Seq::empty(),
        }
    } else {
        Seq::empty()
    }
}

/// The cluster that cluster `x` hands its nodes to: its parent, where both
/// are present and the parent is another cluster.
pub open spec fn merge_link(cl: Seq<Option<ClusterInternal>>, x: int) -> Option<int> {
    if 0 <= x < cl.len() && cl[x] is Some {
        match cl[x]->0.parent {
            Some(p) => if (p as int) < cl.len() && p as int != x && cl[p as int] is Some {
                Some(p as int)
            } else {
                None
            },
            None => None,
        }
    } else {
        None
    }
}

/// The cluster reached from cluster `d` by following `k` merge links.
pub open spec fn ancestor(cl: Seq<Option<ClusterInternal>>, d: int, k: nat) -> Option<int>
    decreases k,
{
    if k == 0 {
        if 0 <= d < cl.len() && cl[d] is Some {
            Some(d)
        } else {
            None
        }
    } else {
        match ancestor(cl, d, (k - 1) as nat) {
            Some(a) => merge_link(cl, a),
            None => None,
        }
    }
}

/// Node `x` is listed by cluster `c` or by a cluster nested in it, however deep.
pub open spec fn gathered(cl: Seq<Option<ClusterInternal>>, c: int, x: usize) -> bool {
    exists|d: int, k: nat|
        #![trigger ancestor(cl, d, k), members(cl, d).contains(x)]
        ancestor(cl, d, k) == Some(c) && members(cl, d).contains(x)
}

/// `a` and `b` hold the same clusters with the same parents and declaration
/// positions; only node lists may differ.
pub open spec fn same_links(a: Seq<Option<ClusterInternal>>, b: Seq<Option<ClusterInternal>>) -> bool {
    &&& a.len() == b.len()
    &&& forall|i: int|
        0 <= i < a.len() ==> (#[trigger] a[i] is Some <==> b[i] is Some) && (a[i] is Some ==> a[i]->0.parent
            == b[i]->0.parent && a[i]->0.declaration_index == b[i]->0.declaration_index)
}

/// A copy of `list`.
pub(crate) fn copy_list(list: &[usize]) -> (copy: Vec<usize>)
    ensures
        copy@ == list@,
{
    let mut copy: Vec<usize> = Vec::new();
    let mut i: usize = 0;
    while i < list.len()
        invariant
            i <= list@.len(),
            copy@ == list@.subrange(0, i as int),
        decreases list.len() - i,
    {
        copy.push(list[i]);
        i += 1;
        assert(copy@ == list@.subrange(0, i as int));
    }
    assert(list@.subrange(0, list@.len() as int) =~= list@);
    copy
}

/// Merges the nodes of cluster `child_index` into cluster `parent_index`,
/// where both are present and distinct; returns whether the parent gained a
/// node.
fn merge_into_parent(clusters: &mut Vec<Option<ClusterInternal>>, parent_index: usize, child_index: usize) -> (changed: bool)
    ensures
        same_links(old(clusters)@, final(clusters)@),
        ({
            let merges = parent_index != child_index && parent_index < old(clusters)@.len() && child_index
                < old(clusters)@.len() && old(clusters)@[parent_index as int] is Some && old(clusters)@[child_index as int] is Some;
            &&& merges ==> members(final(clusters)@, parent_index as int) == merged_target(
                members(old(clusters)@, parent_index as int),
                members(old(clusters)@, child_index as int),
            )
            &&& forall|c: int| c != parent_index || !merges ==> #[trigger] members(final(clusters)@, c) == members(old(clusters)@, c)
            &&& changed == (merges && members(final(clusters)@, parent_index as int) != members(old(clusters)@, parent_index as int))
        }),
{
    if parent_index == child_index || parent_index >= clusters.len() || child_index >= clusters.len() {
        return false;
    }
    let child_nodes: Vec<usize> = match &clusters[child_index] {
        Some(child) => copy_list(child.node_indices.as_slice()),
        None => {
            return false;
        },
    };
    match &mut clusters[parent_index] {
        Some(parent) => merge_sorted_unique_usize(&mut parent.node_indices, child_nodes.as_slice()),
        None => false,
    }
}


proof fn lemma_ancestor_in_range(cl: Seq<Option<ClusterInternal>>, d: int, k: nat)
    ensures
        ancestor(cl, d, k) matches Some(a) ==> 0 <= a < cl.len() && cl[a] is Some,
    decreases k,
{
    if k > 0 {
        lemma_ancestor_in_range(cl, d, (k - 1) as nat);
    }
}

proof fn lemma_ancestor_prefix(cl: Seq<Option<ClusterInternal>>, d: int, j: nat, k: nat)
    requires
        j <= k,
        ancestor(cl, d, k) is Some,
    ensures
        ancestor(cl, d, j) is Some,
    decreases k,
{
    if j < k {
        lemma_ancestor_prefix(cl, d, j, (k - 1) as nat);
    }
}

proof fn lemma_ancestor_shift(cl: Seq<Option<ClusterInternal>>, d: int, i: nat, j: nat, m: nat)
    requires
        ancestor(cl, d, i) == ancestor(cl, d, j),
    ensures
        ancestor(cl, d, i + m) == ancestor(cl, d, j + m),
    decreases m,
{
    if m > 0 {
        lemma_ancestor_shift(cl, d, i, j, (m - 1) as nat);
        assert(ancestor(cl, d, i + m) == match ancestor(cl, d, (i + m - 1) as nat) {
            Some(a) => merge_link(cl, a),
            None => None,
        });
        assert(ancestor(cl, d, j + m) == match ancestor(cl, d, (j + m - 1) as nat) {
            Some(a) => merge_link(cl, a),
            None => None,
        });
        assert((i + m - 1) as nat == i + (m - 1) as nat);
        assert((j + m - 1) as nat == j + (m - 1) as nat);
    }
}

/// Among `m + 1` values below `m`, two are equal.
proof fn lemma_pigeonhole(s: Seq<int>, m: nat)
    requires
        s.len() == m + 1,
        forall|i: int| 0 <= i < s.len() ==> 0 <= #[trigger] s[i] < m,
    ensures
        exists|i: int, j: int| 0 <= i < j < s.len() && s[i] == s[j],
    decreases m,
{
    if m == 0 {
        assert(0 <= s[0] < m);
    } else {
        let v = s[m as int];
        if exists|i: int| 0 <= i < m && s[i] == v {
            let i = choose|i: int| 0 <= i < m && s[i] == v;
            assert(0 <= i < m as int && s[i] == s[m as int]);
        } else {
            let t = Seq::new(m, |i: int| if s[i] > v { s[i] - 1 } else { s[i] });
            assert forall|i: int| 0 <= i < t.len() implies 0 <= #[trigger] t[i] < (m - 1) as nat by {
                assert(s[i] != v);
                assert(0 <= s[i] < m);
                assert(0 <= v < m);
            }
            lemma_pigeonhole(t, (m - 1) as nat);
            let (i, j) = choose|i: int, j: int| 0 <= i < j < t.len() && t[i] == t[j];
            assert(s[i] != v && s[j] != v);
            assert(s[i] == s[j]);
        }
    }
}

/// A cluster reached by following merge links is reached in fewer steps
/// than there are clusters.
proof fn lemma_ancestor_within(cl: Seq<Option<ClusterInternal>>, d: int, k: nat)
    requires
        ancestor(cl, d, k) is Some,
    ensures
        exists|k2: nat| k2 < cl.len() && #[trigger] ancestor(cl, d, k2) == ancestor(cl, d, k),
    decreases k,
{
    let n = cl.len();
    if k < n {
        assert(ancestor(cl, d, k) == ancestor(cl, d, k));
    } else {
        let s = Seq::new(n + 1, |i: int| ancestor(cl, d, i as nat)->0);
        assert forall|i: int| 0 <= i < s.len() implies 0 <= #[trigger] s[i] < n by {
            lemma_ancestor_prefix(cl, d, i as nat, k);
            lemma_ancestor_in_range(cl, d, i as nat);
        }
        lemma_pigeonhole(s, n);
        let (i, j) = choose|i: int, j: int| 0 <= i < j < s.len() && s[i] == s[j];
        lemma_ancestor_prefix(cl, d, i as nat, k);
        lemma_ancestor_prefix(cl, d, j as nat, k);
        assert(ancestor(cl, d, i as nat) == ancestor(cl, d, j as nat));
        let m = (k - j) as nat;
        lemma_ancestor_shift(cl, d, i as nat, j as nat, m);
        assert(j as nat + m == k);
        let k1 = (i as nat + m) as nat;
        assert(k1 < k);
        lemma_ancestor_within(cl, d, k1);
    }
}


/// The declared parent that a cluster keeps: one that names another cluster
/// among the `count` declared.
pub open spec fn kept_parent(parent: Option<usize>, index: int, count: int) -> Option<usize> {
    match parent {
        Some(p) => if (p as int) < count && p as int != index {
            Some(p)
        } else {
            None
        },
        None => None,
    }
}

/// Clusters whose node lists are sorted without repeats.
pub open spec fn lists_sorted(cl: Seq<Option<ClusterInternal>>) -> bool {
    forall|c: int| 0 <= c < cl.len() ==> strictly_sorted(#[trigger] members(cl, c))
}

/// Entry `c` of `after` is entry `c` of `before` with its parent kept only
/// where it names another declared cluster and its node list sorted without
/// repeats.
pub open spec fn normalized_entry(before: Seq<Option<ClusterInternal>>, after: Seq<Option<ClusterInternal>>, c: int) -> bool {
    &&& strictly_sorted(members(after, c))
    &&& (after[c] is Some <==> before[c] is Some)
    &&& after[c] is Some ==> after[c]->0.declaration_index == before[c]->0.declaration_index && after[c]->0.parent
        == kept_parent(before[c]->0.parent, c, before.len() as int)
    &&& forall|x: usize| #[trigger] members(after, c).contains(x) <==> members(before, c).contains(x)
}

/// Drops parents that do not name another declared cluster, and sorts each
/// cluster's node list without repeats.
fn normalize_clusters(clusters: &mut Vec<Option<ClusterInternal>>)
    ensures
        final(clusters)@.len() == old(clusters)@.len(),
        forall|c: int| 0 <= c < old(clusters)@.len() ==> #[trigger] normalized_entry(old(clusters)@, final(clusters)@, c),
{
    let ghost original = clusters@;
    let count = clusters.len();
    let mut i: usize = 0;
    while i < count
        invariant
            i <= count,
            count == original.len(),
            clusters@.len() == count,
            forall|c: int| i <= c < count ==> #[trigger] clusters@[c] == original[c],
            forall|c: int| 0 <= c < i ==> #[trigger] normalized_entry(original, clusters@, c),
        decreases count - i,
    {
        let ghost prev = clusters@;
        match &mut clusters[i] {
            Some(cluster) => {
                let kept = match cluster.parent {
                    Some(p) => if p < count && p != i {
                        Some(p)
                    } else {
                        None
                    },
                    None => None,
                };
                cluster.parent = kept;
                sort_dedup(&mut cluster.node_indices);
            },
            None => {},
        }
        proof {
            assert forall|c: int| 0 <= c < i + 1 implies #[trigger] normalized_entry(original, clusters@, c) by {
                if c < i {
                    assert(clusters@[c] == prev[c]);
                    assert(normalized_entry(original, prev, c));
                    assert(members(clusters@, c) == members(prev, c));
                } else {
                    assert(prev[c] == original[c]);
                }
            }
            assert forall|c: int| i + 1 <= c < count implies #[trigger] clusters@[c] == original[c] by {
                assert(clusters@[c] == prev[c]);
            }
        }
        i += 1;
    }
}


/// Every node that a cluster of `cur` lists was gathered into it from `init`.
pub open spec fn sound(init: Seq<Option<ClusterInternal>>, cur: Seq<Option<ClusterInternal>>) -> bool {
    forall|c: int, x: usize| #[trigger] members(cur, c).contains(x) ==> gathered(init, c, x)
}

/// Each cluster reached from a cluster `d` in at most `steps` merge links
/// already lists the nodes that `d` listed in `init`.
pub open spec fn reached_within(init: Seq<Option<ClusterInternal>>, cur: Seq<Option<ClusterInternal>>, steps: nat) -> bool {
    forall|d: int, k: nat|
        k <= steps && #[trigger] ancestor(init, d, k) is Some ==> includes(
            members(cur, ancestor(init, d, k)->0),
            members(init, d),
        )
}

/// Each cluster of `cur` lists every node of the clusters that hand it
/// their nodes.
pub open spec fn closed(init: Seq<Option<ClusterInternal>>, cur: Seq<Option<ClusterInternal>>) -> bool {
    forall|y: int|
        #[trigger] merge_link(init, y) is Some ==> includes(members(cur, merge_link(init, y)->0), members(cur, y))
}

proof fn lemma_same_links_trans(a: Seq<Option<ClusterInternal>>, b: Seq<Option<ClusterInternal>>, c: Seq<Option<ClusterInternal>>)
    requires
        same_links(a, b),
        same_links(b, c),
    ensures
        same_links(a, c),
{
    assert forall|i: int| 0 <= i < a.len() implies (#[trigger] a[i] is Some <==> c[i] is Some) && (a[i] is Some
        ==> a[i]->0.parent == c[i]->0.parent && a[i]->0.declaration_index == c[i]->0.declaration_index) by {
        assert(b[i] is Some <==> a[i] is Some);
    }
}

/// Merging a cluster into the one it hands its nodes to keeps the lists
/// sorted and every listed node gathered.
proof fn lemma_merge_step(
    init: Seq<Option<ClusterInternal>>,
    before: Seq<Option<ClusterInternal>>,
    after: Seq<Option<ClusterInternal>>,
    p: int,
    i: int,
)
    requires
        same_links(init, before),
        lists_sorted(before),
        sound(init, before),
        merge_link(init, i) == Some(p),
        after.len() == before.len(),
        members(after, p) == merged_target(members(before, p), members(before, i)),
        forall|c: int| c != p ==> #[trigger] members(after, c) == members(before, c),
    ensures
        lists_sorted(after),
        sound(init, after),
        includes(members(after, p), members(before, p)),
        includes(members(after, p), members(before, i)),
{
    law_merge_is_sorted_union(members(before, p), members(before, i));
    assert forall|c: int| 0 <= c < after.len() implies strictly_sorted(#[trigger] members(after, c)) by {
        if c != p {
            assert(strictly_sorted(members(before, c)));
        }
    }
    assert forall|c: int, x: usize| #[trigger] members(after, c).contains(x) implies gathered(init, c, x) by {
        if c != p {
            assert(members(before, c).contains(x));
        } else if members(before, p).contains(x) {
        } else {
            assert(members(before, i).contains(x));
            assert(gathered(init, i, x));
            let (d, k) = choose|d: int, k: nat|
                #![trigger ancestor(init, d, k), members(init, d).contains(x)]
                ancestor(init, d, k) == Some(i) && members(init, d).contains(x);
            assert(ancestor(init, d, k + 1) == Some(p));
        }
    }
}

/// Following merge links from `d` in a closed state leads only to clusters
/// that list every node `d` listed.
proof fn lemma_closed_reaches(init: Seq<Option<ClusterInternal>>, cur: Seq<Option<ClusterInternal>>, d: int, k: nat)
    requires
        closed(init, cur),
        reached_within(init, cur, 0),
        ancestor(init, d, k) is Some,
    ensures
        includes(members(cur, ancestor(init, d, k)->0), members(init, d)),
    decreases k,
{
    if k > 0 {
        let k1 = (k - 1) as nat;
        lemma_ancestor_prefix(init, d, k1, k);
        lemma_closed_reaches(init, cur, d, k1);
        let y = ancestor(init, d, k1)->0;
        assert(merge_link(init, y) is Some);
    } else {
        assert(ancestor(init, d, 0) is Some);
    }
}

/// Merges every cluster's nodes into the cluster it hands them to, pass
/// after pass, until a pass changes nothing or as many passes as there are
/// clusters were made. Afterwards each cluster lists exactly the nodes
/// gathered from the clusters nested in it.
fn close_over_nested(clusters: &mut Vec<Option<ClusterInternal>>)
    requires
        lists_sorted(old(clusters)@),
    ensures
        same_links(old(clusters)@, final(clusters)@),
        lists_sorted(final(clusters)@),
        forall|c: int, x: usize|
            0 <= c < old(clusters)@.len() ==> (#[trigger] members(final(clusters)@, c).contains(x) <==> gathered(
                old(clusters)@,
                c,
                x,
            )),
{
    let ghost init = clusters@;
    let n = clusters.len();
    let mut pass: usize = 0;
    proof {
        assert forall|d: int, k: nat|
            k <= 0 && #[trigger] ancestor(init, d, k) is Some implies includes(
            members(init, ancestor(init, d, k)->0),
            members(init, d),
        ) by {}
        assert forall|c: int, x: usize| #[trigger] members(init, c).contains(x) implies gathered(init, c, x) by {
            assert(ancestor(init, c, 0) == Some(c)) by {
                if !(0 <= c < init.len() && init[c] is Some) {
                    assert(members(init, c) =~= Seq::<usize>::empty());
                }
            }
        }
    }
    while pass < n
        invariant
            pass <= n,
            n == init.len(),
            same_links(init, clusters@),
            lists_sorted(clusters@),
            sound(init, clusters@),
            reached_within(init, clusters@, pass as nat),
        ensures
            same_links(init, clusters@),
            lists_sorted(clusters@),
            sound(init, clusters@),
            reached_within(init, clusters@, 0),
            (pass == n && reached_within(init, clusters@, n as nat)) || closed(init, clusters@),
        decreases n - pass,
    {
        let ghost start = clusters@;
        let mut changed = false;
        let mut i: usize = 0;
        while i < n
            invariant
                i <= n,
                n == init.len(),
                start.len() == n,
                same_links(init, start),
                same_links(init, clusters@),
                lists_sorted(clusters@),
                sound(init, clusters@),
                reached_within(init, start, pass as nat),
                forall|c: int| #[trigger] members(clusters@, c) == members(start, c) || includes(members(clusters@, c), members(start, c)),
                forall|y: int|
                    0 <= y < i && #[trigger] merge_link(init, y) is Some ==> includes(
                        members(clusters@, merge_link(init, y)->0),
                        members(start, y),
                    ),
                !changed ==> forall|c: int| #[trigger] members(clusters@, c) == members(start, c),
            decreases n - i,
        {
            let ghost before = clusters@;
            let parent = match &clusters[i] {
                Some(cluster) => cluster.parent,
                None => None,
            };
            match parent {
                Some(p) => {
                    let merged = merge_into_parent(clusters, p, i);
                    proof {
                        lemma_same_links_trans(init, before, clusters@);
                        if merge_link(init, i as int) is Some {
                            assert(merge_link(init, i as int) == Some(p as int));
                            lemma_merge_step(init, before, clusters@, p as int, i as int);
                        } else {
                            assert forall|c: int| #[trigger] members(clusters@, c) == members(before, c) by {}
                        }
                    }
                    if merged {
                        changed = true;
                    }
                },
                None => {
                    assert(merge_link(init, i as int) is None);
                },
            }
            proof {
                assert forall|c: int| #[trigger] members(clusters@, c) == members(start, c) || includes(
                    members(clusters@, c),
                    members(start, c),
                ) by {
                    assert(members(before, c) == members(start, c) || includes(members(before, c), members(start, c)));
                }
                assert forall|y: int|
                    0 <= y < i + 1 && #[trigger] merge_link(init, y) is Some implies includes(
                    members(clusters@, merge_link(init, y)->0),
                    members(start, y),
                ) by {
                    let q = merge_link(init, y)->0;
                    assert(members(before, q) == members(start, q) || includes(members(before, q), members(start, q)));
                    if y < i {
                        assert(includes(members(before, q), members(start, y)));
                    } else {
                        assert(members(before, y) == members(start, y) || includes(members(before, y), members(start, y)));
                    }
                }
            }
            i += 1;
        }
        proof {
            assert forall|d: int, k: nat|
                k <= pass + 1 && #[trigger] ancestor(init, d, k) is Some implies includes(
                members(clusters@, ancestor(init, d, k)->0),
                members(init, d),
            ) by {
                let c = ancestor(init, d, k)->0;
                lemma_ancestor_in_range(init, d, k);
                assert(members(clusters@, c) == members(start, c) || includes(members(clusters@, c), members(start, c)));
                if k <= pass {
                    assert(includes(members(start, c), members(init, d)));
                } else {
                    let k1 = (k - 1) as nat;
                    lemma_ancestor_prefix(init, d, k1, k);
                    lemma_ancestor_in_range(init, d, k1);
                    let y = ancestor(init, d, k1)->0;
                    assert(merge_link(init, y) == Some(c));
                    assert(includes(members(start, y), members(init, d)));
                    assert(includes(members(clusters@, c), members(start, y)));
                }
            }
        }
        if !changed {
            proof {
                assert forall|y: int|
                    #[trigger] merge_link(init, y) is Some implies includes(
                    members(clusters@, merge_link(init, y)->0),
                    members(clusters@, y),
                ) by {
                    assert(0 <= y < n);
                    assert(members(clusters@, y) == members(start, y));
                }
            }
            break;
        }
        pass += 1;
    }
    proof {
        assert forall|c: int, x: usize|
            0 <= c < init.len() && gathered(init, c, x) implies #[trigger] members(clusters@, c).contains(x) by {
            let (d, k) = choose|d: int, k: nat|
                #![trigger ancestor(init, d, k), members(init, d).contains(x)]
                ancestor(init, d, k) == Some(c) && members(init, d).contains(x);
            if closed(init, clusters@) {
                lemma_closed_reaches(init, clusters@, d, k);
            } else {
                lemma_ancestor_within(init, d, k);
                let k2 = choose|k2: nat| k2 < init.len() && #[trigger] ancestor(init, d, k2) == ancestor(init, d, k);
                assert(ancestor(init, d, k2) is Some);
            }
        }
    }
}


/// The clusters of `cl` among the first `upto` that are present and gather
/// at least one node, by declaration position.
pub open spec fn nonempty_clusters(cl: Seq<Option<ClusterInternal>>, upto: int) -> Seq<int>
    decreases upto,
{
    if upto <= 0 {
        Seq::empty()
    } else {
        let prev = nonempty_clusters(cl, upto - 1);
        if cl[upto - 1] is Some && exists|x: usize| #[trigger] gathered(cl, upto - 1, x) {
            prev.push(upto - 1)
        } else {
            prev
        }
    }
}

proof fn lemma_same_ancestors(a: Seq<Option<ClusterInternal>>, b: Seq<Option<ClusterInternal>>, d: int, k: nat)
    requires
        a.len() == b.len(),
        forall|i: int| 0 <= i < a.len() ==> (#[trigger] a[i] is Some <==> b[i] is Some),
        forall|x: int| #[trigger] merge_link(a, x) == merge_link(b, x),
    ensures
        ancestor(a, d, k) == ancestor(b, d, k),
    decreases k,
{
    if k > 0 {
        lemma_same_ancestors(a, b, d, (k - 1) as nat);
    }
}

/// Normalizing keeps the merge links and the nodes that each cluster gathers.
proof fn lemma_normalized_gathers(orig: Seq<Option<ClusterInternal>>, norm: Seq<Option<ClusterInternal>>)
    requires
        norm.len() == orig.len(),
        forall|c: int| 0 <= c < orig.len() ==> #[trigger] normalized_entry(orig, norm, c),
    ensures
        forall|c: int, x: usize| #[trigger] gathered(norm, c, x) <==> gathered(orig, c, x),
        forall|c: int| 0 <= c < orig.len() ==> (#[trigger] norm[c] is Some <==> orig[c] is Some),
{
    assert forall|c: int| 0 <= c < orig.len() implies (#[trigger] norm[c] is Some <==> orig[c] is Some) by {
        assert(normalized_entry(orig, norm, c));
    }
    assert forall|x: int| #[trigger] merge_link(norm, x) == merge_link(orig, x) by {
        if 0 <= x < orig.len() {
            assert(normalized_entry(orig, norm, x));
            if orig[x] is Some {
                match orig[x]->0.parent {
                    Some(p) => {
                        if (p as int) < orig.len() && p as int != x {
                            assert(normalized_entry(orig, norm, p as int));
                        }
                    },
                    None => {},
                }
            }
        }
    }
    assert forall|c: int, x: usize| #[trigger] gathered(norm, c, x) <==> gathered(orig, c, x) by {
        if gathered(norm, c, x) {
            let (d, k) = choose|d: int, k: nat|
                #![trigger ancestor(norm, d, k), members(norm, d).contains(x)]
                ancestor(norm, d, k) == Some(c) && members(norm, d).contains(x);
            lemma_same_ancestors(norm, orig, d, k);
            lemma_ancestor_in_range(norm, d, 0);
            lemma_ancestor_prefix(norm, d, 0, k);
            assert(normalized_entry(orig, norm, d));
            assert(members(orig, d).contains(x));
            assert(ancestor(orig, d, k) == Some(c));
        }
        if gathered(orig, c, x) {
            let (d, k) = choose|d: int, k: nat|
                #![trigger ancestor(orig, d, k), members(orig, d).contains(x)]
                ancestor(orig, d, k) == Some(c) && members(orig, d).contains(x);
            lemma_same_ancestors(norm, orig, d, k);
            lemma_ancestor_prefix(orig, d, 0, k);
            assert(normalized_entry(orig, norm, d));
            assert(members(norm, d).contains(x));
            assert(ancestor(norm, d, k) == Some(c));
        }
    }
}

/// Prepares the declared clusters for the cluster constraints. A cluster
/// given as `None` names a node that is not laid out and is dropped. A kept
/// parent must name another declared cluster. Each cluster then takes in the
/// nodes of the clusters nested in it, however deep, through present
/// parents. The result holds, in declaration order, the present clusters
/// that hold at least one node, each with its nodes sorted without repeats.
pub fn prepare_constraint_clusters(clusters: Vec<Option<ClusterInternal>>) -> (internals: Vec<ClusterInternal>)
    ensures
        internals@.len() == nonempty_clusters(clusters@, clusters@.len() as int).len(),
        forall|j: int|
            0 <= j < internals@.len() ==> {
                let c = nonempty_clusters(clusters@, clusters@.len() as int)[j];
                &&& 0 <= c < clusters@.len()
                &&& clusters@[c] is Some
                &&& (#[trigger] internals@[j]).declaration_index == clusters@[c]->0.declaration_index
                &&& internals@[j].parent == kept_parent(clusters@[c]->0.parent, c, clusters@.len() as int)
                &&& strictly_sorted(internals@[j].node_indices@)
                &&& forall|x: usize| #[trigger] internals@[j].node_indices@.contains(x) <==> gathered(clusters@, c, x)
            },
{
    let ghost orig = clusters@;
    let mut clusters = clusters;
    normalize_clusters(&mut clusters);
    let ghost norm = clusters@;
    proof {
        lemma_normalized_gathers(orig, norm);
        assert forall|c: int| 0 <= c < norm.len() implies strictly_sorted(#[trigger] members(norm, c)) by {
            assert(normalized_entry(orig, norm, c));
        }
    }
    close_over_nested(&mut clusters);
    let mut internals: Vec<ClusterInternal> = Vec::new();
    let mut i: usize = 0;
    while i < clusters.len()
        invariant
            i <= clusters@.len(),
            clusters@.len() == orig.len(),
            norm.len() == orig.len(),
            same_links(norm, clusters@),
            lists_sorted(clusters@),
            forall|c: int| 0 <= c < orig.len() ==> #[trigger] normalized_entry(orig, norm, c),
            forall|c: int, x: usize|
                0 <= c < orig.len() ==> (#[trigger] members(clusters@, c).contains(x) <==> gathered(orig, c, x)),
            internals@.len() == nonempty_clusters(orig, i as int).len(),
            forall|j: int|
                0 <= j < internals@.len() ==> {
                    let c = nonempty_clusters(orig, i as int)[j];
                    &&& 0 <= c < i
                    &&& orig[c] is Some
                    &&& (#[trigger] internals@[j]).declaration_index == orig[c]->0.declaration_index
                    &&& internals@[j].parent == kept_parent(orig[c]->0.parent, c, orig.len() as int)
                    &&& strictly_sorted(internals@[j].node_indices@)
                    &&& forall|x: usize| #[trigger] internals@[j].node_indices@.contains(x) <==> gathered(orig, c, x)
                },
        decreases clusters@.len() - i,
    {
        let ghost before = internals@;
        let ghost c = i as int;
        proof {
            assert(normalized_entry(orig, norm, c));
            assert(norm[c] is Some <==> clusters@[c] is Some);
        }
        match &clusters[i] {
            Some(cluster) => {
                if cluster.node_indices.len() > 0 {
                    let kept = ClusterInternal {
                        declaration_index: cluster.declaration_index,
                        node_indices: copy_list(cluster.node_indices.as_slice()),
                        parent: cluster.parent,
                    };
                    internals.push(kept);
                    proof {
                        assert(members(clusters@, c).contains(members(clusters@, c)[0]));
                        assert(gathered(orig, c, members(clusters@, c)[0]));
                        assert(nonempty_clusters(orig, c + 1) == nonempty_clusters(orig, c).push(c));
                    }
                } else {
                    proof {
                        assert forall|x: usize| !gathered(orig, c, x) by {
                            if gathered(orig, c, x) {
                                assert(members(clusters@, c).contains(x));
                            }
                        }
                        assert(nonempty_clusters(orig, c + 1) == nonempty_clusters(orig, c));
                    }
                }
            },
            None => {
                proof {
                    assert(nonempty_clusters(orig, c + 1) == nonempty_clusters(orig, c));
                }
            },
        }
        proof {
            assert forall|j: int| 0 <= j < before.len() implies #[trigger] internals@[j] == before[j] by {}
        }
        i += 1;
    }
    internals
}


/// Law: a cluster gathers the nodes it lists itself and every node gathered
/// by a cluster that hands it its nodes, so prepared clusters hold the nodes
/// of all the clusters nested in them.
pub proof fn law_gathering_is_upward_closed(cl: Seq<Option<ClusterInternal>>, y: int, x: usize)
    ensures
        0 <= y < cl.len() && cl[y] is Some && members(cl, y).contains(x) ==> gathered(cl, y, x),
        merge_link(cl, y) is Some && gathered(cl, y, x) ==> gathered(cl, merge_link(cl, y)->0, x),
{
    if 0 <= y < cl.len() && cl[y] is Some && members(cl, y).contains(x) {
        assert(ancestor(cl, y, 0) == Some(y));
    }
    if merge_link(cl, y) is Some && gathered(cl, y, x) {
        let (d, k) = choose|d: int, k: nat|
            #![trigger ancestor(cl, d, k), members(cl, d).contains(x)]
            ancestor(cl, d, k) == Some(y) && members(cl, d).contains(x);
        assert(ancestor(cl, d, k + 1) == merge_link(cl, y));
    }
}

/// Cluster `a` is constrained before cluster `b`: it holds more nodes, or as
/// many and was declared earlier.
pub open spec fn constrained_before(clusters: Seq<ClusterInternal>, a: usize, b: usize) -> bool {
    ||| clusters[a as int].node_indices@.len() > clusters[b as int].node_indices@.len()
    ||| (clusters[a as int].node_indices@.len() == clusters[b as int].node_indices@.len() && a < b)
}

/// The order in which the cluster constraints are applied: every cluster
/// index once, larger clusters first, ties in index order.
pub fn cluster_constraint_order(clusters: &[ClusterInternal]) -> (order: Vec<usize>)
    ensures
        order@.len() == clusters@.len(),
        forall|i: int| 0 <= i < order@.len() ==> #[trigger] order@[i] < clusters@.len(),
        forall|i: int, j: int|
            0 <= i < j < order@.len() ==> constrained_before(clusters@, #[trigger] order@[i], #[trigger] order@[j]),
{
    let n = clusters.len();
    let mut order: Vec<usize> = Vec::new();
    let mut idx: usize = 0;
    while idx < n
        invariant
            idx <= n,
            n == clusters@.len(),
            order@.len() == idx,
            forall|i: int| 0 <= i < order@.len() ==> #[trigger] order@[i] < idx,
            forall|i: int, j: int|
                0 <= i < j < order@.len() ==> constrained_before(clusters@, #[trigger] order@[i], #[trigger] order@[j]),
        decreases n - idx,
    {
        let size = clusters[idx].node_indices.len();
        let mut pos: usize = 0;
        while pos < order.len() && clusters[order[pos]].node_indices.len() >= size
            invariant
                pos <= order@.len(),
                n == clusters@.len(),
                size == clusters@[idx as int].node_indices@.len(),
                idx < n,
                forall|i: int| 0 <= i < order@.len() ==> #[trigger] order@[i] < idx,
                forall|k: int| 0 <= k < pos ==> clusters@[#[trigger] order@[k] as int].node_indices@.len() >= size,
            decreases order.len() - pos,
        {
            pos += 1;
        }
        let ghost before = order@;
        order.insert(pos, idx);
        proof {
            assert forall|i: int| 0 <= i < order@.len() implies #[trigger] order@[i] < idx + 1 by {
                if i < pos {
                    assert(order@[i] == before[i]);
                } else if i > pos {
                    assert(order@[i] == before[i - 1]);
                }
            }
            assert forall|i: int, j: int|
                0 <= i < j < order@.len() implies constrained_before(clusters@, #[trigger] order@[i], #[trigger] order@[j]) by {
                if j < pos {
                    assert(order@[i] == before[i] && order@[j] == before[j]);
                } else if j == pos {
                    assert(order@[i] == before[i]);
                    assert(before[i] < idx);
                } else if i < pos {
                    assert(order@[i] == before[i] && order@[j] == before[j - 1]);
                } else if i == pos {
                    assert(order@[j] == before[j - 1]);
                    assert(clusters@[before[pos as int] as int].node_indices@.len() < size);
                    if j - 1 > pos {
                        assert(constrained_before(clusters@, before[pos as int], before[j - 1]));
                    }
                } else {
                    assert(order@[i] == before[i - 1] && order@[j] == before[j - 1]);
                }
            }
        }
        idx += 1;
    }
    order
}


/// A rank after the members of the first `k` clusters of `order` were
/// gathered, one cluster after the other.
pub open spec fn gathered_rank(rank: Seq<usize>, memberships: Seq<Vec<usize>>, order: Seq<usize>, k: int) -> Seq<usize>
    decreases k,
{
    if k <= 0 {
        rank
    } else {
        contiguous_order(gathered_rank(rank, memberships, order, k - 1), memberships, order[k - 1])
    }
}

/// One pass of the cluster constraints: for each cluster in `order`, its
/// members are gathered into one block in every rank.
pub fn enforce_cluster_constraints_pass(ranks: &mut Vec<Vec<usize>>, memberships: &[Vec<usize>], order: &[usize])
    requires
        memberships_sorted(memberships@),
    ensures
        final(ranks)@.len() == old(ranks)@.len(),
        forall|r: int|
            0 <= r < old(ranks)@.len() ==> (#[trigger] final(ranks)@[r])@ == gathered_rank(
                old(ranks)@[r]@,
                memberships@,
                order@,
                order@.len() as int,
            ),
{
    let ghost original = ranks@;
    let mut k: usize = 0;
    while k < order.len()
        invariant
            k <= order@.len(),
            memberships_sorted(memberships@),
            ranks@.len() == original.len(),
            forall|r: int|
                0 <= r < original.len() ==> (#[trigger] ranks@[r])@ == gathered_rank(original[r]@, memberships@, order@, k as int),
        decreases order.len() - k,
    {
        let cluster = order[k];
        let mut r: usize = 0;
        while r < ranks.len()
            invariant
                r <= ranks@.len(),
                k < order@.len(),
                cluster == order@[k as int],
                memberships_sorted(memberships@),
                ranks@.len() == original.len(),
                forall|q: int|
                    0 <= q < r ==> (#[trigger] ranks@[q])@ == gathered_rank(original[q]@, memberships@, order@, k + 1),
                forall|q: int|
                    r <= q < original.len() ==> (#[trigger] ranks@[q])@ == gathered_rank(original[q]@, memberships@, order@, k as int),
            decreases ranks.len() - r,
        {
            let ghost before = ranks@;
            enforce_cluster_contiguity(&mut ranks[r], memberships, cluster);
            proof {
                assert forall|q: int| 0 <= q < r + 1 implies (#[trigger] ranks@[q])@ == gathered_rank(
                    original[q]@,
                    memberships@,
                    order@,
                    k + 1,
                ) by {
                    if q < r {
                        assert(ranks@[q] == before[q]);
                    }
                }
                assert forall|q: int| r + 1 <= q < original.len() implies (#[trigger] ranks@[q])@ == gathered_rank(
                    original[q]@,
                    memberships@,
                    order@,
                    k as int,
                ) by {
                    assert(ranks@[q] == before[q]);
                }
            }
            r += 1;
        }
        k += 1;
    }
}

/// Law: a pass of the cluster constraints keeps every rank's nodes, and
/// leaves the members of the last cluster in the order in one unbroken
/// block.
pub proof fn law_constraint_pass_keeps_nodes(rank: Seq<usize>, memberships: Seq<Vec<usize>>, order: Seq<usize>, k: int)
    requires
        0 <= k <= order.len(),
    ensures
        gathered_rank(rank, memberships, order, k).to_multiset() == rank.to_multiset(),
        k > 0 ==> forall|i: int, j: int, m: int|
            0 <= i < j < m < gathered_rank(rank, memberships, order, k).len() && is_member(
                memberships,
                #[trigger] gathered_rank(rank, memberships, order, k)[i],
                order[k - 1],
            ) && is_member(memberships, #[trigger] gathered_rank(rank, memberships, order, k)[m], order[k - 1])
                ==> is_member(memberships, #[trigger] gathered_rank(rank, memberships, order, k)[j], order[k - 1]),
    decreases k,
{
    if k > 0 {
        law_constraint_pass_keeps_nodes(rank, memberships, order, k - 1);
        law_contiguity_keeps_nodes_and_groups_members(gathered_rank(rank, memberships, order, k - 1), memberships, order[k - 1]);
    }
}

} // verus!
