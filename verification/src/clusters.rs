//! Clusters as the layout reads them: the input nodes they hold and the
//! cluster they are nested in, and the chains of nested clusters derived
//! from them.
use std::collections::HashMap;

use vstd::prelude::*;

use crate::crossings::LayerNode;

verus! {

/// A cluster of input nodes, possibly nested in a parent cluster.
#[derive(Debug, Clone)]
pub struct Cluster {
    nodes: Vec<u32>,
    parent: Option<usize>,
}

impl Cluster {
    /// The ids of the input nodes the cluster holds.
    pub closed spec fn members(self) -> Seq<u32> {
        self.nodes@
    }

    /// The index of the cluster this one is nested in.
    pub closed spec fn parent_link(self) -> Option<usize> {
        self.parent
    }

    /// A top-level cluster holding `nodes`.
    pub fn new(nodes: Vec<u32>) -> (c: Self)
        ensures
            c.members() == nodes@,
            c.parent_link() == None::<usize>,
    {
        Cluster { nodes, parent: None }
    }

    /// The same cluster, nested in cluster `parent`.
    pub fn parent(self, parent: usize) -> (c: Self)
        ensures
            c.members() == self.members(),
            c.parent_link() == Some(parent),
    {
        Cluster { nodes: self.nodes, parent: Some(parent) }
    }

    /// The ids of the input nodes the cluster holds.
    pub fn nodes(&self) -> (ids: &[u32])
        ensures
            ids@ == self.members(),
    {
        self.nodes.as_slice()
    }

    /// The index of the cluster this one is nested in.
    pub fn parent_index(&self) -> (p: Option<usize>)
        ensures
            p == self.parent_link(),
    {
        self.parent
    }
}

/// The parent links of all clusters.
pub open spec fn parent_links(clusters: Seq<Cluster>) -> Seq<Option<usize>> {
    Seq::new(clusters.len(), |i: int| clusters[i].parent_link())
}

/// The clusters met going up from `cur` through the parent links, at most
/// `budget` of them, stopping at a missing link or an index that names no
/// cluster.
pub open spec fn upward_chain(parents: Seq<Option<usize>>, cur: Option<usize>, budget: nat) -> Seq<usize>
    decreases budget,
{
    match cur {
        None => Seq::empty(),
        Some(c) => if c >= parents.len() || budget == 0 {
            Seq::empty()
        } else {
            seq![c] + upward_chain(parents, parents[c as int], (budget - 1) as nat)
        },
    }
}

/// The chain of clusters from the outermost one down to `start`: the
/// parent links followed up from `start` (at most one more step than there
/// are clusters), reversed.
pub fn cluster_lineage(clusters: &[Cluster], start: usize) -> (lineage: Vec<usize>)
    requires
        clusters@.len() < usize::MAX,
    ensures
        lineage@ == upward_chain(parent_links(clusters@), Some(start), (clusters@.len() + 1) as nat).reverse(),
{
    let ghost parents = parent_links(clusters@);
    let ghost total = upward_chain(parents, Some(start), (clusters@.len() + 1) as nat);
    let n = clusters.len();
    let mut upward: Vec<usize> = Vec::new();
    let mut cursor: Option<usize> = Some(start);
    let mut guard: usize = 0;
    loop
        invariant
            n == clusters@.len(),
            parents == parent_links(clusters@),
            guard <= n + 1,
            n < usize::MAX,
            upward@ + upward_chain(parents, cursor, (n + 1 - guard) as nat) == total,
        ensures
            upward@ == total,
        decreases n + 1 - guard,
    {
        let current = match cursor {
            Some(c) => c,
            None => {
                proof {
                    assert(upward@ + Seq::<usize>::empty() =~= upward@);
                }
                break;
            },
        };
        if current >= n || guard > n {
            proof {
                assert(upward_chain(parents, cursor, (n + 1 - guard) as nat) =~= Seq::<usize>::empty());
                assert(upward@ + Seq::<usize>::empty() =~= upward@);
            }
            break;
        }
        let ghost rest = upward_chain(parents, parents[current as int], (n - guard) as nat);
        proof {
            assert(upward_chain(parents, cursor, (n + 1 - guard) as nat) == seq![current] + rest);
            assert(upward@.push(current) + rest =~= upward@ + (seq![current] + rest));
        }
        upward.push(current);
        cursor = clusters[current].parent_index();
        guard += 1;
    }
    let mut lineage: Vec<usize> = Vec::new();
    let mut k: usize = upward.len();
    while k > 0
        invariant
            k <= upward@.len(),
            lineage@ == upward@.subrange(k as int, upward@.len() as int).reverse(),
        decreases k,
    {
        k -= 1;
        lineage.push(upward[k]);
        proof {
            assert(upward@.subrange(k as int, upward@.len() as int).reverse() =~= upward@.subrange(
                k + 1,
                upward@.len() as int,
            ).reverse().push(upward@[k as int]));
        }
    }
    proof {
        assert(upward@.subrange(0, upward@.len() as int) =~= upward@);
    }
    lineage
}

/// The parent map after recording, in order, the first `k` positions of
/// `path` on top of `m`: a cluster not yet in the map gets the cluster
/// before it in the path (none at the front).
pub open spec fn record_path(m: Map<usize, Option<usize>>, path: Seq<usize>, k: int) -> Map<usize, Option<usize>>
    decreases k,
{
    if k <= 0 {
        m
    } else {
        let prev = record_path(m, path, k - 1);
        let c = path[k - 1];
        if prev.contains_key(c) {
            prev
        } else {
            prev.insert(
                c,
                if k - 1 == 0 {
                    None
                } else {
                    Some(path[k - 2])
                },
            )
        }
    }
}

/// The parent map after recording the cluster paths of the first `k`
/// nodes.
pub open spec fn recorded_parents(nodes: Seq<LayerNode>, k: int) -> Map<usize, Option<usize>>
    decreases k,
{
    if k <= 0 {
        Map::empty()
    } else {
        let path = nodes[k - 1].cluster_path@;
        record_path(recorded_parents(nodes, k - 1), path, path.len() as int)
    }
}

/// The parent of every cluster named in a node's cluster path, as the
/// first path (in node order) that names it gives it: the cluster before
/// it there, or none at the front.
pub fn cluster_parent_map(nodes: &[LayerNode]) -> (parents: HashMap<usize, Option<usize>>)
    ensures
        parents@ == recorded_parents(nodes@, nodes@.len() as int),
{
    broadcast use vstd::std_specs::hash::group_hash_axioms;

    let mut parents: HashMap<usize, Option<usize>> = HashMap::new();
    let mut v: usize = 0;
    proof {
        assert(parents@ =~= recorded_parents(nodes@, 0));
    }
    while v < nodes.len()
        invariant
            v <= nodes@.len(),
            parents@ == recorded_parents(nodes@, v as int),
        decreases nodes.len() - v,
    {
        let path = &nodes[v].cluster_path;
        let ghost base = recorded_parents(nodes@, v as int);
        let mut i: usize = 0;
        while i < path.len()
            invariant
                i <= path@.len(),
                v < nodes@.len(),
                path@ == nodes@[v as int].cluster_path@,
                parents@ == record_path(base, path@, i as int),
            decreases path.len() - i,
        {
            let cluster = path[i];
            let parent: Option<usize> = if i == 0 {
                None
            } else {
                Some(path[i - 1])
            };
            if !parents.contains_key(&cluster) {
                parents.insert(cluster, parent);
            }
            i += 1;
        }
        v += 1;
    }
    parents
}

/// The cluster cluster `x` is nested in, when its parent link names a
/// cluster.
pub open spec fn link_of(parents: Seq<Option<usize>>, x: int) -> Option<usize> {
    match parents[x] {
        Some(p) => if p < parents.len() {
            Some(p)
        } else {
            None
        },
        None => None,
    }
}

/// The number of links from cluster `c` up to a cluster whose parent link
/// names no cluster, when there are fewer than `fuel`.
pub open spec fn levels_within(parents: Seq<Option<usize>>, c: int, fuel: nat) -> Option<nat>
    decreases fuel,
{
    if fuel == 0 {
        None
    } else {
        match link_of(parents, c) {
            None => Some(0),
            Some(p) => match levels_within(parents, p as int, (fuel - 1) as nat) {
                Some(d) => Some(d + 1),
                None => None,
            },
        }
    }
}

/// The cluster reached from `x` after `m` links, if every step exists.
pub open spec fn links_from(parents: Seq<Option<usize>>, x: int, m: nat) -> Option<usize>
    decreases m,
{
    if m == 0 {
        Some(x as usize)
    } else {
        match link_of(parents, x) {
            None => None,
            Some(y) => links_from(parents, y as int, (m - 1) as nat),
        }
    }
}

/// How many entries are known.
pub open spec fn known_count(memo: Seq<Option<usize>>) -> nat
    decreases memo.len(),
{
    if memo.len() == 0 {
        0
    } else {
        known_count(memo.drop_last()) + if memo.last() is Some {
            1nat
        } else {
            0nat
        }
    }
}

/// How many entries are not marked.
pub open spec fn unmarked(marks: Seq<bool>) -> nat
    decreases marks.len(),
{
    if marks.len() == 0 {
        0
    } else {
        unmarked(marks.drop_last()) + if marks.last() {
            0nat
        } else {
            1nat
        }
    }
}

proof fn lemma_known_count_bound(memo: Seq<Option<usize>>)
    ensures
        known_count(memo) <= memo.len(),
    decreases memo.len(),
{
    if memo.len() > 0 {
        lemma_known_count_bound(memo.drop_last());
    }
}

proof fn lemma_known_count_below(memo: Seq<Option<usize>>, i: int)
    requires
        0 <= i < memo.len(),
        memo[i] is None,
    ensures
        known_count(memo) < memo.len(),
    decreases memo.len(),
{
    lemma_known_count_bound(memo.drop_last());
    if i < memo.len() - 1 {
        lemma_known_count_below(memo.drop_last(), i);
    }
}

proof fn lemma_known_count_set(memo: Seq<Option<usize>>, i: int, d: usize)
    requires
        0 <= i < memo.len(),
        memo[i] is None,
    ensures
        known_count(memo.update(i, Some(d))) == known_count(memo) + 1,
    decreases memo.len(),
{
    let m2 = memo.update(i, Some(d));
    if i == memo.len() - 1 {
        assert(m2.drop_last() =~= memo.drop_last());
    } else {
        assert(m2.drop_last() =~= memo.drop_last().update(i, Some(d)));
        lemma_known_count_set(memo.drop_last(), i, d);
    }
}

proof fn lemma_known_count_grows(a: Seq<Option<usize>>, b: Seq<Option<usize>>)
    requires
        a.len() == b.len(),
        forall|x: int| 0 <= x < a.len() && (#[trigger] a[x]) is Some ==> b[x] is Some,
    ensures
        known_count(a) <= known_count(b),
    decreases a.len(),
{
    if a.len() > 0 {
        assert forall|x: int| 0 <= x < a.drop_last().len() && (#[trigger] a.drop_last()[x]) is Some implies b.drop_last()[x] is Some by {
            assert(a.drop_last()[x] == a[x]);
            assert(b.drop_last()[x] == b[x]);
        }
        lemma_known_count_grows(a.drop_last(), b.drop_last());
    }
}

proof fn lemma_unmarked_mark(marks: Seq<bool>, i: int)
    requires
        0 <= i < marks.len(),
        !marks[i],
    ensures
        unmarked(marks.update(i, true)) + 1 == unmarked(marks),
    decreases marks.len(),
{
    let m2 = marks.update(i, true);
    if i == marks.len() - 1 {
        assert(m2.drop_last() =~= marks.drop_last());
    } else {
        assert(m2.drop_last() =~= marks.drop_last().update(i, true));
        lemma_unmarked_mark(marks.drop_last(), i);
    }
}

proof fn lemma_levels_fuel(parents: Seq<Option<usize>>, c: int, fuel: nat, more: nat)
    requires
        levels_within(parents, c, fuel) is Some,
        fuel <= more,
        0 <= c < parents.len(),
    ensures
        levels_within(parents, c, more) == levels_within(parents, c, fuel),
        levels_within(parents, c, fuel).unwrap() < fuel,
    decreases fuel,
{
    match link_of(parents, c) {
        None => {},
        Some(p) => {
            lemma_levels_fuel(parents, p as int, (fuel - 1) as nat, (more - 1) as nat);
        },
    }
}

proof fn lemma_levels_along(parents: Seq<Option<usize>>, x: int, fuel: nat, m: nat, y: usize)
    requires
        0 <= x < parents.len(),
        parents.len() <= usize::MAX,
        levels_within(parents, x, fuel) is Some,
        links_from(parents, x, m) == Some(y),
    ensures
        m <= levels_within(parents, x, fuel).unwrap(),
        m <= fuel,
        y < parents.len(),
        levels_within(parents, y as int, (fuel - m) as nat) == Some((levels_within(parents, x, fuel).unwrap() - m) as nat),
    decreases m,
{
    if m > 0 {
        let p = link_of(parents, x).unwrap();
        lemma_levels_along(parents, p as int, (fuel - 1) as nat, (m - 1) as nat, y);
    }
}

/// A cluster that its own links lead back to has no depth.
proof fn lemma_cycle_unrooted(parents: Seq<Option<usize>>, x: int, m: nat)
    requires
        0 <= x < parents.len(),
        parents.len() <= usize::MAX,
        m >= 1,
        links_from(parents, x, m) == Some(x as usize),
    ensures
        levels_within(parents, x, parents.len()) is None,
{
    let n = parents.len();
    if levels_within(parents, x, n) is Some {
        let d = levels_within(parents, x, n).unwrap();
        lemma_levels_along(parents, x, n, m, x as usize);
        lemma_levels_fuel(parents, x, (n - m) as nat, n);
    }
}

proof fn lemma_links_extend(parents: Seq<Option<usize>>, x: int, m: nat, y: usize, z: usize)
    requires
        links_from(parents, x, m) == Some(y),
        link_of(parents, y as int) == Some(z),
        0 <= x < parents.len(),
        parents.len() <= usize::MAX,
    ensures
        links_from(parents, x, m + 1) == Some(z),
    decreases m,
{
    if m > 0 {
        let p = link_of(parents, x).unwrap();
        lemma_links_extend(parents, p as int, (m - 1) as nat, y, z);
        assert(((m - 1) as nat + 1) as nat == m);
    } else {
        assert(y as int == x);
        reveal_with_fuel(links_from, 2);
    }
}

/// Following the parent links along a chain of clusters.
proof fn lemma_chain_links(parents: Seq<Option<usize>>, stack: Seq<usize>, j: int, k: int)
    requires
        0 <= j <= k < stack.len(),
        parents.len() <= usize::MAX,
        forall|t: int| 0 <= t < stack.len() ==> (#[trigger] stack[t]) < parents.len(),
        forall|t: int| 0 <= t && t + 1 < stack.len() ==> link_of(parents, #[trigger] stack[t] as int) == Some(stack[t + 1]),
    ensures
        links_from(parents, stack[j] as int, (k - j) as nat) == Some(stack[k]),
    decreases k - j,
{
    if k > j {
        lemma_chain_links(parents, stack, j, k - 1);
        lemma_links_extend(parents, stack[j] as int, (k - 1 - j) as nat, stack[k - 1], stack[k]);
    }
}

/// The cached depths are at most the number of cached clusters, and exact
/// for clusters whose links lead to a top-level cluster.
pub open spec fn depth_cache_ok(parents: Seq<Option<usize>>, memo: Seq<Option<usize>>) -> bool {
    forall|x: int|
        0 <= x < memo.len() && (#[trigger] memo[x]) is Some ==> memo[x].unwrap() <= known_count(memo) && (
        levels_within(parents, x, parents.len()) is Some ==> memo[x].unwrap() as nat == levels_within(
            parents,
            x,
            parents.len(),
        ).unwrap())
}

/// The depth of cluster `idx`: zero when it is being visited already (a
/// cycle), its cached depth when known, else one more than its parent's
/// (zero without a parent that names a cluster).
fn depth_of(
    idx: usize,
    clusters: &[Cluster],
    memo: &mut Vec<Option<usize>>,
    visiting: &mut Vec<bool>,
    Ghost(stack): Ghost<Seq<usize>>,
) -> (depth: usize)
    requires
        idx < clusters@.len(),
        old(memo)@.len() == clusters@.len(),
        old(visiting)@.len() == clusters@.len(),
        depth_cache_ok(parent_links(clusters@), old(memo)@),
        forall|x: int| 0 <= x < clusters@.len() ==> (#[trigger] old(visiting)@[x] <==> stack.contains(x as usize)),
        forall|t: int| 0 <= t < stack.len() ==> (#[trigger] stack[t]) < clusters@.len(),
        forall|t: int|
            0 <= t && t + 1 < stack.len() ==> link_of(parent_links(clusters@), #[trigger] stack[t] as int) == Some(
                stack[t + 1],
            ),
        stack.len() > 0 ==> link_of(parent_links(clusters@), stack.last() as int) == Some(idx),
        forall|x: int| 0 <= x < clusters@.len() && #[trigger] old(visiting)@[x] ==> old(memo)@[x] is None,
    ensures
        final(memo)@.len() == clusters@.len(),
        final(visiting)@ == old(visiting)@,
        depth_cache_ok(parent_links(clusters@), final(memo)@),
        forall|x: int| 0 <= x < clusters@.len() && (#[trigger] old(memo)@[x]) is Some ==> final(memo)@[x] == old(memo)@[x],
        forall|x: int| 0 <= x < clusters@.len() && #[trigger] old(visiting)@[x] ==> final(memo)@[x] == old(memo)@[x],
        depth <= known_count(final(memo)@),
        levels_within(parent_links(clusters@), idx as int, clusters@.len()) is Some ==> depth as nat == levels_within(
            parent_links(clusters@),
            idx as int,
            clusters@.len(),
        ).unwrap(),
    decreases unmarked(old(visiting)@),
{
    let ghost parents = parent_links(clusters@);
    let ghost n = clusters@.len();
    let count = clusters.len();
    proof {
        assert(parents.len() == count);
    }
    if let Some(depth) = memo[idx] {
        return depth;
    }
    if visiting[idx] {
        proof {
            let j = choose|j: int| 0 <= j < stack.len() && stack[j] == idx;
            lemma_chain_links(parents, stack, j, stack.len() - 1);
            lemma_links_extend(parents, idx as int, (stack.len() - 1 - j) as nat, stack.last(), idx);
            lemma_cycle_unrooted(parents, idx as int, (stack.len() - j) as nat);
        }
        return 0;
    }
    let ghost memo0 = memo@;
    let ghost marks0 = visiting@;
    visiting.set(idx, true);
    proof {
        lemma_unmarked_mark(marks0, idx as int);
    }
    let depth = match clusters[idx].parent_index() {
        Some(parent) => {
            if parent < clusters.len() {
                let ghost stack2 = stack.push(idx);
                proof {
                    assert(parents[idx as int] == Some(parent));
                    assert forall|x: int| 0 <= x < clusters@.len() implies (#[trigger] visiting@[x] <==> stack2.contains(
                        x as usize,
                    )) by {
                        if x == idx {
                            assert(stack2[stack.len() as int] == idx);
                        } else {
                            if stack2.contains(x as usize) {
                                let t = choose|t: int| 0 <= t < stack2.len() && stack2[t] == x as usize;
                                assert(stack[t] == x as usize);
                            }
                            if stack.contains(x as usize) {
                                let t = choose|t: int| 0 <= t < stack.len() && stack[t] == x as usize;
                                assert(stack2[t] == x as usize);
                            }
                        }
                    }
                    assert forall|t: int|
                        0 <= t && t + 1 < stack2.len() implies link_of(parents, #[trigger] stack2[t] as int) == Some(
                            stack2[t + 1],
                        ) by {
                        if t + 1 < stack.len() {
                            assert(stack2[t] == stack[t]);
                        }
                    }
                }
                let ghost marks1 = visiting@;
                let ghost memo_pre = memo@;
                let d = depth_of(parent, clusters, memo, visiting, Ghost(stack2));
                proof {
                    assert(marks1[idx as int]);
                    assert(memo@[idx as int] == memo_pre[idx as int]);
                    lemma_known_count_below(memo@, idx as int);
                    if levels_within(parents, idx as int, n) is Some {
                        lemma_levels_fuel(parents, idx as int, n, n);
                        lemma_levels_fuel(parents, parent as int, (n - 1) as nat, n);
                    }
                }
                d + 1
            } else {
                0
            }
        },
        None => 0,
    };
    let ghost memo1 = memo@;
    proof {
        assert(memo1[idx as int] is None);
        lemma_known_count_set(memo1, idx as int, depth);
        lemma_known_count_grows(memo0, memo1);
    }
    visiting.set(idx, false);
    memo.set(idx, Some(depth));
    proof {
        assert(visiting@ =~= marks0);
        assert forall|x: int| 0 <= x < clusters@.len() && (#[trigger] memo@[x]) is Some implies memo@[x].unwrap()
            <= known_count(memo@) && (levels_within(parents, x, parents.len()) is Some ==> memo@[x].unwrap() as nat
            == levels_within(parents, x, parents.len()).unwrap()) by {
            if x != idx {
                assert(memo1[x] is Some);
            }
        }
    }
    depth
}

/// How deep each cluster is nested: the number of parent links up to a
/// cluster whose parent link names no cluster. Links that lead around a
/// cycle stop where the walk meets a cluster it is still visiting.
pub fn cluster_depths(clusters: &[Cluster]) -> (depths: Vec<usize>)
    ensures
        depths@.len() == clusters@.len(),
        forall|c: int|
            0 <= c < clusters@.len() && (#[trigger] levels_within(parent_links(clusters@), c, clusters@.len())) is Some
                ==> depths@[c] as nat == levels_within(parent_links(clusters@), c, clusters@.len()).unwrap(),
        forall|c: int| 0 <= c < clusters@.len() ==> #[trigger] depths@[c] <= clusters@.len(),
{
    let n = clusters.len();
    let mut memo: Vec<Option<usize>> = Vec::new();
    let mut visiting: Vec<bool> = Vec::new();
    let mut k: usize = 0;
    while k < n
        invariant
            k <= n,
            n == clusters@.len(),
            memo@.len() == k,
            visiting@.len() == k,
            forall|x: int| 0 <= x < k ==> (#[trigger] memo@[x]) is None,
            forall|x: int| 0 <= x < k ==> !(#[trigger] visiting@[x]),
        decreases n - k,
    {
        memo.push(None);
        visiting.push(false);
        k += 1;
    }
    let mut depths: Vec<usize> = Vec::new();
    let mut c: usize = 0;
    while c < n
        invariant
            c <= n,
            n == clusters@.len(),
            memo@.len() == n,
            visiting@.len() == n,
            forall|x: int| 0 <= x < n ==> !(#[trigger] visiting@[x]),
            depth_cache_ok(parent_links(clusters@), memo@),
            depths@.len() == c,
            forall|x: int|
                0 <= x < c && (#[trigger] levels_within(parent_links(clusters@), x, n as nat)) is Some ==> depths@[x] as nat
                    == levels_within(parent_links(clusters@), x, n as nat).unwrap(),
            forall|x: int| 0 <= x < c ==> #[trigger] depths@[x] <= n,
        decreases n - c,
    {
        let ghost empty = Seq::<usize>::empty();
        proof {
            assert forall|x: int| 0 <= x < n implies (#[trigger] visiting@[x] <==> empty.contains(x as usize)) by {}
        }
        let d = depth_of(c, clusters, &mut memo, &mut visiting, Ghost(empty));
        proof {
            lemma_known_count_bound(memo@);
        }
        depths.push(d);
        c += 1;
    }
    depths
}

/// The chain of clusters from the outermost one down to `c`, as
/// `cluster_lineage` gives it.
pub open spec fn lineage_spec(clusters: Seq<Cluster>, c: usize) -> Seq<usize> {
    upward_chain(parent_links(clusters), Some(c), (clusters.len() + 1) as nat).reverse()
}

/// How many ids of `members` the map sends to node `v`.
pub open spec fn listings_of(members: Seq<u32>, ids: Map<u32, usize>, v: int) -> nat {
    members.filter(|id: u32| ids.contains_key(id) && ids[id] == v).len()
}

/// The clusters, among the first `k`, that list an id the map sends to node
/// `v`, once per such listing, in cluster order.
pub open spec fn listed_members(clusters: Seq<Cluster>, ids: Map<u32, usize>, v: int, k: int) -> Seq<usize>
    decreases k,
{
    if k <= 0 {
        Seq::empty()
    } else {
        listed_members(clusters, ids, v, k - 1) + Seq::new(
            listings_of(clusters[k - 1].members(), ids, v),
            |j: int| (k - 1) as usize,
        )
    }
}

/// The last entry of `list` whose depth is the largest.
pub open spec fn deepest_spec(list: Seq<usize>, depths: Seq<usize>) -> usize
    decreases list.len(),
{
    if list.len() <= 1 {
        list[0]
    } else {
        let d = deepest_spec(list.drop_last(), depths);
        if depths[list.last() as int] >= depths[d as int] {
            list.last()
        } else {
            d
        }
    }
}

/// Every cluster's links lead to a cluster whose parent link names no
/// cluster.
pub open spec fn all_rooted(clusters: Seq<Cluster>) -> bool {
    forall|c: int| 0 <= c < clusters.len() ==> (#[trigger] levels_within(parent_links(clusters), c, clusters.len())) is Some
}

/// The depths of the clusters when all of them are rooted.
pub open spec fn rooted_depths(clusters: Seq<Cluster>) -> Seq<usize> {
    Seq::new(clusters.len(), |c: int| levels_within(parent_links(clusters), c, clusters.len()).unwrap() as usize)
}

proof fn lemma_deepest_in(list: Seq<usize>, depths: Seq<usize>)
    requires
        list.len() > 0,
    ensures
        list.contains(deepest_spec(list, depths)),
    decreases list.len(),
{
    if list.len() > 1 {
        lemma_deepest_in(list.drop_last(), depths);
        let d = deepest_spec(list.drop_last(), depths);
        let j = choose|j: int| 0 <= j < list.drop_last().len() && list.drop_last()[j] == d;
        assert(list[j] == d);
        assert(list[list.len() - 1] == list.last());
    } else {
        assert(list[0] == deepest_spec(list, depths));
    }
}

/// For each of the `node_count` nodes, the chain of clusters it lies in,
/// outermost first: the lineage of the deepest cluster that lists it (the
/// last of the deepest ones), or nothing when no cluster lists it. Node ids
/// reach node positions through `node_by_id`; ids it does not know are
/// skipped.
pub fn compute_node_cluster_paths(
    clusters: &[Cluster],
    node_by_id: &HashMap<u32, usize>,
    node_count: usize,
) -> (paths: Vec<Vec<usize>>)
    requires
        clusters@.len() < usize::MAX,
        forall|c: int, k: int|
            0 <= c < clusters@.len() && 0 <= k < clusters@[c].members().len() && node_by_id@.contains_key(
                #[trigger] clusters@[c].members()[k],
            ) ==> node_by_id@[clusters@[c].members()[k]] < node_count,
    ensures
        paths@.len() == node_count,
        forall|v: int|
            0 <= v < node_count ==> ((#[trigger] paths@[v])@.len() == 0 <==> listed_members(
                clusters@,
                node_by_id@,
                v,
                clusters@.len() as int,
            ).len() == 0),
        forall|v: int|
            #![trigger listed_members(clusters@, node_by_id@, v, clusters@.len() as int)]
            0 <= v < node_count && listed_members(clusters@, node_by_id@, v, clusters@.len() as int).len() > 0
                ==> exists|j: int|
                0 <= j < listed_members(clusters@, node_by_id@, v, clusters@.len() as int).len() && paths@[v]@
                    == lineage_spec(clusters@, listed_members(clusters@, node_by_id@, v, clusters@.len() as int)[j]),
        all_rooted(clusters@) ==> forall|v: int|
            0 <= v < node_count && listed_members(clusters@, node_by_id@, v, clusters@.len() as int).len() > 0
                ==> (#[trigger] paths@[v])@ == lineage_spec(
                clusters@,
                deepest_spec(
                    listed_members(clusters@, node_by_id@, v, clusters@.len() as int),
                    rooted_depths(clusters@),
                ),
            ),
{
    broadcast use vstd::std_specs::hash::group_hash_axioms;

    let ghost ids = node_by_id@;
    let ghost cl = clusters@;
    let mut paths: Vec<Vec<usize>> = Vec::new();
    let mut v: usize = 0;
    while v < node_count
        invariant
            v <= node_count,
            paths@.len() == v,
            forall|w: int| 0 <= w < v ==> (#[trigger] paths@[w])@.len() == 0,
        decreases node_count - v,
    {
        paths.push(Vec::new());
        v += 1;
    }
    if clusters.len() == 0 {
        proof {
            assert forall|w: int| 0 <= w < node_count implies listed_members(cl, ids, w, cl.len() as int).len() == 0 by {}
        }
        return paths;
    }
    let depth = cluster_depths(clusters);
    let mut memberships: Vec<Vec<usize>> = Vec::new();
    let mut v: usize = 0;
    while v < node_count
        invariant
            v <= node_count,
            memberships@.len() == v,
            forall|w: int| 0 <= w < v ==> (#[trigger] memberships@[w])@.len() == 0,
        decreases node_count - v,
    {
        memberships.push(Vec::new());
        v += 1;
    }
    let mut c: usize = 0;
    proof {
        assert forall|w: int| 0 <= w < node_count implies (#[trigger] memberships@[w])@ == listed_members(cl, ids, w, 0) by {
            assert(memberships@[w]@ =~= Seq::<usize>::empty());
        }
    }
    while c < clusters.len()
        invariant
            c <= cl.len(),
            cl == clusters@,
            ids == node_by_id@,
            memberships@.len() == node_count,
            forall|cc: int, k: int|
                0 <= cc < cl.len() && 0 <= k < cl[cc].members().len() && ids.contains_key(
                    #[trigger] cl[cc].members()[k],
                ) ==> ids[cl[cc].members()[k]] < node_count,
            forall|w: int| 0 <= w < node_count ==> (#[trigger] memberships@[w])@ == listed_members(cl, ids, w, c as int),
        decreases cl.len() - c,
    {
        let list = clusters[c].nodes();
        let ghost prev = memberships@;
        let mut i: usize = 0;
        while i < list.len()
            invariant
                i <= list@.len(),
                c < cl.len(),
                cl == clusters@,
                ids == node_by_id@,
                list@ == cl[c as int].members(),
                memberships@.len() == node_count,
                forall|cc: int, k: int|
                    0 <= cc < cl.len() && 0 <= k < cl[cc].members().len() && ids.contains_key(
                        #[trigger] cl[cc].members()[k],
                    ) ==> ids[cl[cc].members()[k]] < node_count,
                forall|w: int| 0 <= w < node_count ==> (#[trigger] prev[w])@ == listed_members(cl, ids, w, c as int),
                forall|w: int|
                    0 <= w < node_count ==> (#[trigger] memberships@[w])@ == prev[w]@ + Seq::new(
                        listings_of(list@.subrange(0, i as int), ids, w),
                        |j: int| c,
                    ),
            decreases list.len() - i,
        {
            let id = list[i];
            proof {
                reveal(Seq::filter);
                assert(list@.subrange(0, i + 1).drop_last() =~= list@.subrange(0, i as int));
                assert(list@.subrange(0, i + 1).last() == id);
            }
            match node_by_id.get(&id) {
                Some(position) => {
                    let position = *position;
                    proof {
                        assert(cl[c as int].members()[i as int] == id);
                        assert(ids.contains_key(id));
                    }
                    memberships[position].push(c);
                },
                None => {},
            }
            proof {
                assert forall|w: int| 0 <= w < node_count implies (#[trigger] memberships@[w])@ == prev[w]@ + Seq::new(
                    listings_of(list@.subrange(0, i + 1), ids, w),
                    |j: int| c,
                ) by {
                    reveal(Seq::filter);
                    let before = listings_of(list@.subrange(0, i as int), ids, w);
                    if ids.contains_key(id) && ids[id] == w {
                        assert(listings_of(list@.subrange(0, i + 1), ids, w) == before + 1);
                        assert(Seq::new((before + 1) as nat, |j: int| c) =~= Seq::new(before, |j: int| c).push(c));
                        assert(prev[w]@ + Seq::new((before + 1) as nat, |j: int| c) =~= (prev[w]@ + Seq::new(
                            before,
                            |j: int| c,
                        )).push(c));
                    } else {
                        assert(listings_of(list@.subrange(0, i + 1), ids, w) == before);
                    }
                }
            }
            i += 1;
        }
        proof {
            assert(list@.subrange(0, list@.len() as int) =~= list@);
        }
        c += 1;
    }
    let mut node: usize = 0;
    while node < node_count
        invariant
            node <= node_count,
            cl == clusters@,
            cl.len() < usize::MAX,
            cl.len() > 0,
            ids == node_by_id@,
            paths@.len() == node_count,
            memberships@.len() == node_count,
            depth@.len() == cl.len(),
            forall|x: int|
                0 <= x < cl.len() && (#[trigger] levels_within(parent_links(cl), x, cl.len())) is Some ==> depth@[x] as nat
                    == levels_within(parent_links(cl), x, cl.len()).unwrap(),
            forall|w: int| 0 <= w < node_count ==> (#[trigger] memberships@[w])@ == listed_members(cl, ids, w, cl.len() as int),
            forall|w: int| node <= w < node_count ==> (#[trigger] paths@[w])@.len() == 0,
            forall|w: int|
                0 <= w < node ==> ((#[trigger] paths@[w])@.len() == 0 <==> listed_members(cl, ids, w, cl.len() as int).len() == 0),
            forall|w: int|
                0 <= w < node && listed_members(cl, ids, w, cl.len() as int).len() > 0 ==> (#[trigger] paths@[w])@
                    == lineage_spec(cl, deepest_spec(listed_members(cl, ids, w, cl.len() as int), depth@)),
        decreases node_count - node,
    {
        let owned = &memberships[node];
        if owned.len() > 0 {
            proof {
                assert(owned@ == listed_members(cl, ids, node as int, cl.len() as int));
                lemma_listed_members_range(cl, ids, node as int, cl.len() as int);
            }
            let mut best = owned[0];
            let mut j: usize = 1;
            proof {
                assert(owned@.subrange(0, 1) =~= seq![owned@[0]]);
            }
            while j < owned.len()
                invariant
                    1 <= j <= owned@.len(),
                    depth@.len() == cl.len(),
                    forall|k: int| 0 <= k < owned@.len() ==> (#[trigger] owned@[k]) < cl.len(),
                    best == deepest_spec(owned@.subrange(0, j as int), depth@),
                    best < cl.len(),
                decreases owned.len() - j,
            {
                proof {
                    assert(owned@.subrange(0, j + 1).drop_last() =~= owned@.subrange(0, j as int));
                    assert(owned@.subrange(0, j + 1).last() == owned@[j as int]);
                }
                if depth[owned[j]] >= depth[best] {
                    best = owned[j];
                }
                j += 1;
            }
            proof {
                assert(owned@.subrange(0, owned@.len() as int) =~= owned@);
            }
            let lineage = cluster_lineage(clusters, best);
            proof {
                assert(upward_chain(parent_links(cl), Some(best), (cl.len() + 1) as nat).len() > 0);
            }
            paths.set(node, lineage);
        }
        node += 1;
    }
    proof {
        assert forall|w: int|
            #![trigger listed_members(clusters@, node_by_id@, w, clusters@.len() as int)]
            0 <= w < node_count && listed_members(clusters@, node_by_id@, w, clusters@.len() as int).len() > 0 implies exists|j: int|
                0 <= j < listed_members(clusters@, node_by_id@, w, clusters@.len() as int).len() && paths@[w]@
                    == lineage_spec(clusters@, listed_members(clusters@, node_by_id@, w, clusters@.len() as int)[j]) by {
            let list = listed_members(clusters@, node_by_id@, w, clusters@.len() as int);
            lemma_deepest_in(list, depth@);
            let j = choose|j: int| 0 <= j < list.len() && list[j] == deepest_spec(list, depth@);
            assert(paths@[w]@ == lineage_spec(clusters@, list[j]));
        }
        if all_rooted(cl) {
            assert(depth@ =~= rooted_depths(cl)) by {
                assert forall|x: int| 0 <= x < cl.len() implies depth@[x] == rooted_depths(cl)[x] by {
                    assert(levels_within(parent_links(cl), x, cl.len()) is Some);
                }
            }
        }
    }
    paths
}

proof fn lemma_listed_members_range(clusters: Seq<Cluster>, ids: Map<u32, usize>, v: int, k: int)
    requires
        k <= clusters.len(),
    ensures
        forall|j: int| 0 <= j < listed_members(clusters, ids, v, k).len() ==> (#[trigger] listed_members(clusters, ids, v, k)[j]) < k,
    decreases k,
{
    if k > 0 {
        lemma_listed_members_range(clusters, ids, v, k - 1);
        let prev = listed_members(clusters, ids, v, k - 1);
        let add = Seq::new(listings_of(clusters[k - 1].members(), ids, v), |j: int| (k - 1) as usize);
        assert forall|j: int| 0 <= j < (prev + add).len() implies (#[trigger] (prev + add)[j]) < k by {
            if j < prev.len() {
                assert((prev + add)[j] == prev[j]);
            } else {
                assert((prev + add)[j] == add[j - prev.len()]);
            }
        }
    }
}

} // verus!
