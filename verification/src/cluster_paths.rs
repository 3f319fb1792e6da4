//! Cluster paths: the chain of nested clusters (outermost first) that a node
//! lives in, and what an edge between two such paths crosses.
use std::collections::HashMap;

use vstd::prelude::*;

verus! {

/// Length of the longest common prefix of two sequences.
pub open spec fn common_prefix_len(a: Seq<usize>, b: Seq<usize>) -> nat
    decreases a.len(),
{
    if a.len() == 0 || b.len() == 0 || a[0] != b[0] {
        0
    } else {
        1 + common_prefix_len(a.drop_first(), b.drop_first())
    }
}

/// The common prefix length is the first index where the sequences differ
/// (or the end of the shorter one).
pub proof fn lemma_common_prefix_len(a: Seq<usize>, b: Seq<usize>)
    ensures
        common_prefix_len(a, b) <= a.len(),
        common_prefix_len(a, b) <= b.len(),
        forall|k: int| 0 <= k < common_prefix_len(a, b) ==> a[k] == b[k],
        common_prefix_len(a, b) < a.len() && common_prefix_len(a, b) < b.len() ==> a[
            common_prefix_len(a, b) as int
        ] != b[common_prefix_len(a, b) as int],
    decreases a.len(),
{
    if a.len() == 0 || b.len() == 0 || a[0] != b[0] {
    } else {
        lemma_common_prefix_len(a.drop_first(), b.drop_first());
        assert forall|k: int| 0 <= k < common_prefix_len(a, b) implies a[k] == b[k] by {
            if k > 0 {
                assert(a.drop_first()[k - 1] == b.drop_first()[k - 1]);
            }
        }
    }
}

/// Number of leading positions on which `a` and `b` agree.
pub fn shared_prefix_len(a: &[usize], b: &[usize]) -> (len: usize)
    ensures
        len == common_prefix_len(a@, b@),
{
    proof {
        lemma_common_prefix_len(a@, b@);
    }
    let mut i: usize = 0;
    while i < a.len() && i < b.len() && a[i] == b[i]
        invariant
            i <= a.len(),
            i <= b.len(),
            i <= common_prefix_len(a@, b@),
            forall|k: int| 0 <= k < i ==> a@[k] == b@[k],
            common_prefix_len(a@, b@) <= a.len(),
            common_prefix_len(a@, b@) <= b.len(),
            common_prefix_len(a@, b@) < a.len() && common_prefix_len(a@, b@) < b.len() ==> a@[
                common_prefix_len(a@, b@) as int
            ] != b@[common_prefix_len(a@, b@) as int],
        decreases a.len() - i,
    {
        i = i + 1;
    }
    i
}


/// Number of cluster boundaries an edge from path `a` to path `b` crosses:
/// the clusters it leaves plus the clusters it enters.
pub open spec fn crossings_spec(a: Seq<usize>, b: Seq<usize>) -> int {
    (a.len() - common_prefix_len(a, b)) + (b.len() - common_prefix_len(a, b))
}

/// Clusters left plus clusters entered between two cluster paths.
pub fn cluster_crossings_between(a: &[usize], b: &[usize]) -> (crossings: usize)
    requires
        a.len() + b.len() <= usize::MAX,
    ensures
        crossings == crossings_spec(a@, b@),
{
    let k = shared_prefix_len(a, b);
    proof {
        lemma_common_prefix_len(a@, b@);
    }
    let tail_out = a.len().saturating_sub(k);
    let head_in = b.len().saturating_sub(k);
    tail_out + head_in
}

/// Boundary crossings between the cluster paths of two neighbouring nodes.
pub fn cluster_boundary_crossings(a: &[usize], b: &[usize]) -> (crossings: usize)
    requires
        a.len() + b.len() <= usize::MAX,
    ensures
        crossings == crossings_spec(a@, b@),
{
    let shared = shared_prefix_len(a, b);
    proof {
        lemma_common_prefix_len(a@, b@);
    }
    a.len().saturating_sub(shared) + b.len().saturating_sub(shared)
}

proof fn lemma_common_prefix_symmetric(a: Seq<usize>, b: Seq<usize>)
    ensures
        common_prefix_len(a, b) == common_prefix_len(b, a),
    decreases a.len(),
{
    if a.len() > 0 && b.len() > 0 && a[0] == b[0] {
        lemma_common_prefix_symmetric(a.drop_first(), b.drop_first());
    }
}

proof fn lemma_common_prefix_self(a: Seq<usize>)
    ensures
        common_prefix_len(a, a) == a.len(),
    decreases a.len(),
{
    if a.len() > 0 {
        lemma_common_prefix_self(a.drop_first());
    }
}

/// Law: the boundary crossings between two cluster paths are the clusters
/// that only one of them holds past their common prefix; the count does not
/// depend on the direction, and it is zero exactly when the paths are equal.
pub proof fn law_crossings_symmetric_and_zero_iff_equal(a: Seq<usize>, b: Seq<usize>)
    ensures
        crossings_spec(a, b) == a.len() + b.len() - 2 * common_prefix_len(a, b),
        crossings_spec(a, b) == crossings_spec(b, a),
        crossings_spec(a, b) == 0 <==> a == b,
{
    lemma_common_prefix_len(a, b);
    lemma_common_prefix_symmetric(a, b);
    if crossings_spec(a, b) == 0 {
        assert(a =~= b);
    }
    if a == b {
        lemma_common_prefix_self(a);
    }
}

/// Index of the phase (0 ..= transitions) that dummy step `step` of `diff`
/// falls into: the floor of `step / diff * transitions`.
pub open spec fn dummy_phase(step: int, diff: int, transitions: int) -> int {
    (step * transitions) / diff
}

/// The cluster path of the dummy node at `step` on an edge spanning `diff`
/// ranks: the edge first leaves the tail's clusters (innermost first), then
/// enters the head's clusters (outermost first), spread evenly over the steps.
pub open spec fn dummy_path_spec(tail: Seq<usize>, head: Seq<usize>, step: int, diff: int) -> Seq<
    usize,
> {
    if diff <= 1 {
        tail
    } else {
        let shared = common_prefix_len(tail, head) as int;
        let tail_out = tail.len() - shared;
        let head_in = head.len() - shared;
        let transitions = tail_out + head_in;
        if transitions == 0 {
            tail.subrange(0, shared)
        } else {
            let phase = dummy_phase(step, diff, transitions);
            let leaves = if phase < tail_out {
                phase
            } else {
                tail_out
            };
            let enters = if phase - tail_out <= 0 {
                0
            } else if phase - tail_out < head_in {
                phase - tail_out
            } else {
                head_in
            };
            tail.subrange(0, tail.len() - leaves) + head.subrange(shared, shared + enters)
        }
    }
}

/// `p` is a prefix of `s`.
pub open spec fn is_prefix_of(p: Seq<usize>, s: Seq<usize>) -> bool {
    p.len() <= s.len() && p == s.subrange(0, p.len() as int)
}

/// Law: along an edge spanning at least two ranks, the dummy path at step
/// zero is the tail's path and at the last step the head's path; every step
/// keeps the common prefix of the two paths and is a prefix of the tail's
/// path or of the head's.
pub proof fn law_dummy_path_ends_and_prefixes(tail: Seq<usize>, head: Seq<usize>, step: int, diff: int)
    requires
        diff >= 2,
        0 <= step <= diff,
    ensures
        dummy_path_spec(tail, head, 0, diff) == tail,
        dummy_path_spec(tail, head, diff, diff) == head,
        is_prefix_of(tail.subrange(0, common_prefix_len(tail, head) as int), dummy_path_spec(tail, head, step, diff)),
        is_prefix_of(dummy_path_spec(tail, head, step, diff), tail) || is_prefix_of(
            dummy_path_spec(tail, head, step, diff),
            head,
        ),
{
    lemma_common_prefix_len(tail, head);
    let shared = common_prefix_len(tail, head) as int;
    let tail_out = tail.len() - shared;
    let head_in = head.len() - shared;
    let transitions = tail_out + head_in;
    assert(tail.subrange(0, shared) =~= head.subrange(0, shared));
    if transitions == 0 {
        assert(tail.subrange(0, shared) =~= tail);
        assert(tail =~= head);
    } else {
        assert(dummy_phase(0, diff, transitions) == 0) by (nonlinear_arith)
            requires
                diff >= 2,
        ;
        assert(dummy_phase(diff, diff, transitions) == transitions) by (nonlinear_arith)
            requires
                diff >= 2,
        ;
        let phase = dummy_phase(step, diff, transitions);
        assert(0 <= phase <= transitions) by (nonlinear_arith)
            requires
                phase == (step * transitions) / diff,
                0 <= step <= diff,
                diff >= 2,
                transitions >= 0,
        {
            assert(0 <= step * transitions <= diff * transitions);
        }
        assert(tail.subrange(0, tail.len() - 0) + head.subrange(shared, shared + 0) =~= tail);
        assert(tail.subrange(0, tail.len() - tail_out) + head.subrange(shared, shared + head_in) =~= head);
        let leaves = if phase < tail_out {
            phase
        } else {
            tail_out
        };
        let enters = if phase - tail_out <= 0 {
            0
        } else if phase - tail_out < head_in {
            phase - tail_out
        } else {
            head_in
        };
        let r = dummy_path_spec(tail, head, step, diff);
        assert(r == tail.subrange(0, tail.len() - leaves) + head.subrange(shared, shared + enters));
        assert(r.subrange(0, shared) =~= tail.subrange(0, shared));
        if enters == 0 {
            assert(r =~= tail.subrange(0, tail.len() - leaves));
            assert(r =~= tail.subrange(0, r.len() as int));
        } else {
            assert(leaves == tail_out);
            assert(r =~= head.subrange(0, r.len() as int));
        }
    }
}

/// Cluster path assigned to the dummy node at `step` (of `diff`) on an edge
/// from a node with cluster path `tail_path` to one with `head_path`.
pub fn dummy_cluster_path_between(
    tail_path: &[usize],
    head_path: &[usize],
    step: usize,
    diff: usize,
) -> (path: Vec<usize>)
    requires
        tail_path.len() + head_path.len() <= usize::MAX,
        step * (tail_path.len() + head_path.len()) <= usize::MAX,
    ensures
        path@ == dummy_path_spec(tail_path@, head_path@, step as int, diff as int),
{
    if diff <= 1 {
        return slice_prefix(tail_path, tail_path.len());
    }
    let shared = shared_prefix_len(tail_path, head_path);
    proof {
        lemma_common_prefix_len(tail_path@, head_path@);
    }
    let tail_out = tail_path.len().saturating_sub(shared);
    let head_in = head_path.len().saturating_sub(shared);
    let transitions = tail_out + head_in;
    if transitions == 0 {
        return slice_prefix(tail_path, shared);
    }
    assert(step * transitions <= step * (tail_path.len() + head_path.len())) by (nonlinear_arith)
        requires
            transitions <= tail_path.len() + head_path.len(),
    ;
    let phase = (step * transitions) / diff;
    let leaves = if phase < tail_out {
        phase
    } else {
        tail_out
    };
    let enters = if phase.saturating_sub(tail_out) < head_in {
        phase.saturating_sub(tail_out)
    } else {
        head_in
    };
    let mut path = slice_prefix(tail_path, tail_path.len().saturating_sub(leaves));
    if enters > 0 {
        let end = if shared + enters < head_path.len() {
            shared + enters
        } else {
            head_path.len()
        };
        let mut k = shared;
        let ghost base = path@;
        while k < end
            invariant
                shared <= k <= end,
                end == shared + enters,
                end <= head_path.len(),
                path@ == base + head_path@.subrange(shared as int, k as int),
            decreases end - k,
        {
            path.push(head_path[k]);
            k = k + 1;
            assert(path@ == base + head_path@.subrange(shared as int, k as int));
        }
    }
    path
}

/// The first `len` entries of `s`, copied.
fn slice_prefix(s: &[usize], len: usize) -> (out: Vec<usize>)
    requires
        len <= s.len(),
    ensures
        out@ == s@.subrange(0, len as int),
{
    let mut out: Vec<usize> = Vec::new();
    let mut i: usize = 0;
    while i < len
        invariant
            i <= len,
            len <= s.len(),
            out@ == s@.subrange(0, i as int),
        decreases len - i,
    {
        out.push(s[i]);
        i = i + 1;
        assert(out@ == s@.subrange(0, i as int));
    }
    out
}


/// Parent of cluster `c` in the parent map (none when `c` is not listed).
pub open spec fn parent_in(m: Map<usize, Option<usize>>, c: usize) -> Option<usize> {
    if m.contains_key(c) {
        m[c]
    } else {
        None
    }
}

/// `anc` is reached within `steps` steps up the parent chain from `cur`.
pub open spec fn ancestor_within(m: Map<usize, Option<usize>>, cur: usize, anc: usize, steps: nat) -> bool
    decreases steps,
{
    if steps == 0 {
        false
    } else {
        match parent_in(m, cur) {
            Some(p) => p == anc || ancestor_within(m, p, anc, (steps - 1) as nat),
            None => false,
        }
    }
}

/// Whether `cluster` is `ancestor` or lies inside it, following at most one
/// more parent link than the map has entries (which bounds any cycle).
pub fn is_cluster_descendant_or_self(
    cluster: usize,
    ancestor: usize,
    parents: &HashMap<usize, Option<usize>>,
) -> (inside: bool)
    requires
        parents@.len() < usize::MAX,
    ensures
        inside == (cluster == ancestor || ancestor_within(
            parents@,
            cluster,
            ancestor,
            (parents@.len() + 1) as nat,
        )),
{
    broadcast use vstd::std_specs::hash::group_hash_axioms;

    if cluster == ancestor {
        return true;
    }
    let limit = parents.len();
    let mut cursor: Option<usize> = Some(cluster);
    let mut guard: usize = 0;
    loop
        invariant
            limit == parents@.len(),
            limit < usize::MAX,
            guard <= limit + 1,
            cluster != ancestor,
            ancestor_within(parents@, cluster, ancestor, (parents@.len() + 1) as nat) == (match cursor {
                Some(c) => ancestor_within(parents@, c, ancestor, (limit + 1 - guard) as nat),
                None => false,
            }),
        decreases limit + 1 - guard,
    {
        let current = match cursor {
            Some(c) => c,
            None => {
                return false;
            },
        };
        if guard > limit {
            return false;
        }
        let parent: Option<usize> = match parents.get(&current) {
            Some(p) => *p,
            None => None,
        };
        assert(parent == parent_in(parents@, current));
        if parent == Some(ancestor) {
            return true;
        }
        cursor = parent;
        guard = guard + 1;
    }
}

} // verus!
