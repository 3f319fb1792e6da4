//! Sorted lists of cluster ids: merging them and comparing two of them.
use vstd::prelude::*;

verus! {

/// `s` is strictly increasing: sorted, with no repeated id.
pub open spec fn strictly_sorted(s: Seq<usize>) -> bool {
    forall|a: int, b: int| 0 <= a < b < s.len() ==> s[a] < s[b]
}

/// Two-pointer merge of `t[i..]` and `s[j..]`: the smaller head goes first, and
/// equal heads are emitted once.
pub open spec fn merge_from(t: Seq<usize>, s: Seq<usize>, i: int, j: int) -> Seq<usize>
    decreases (t.len() - i) + (s.len() - j),
{
    if i < 0 || j < 0 || i >= t.len() {
        if 0 <= j <= s.len() {
            s.subrange(j, s.len() as int)
        } else {
            Seq::empty()
        }
    } else if j >= s.len() {
        t.subrange(i, t.len() as int)
    } else if t[i] < s[j] {
        seq![t[i]] + merge_from(t, s, i + 1, j)
    } else if t[i] > s[j] {
        seq![s[j]] + merge_from(t, s, i, j + 1)
    } else {
        seq![t[i]] + merge_from(t, s, i + 1, j + 1)
    }
}

/// What `merge_sorted_unique_usize` leaves in the target.
pub open spec fn merged_target(t: Seq<usize>, s: Seq<usize>) -> Seq<usize> {
    if s.len() == 0 {
        t
    } else if t.len() == 0 {
        s
    } else {
        merge_from(t, s, 0, 0)
    }
}

fn seq_eq(a: &Vec<usize>, b: &Vec<usize>) -> (eq: bool)
    ensures
        eq == (a@ == b@),
{
    if a.len() != b.len() {
        return false;
    }
    let mut i: usize = 0;
    while i < a.len()
        invariant
            i <= a.len(),
            a.len() == b.len(),
            forall|k: int| 0 <= k < i ==> a@[k] == b@[k],
        decreases a.len() - i,
    {
        if a[i] != b[i] {
            return false;
        }
        i = i + 1;
    }
    assert(a@ =~= b@);
    true
}

/// Merges the sorted id list `source` into the sorted id list `target`,
/// keeping one copy of ids that both hold; returns whether `target` changed.
pub fn merge_sorted_unique_usize(target: &mut Vec<usize>, source: &[usize]) -> (changed: bool)
    ensures
        final(target)@ == merged_target(old(target)@, source@),
        changed == (final(target)@ != old(target)@),
{
    if source.len() == 0 {
        return false;
    }
    if target.len() == 0 {
        let mut k: usize = 0;
        while k < source.len()
            invariant
                k <= source.len(),
                target@ == source@.subrange(0, k as int),
            decreases source.len() - k,
        {
            target.push(source[k]);
            k = k + 1;
            assert(target@ == source@.subrange(0, k as int));
        }
        assert(target@ =~= source@);
        return true;
    }
    let ghost t = target@;
    let ghost s = source@;
    let mut merged: Vec<usize> = Vec::new();
    let mut i: usize = 0;
    let mut j: usize = 0;
    while i < target.len() && j < source.len()
        invariant
            target@ == t,
            source@ == s,
            i <= t.len(),
            j <= s.len(),
            merged@ + merge_from(t, s, i as int, j as int) == merge_from(t, s, 0, 0),
        decreases (t.len() - i) + (s.len() - j),
    {
        let ghost before = merged@;
        if target[i] < source[j] {
            merged.push(target[i]);
            assert(merged@ + merge_from(t, s, i + 1, j as int) =~= before + merge_from(
                t,
                s,
                i as int,
                j as int,
            ));
            i = i + 1;
        } else if target[i] > source[j] {
            merged.push(source[j]);
            assert(merged@ + merge_from(t, s, i as int, j + 1) =~= before + merge_from(
                t,
                s,
                i as int,
                j as int,
            ));
            j = j + 1;
        } else {
            merged.push(target[i]);
            assert(merged@ + merge_from(t, s, i + 1, j + 1) =~= before + merge_from(
                t,
                s,
                i as int,
                j as int,
            ));
            i = i + 1;
            j = j + 1;
        }
    }
    let ghost mid = merged@;
    while i < target.len()
        invariant
            target@ == t,
            source@ == s,
            i <= t.len(),
            j <= s.len(),
            merged@ + merge_from(t, s, i as int, j as int) == merge_from(t, s, 0, 0),
            i < t.len() ==> j == s.len(),
        decreases t.len() - i,
    {
        let ghost before = merged@;
        merged.push(target[i]);
        assert(merge_from(t, s, i as int, j as int) =~= seq![t[i as int]] + merge_from(
            t,
            s,
            i + 1,
            j as int,
        ));
        assert(merged@ + merge_from(t, s, i + 1, j as int) =~= before + merge_from(
            t,
            s,
            i as int,
            j as int,
        ));
        i = i + 1;
    }
    while j < source.len()
        invariant
            target@ == t,
            source@ == s,
            i == t.len(),
            j <= s.len(),
            merged@ + merge_from(t, s, i as int, j as int) == merge_from(t, s, 0, 0),
        decreases s.len() - j,
    {
        let ghost before = merged@;
        merged.push(source[j]);
        assert(merge_from(t, s, i as int, j as int) =~= seq![s[j as int]] + merge_from(
            t,
            s,
            i as int,
            j + 1,
        ));
        assert(merged@ + merge_from(t, s, i as int, j + 1) =~= before + merge_from(
            t,
            s,
            i as int,
            j as int,
        ));
        j = j + 1;
    }
    assert(merge_from(t, s, i as int, j as int) =~= Seq::<usize>::empty());
    assert(merged@ =~= merge_from(t, s, 0, 0));
    if seq_eq(&merged, target) {
        return false;
    }
    *target = merged;
    true
}


#[verifier::rlimit(60)]
#[verifier::spinoff_prover]
/// Every element of `merge_from(t, s, i, j)` comes from `t[i..]` or `s[j..]`
/// and, for strictly sorted inputs, the merge is strictly sorted and holds
/// every element of both suffixes.
pub proof fn lemma_merge_from(t: Seq<usize>, s: Seq<usize>, i: int, j: int)
    requires
        strictly_sorted(t),
        strictly_sorted(s),
        0 <= i <= t.len(),
        0 <= j <= s.len(),
    ensures
        strictly_sorted(merge_from(t, s, i, j)),
        forall|x: usize|
            merge_from(t, s, i, j).contains(x) <==> (t.subrange(i, t.len() as int).contains(x)
                || s.subrange(j, s.len() as int).contains(x)),
    decreases (t.len() - i) + (s.len() - j),
{
    let r = merge_from(t, s, i, j);
    let ts = t.subrange(i, t.len() as int);
    let ss = s.subrange(j, s.len() as int);
    if i >= t.len() {
        assert forall|x: usize| r.contains(x) <==> (ts.contains(x) || ss.contains(x)) by {
            assert(ts.len() == 0);
        }
    } else if j >= s.len() {
        assert forall|x: usize| r.contains(x) <==> (ts.contains(x) || ss.contains(x)) by {
            assert(ss.len() == 0);
        }
    } else {
        let (ni, nj) = if t[i] < s[j] {
            (i + 1, j)
        } else if t[i] > s[j] {
            (i, j + 1)
        } else {
            (i + 1, j + 1)
        };
        let head = if t[i] <= s[j] {
            t[i]
        } else {
            s[j]
        };
        lemma_merge_from(t, s, ni, nj);
        let rest = merge_from(t, s, ni, nj);
        let rts = t.subrange(ni, t.len() as int);
        let rss = s.subrange(nj, s.len() as int);
        assert(r == seq![head] + rest);
        // everything left after the head is larger than the head
        assert forall|k: int| 0 <= k < rest.len() implies head < rest[k] by {
            assert(rest.contains(rest[k]));
            if rts.contains(rest[k]) {
                let a = choose|a: int| 0 <= a < rts.len() && rts[a] == rest[k];
                assert(t[ni + a] == rest[k]);
                if ni == i {
                    assert(t[i] > s[j]);
                    assert(t[i] <= t[ni + a]);
                } else {
                    assert(t[i] < t[ni + a]);
                }
            } else {
                let b = choose|b: int| 0 <= b < rss.len() && rss[b] == rest[k];
                assert(s[nj + b] == rest[k]);
                if nj == j {
                    assert(t[i] < s[j]);
                    assert(s[j] <= s[nj + b]);
                } else {
                    assert(s[j] < s[nj + b]);
                }
            }
        }
        assert forall|a: int, b: int| 0 <= a < b < r.len() implies r[a] < r[b] by {
            if a == 0 {
                assert(r[b] == rest[b - 1]);
            } else {
                assert(r[a] == rest[a - 1] && r[b] == rest[b - 1]);
            }
        }
        assert forall|x: usize| r.contains(x) <==> (ts.contains(x) || ss.contains(x)) by {
            if r.contains(x) {
                let k = choose|k: int| 0 <= k < r.len() && r[k] == x;
                if k == 0 {
                    if t[i] <= s[j] {
                        assert(ts[0] == x);
                    } else {
                        assert(ss[0] == x);
                    }
                } else {
                    assert(rest[k - 1] == x);
                    assert(rest.contains(x));
                    if rts.contains(x) {
                        let a = choose|a: int| 0 <= a < rts.len() && rts[a] == x;
                        assert(ts[a + (ni - i)] == x);
                    } else {
                        let b = choose|b: int| 0 <= b < rss.len() && rss[b] == x;
                        assert(ss[b + (nj - j)] == x);
                    }
                }
            }
            if ts.contains(x) {
                let a = choose|a: int| 0 <= a < ts.len() && ts[a] == x;
                if a == 0 && ni == i + 1 {
                    assert(r[0] == x);
                } else if a == 0 {
                    assert(rts[0] == x);
                    assert(rest.contains(x));
                    let k = choose|k: int| 0 <= k < rest.len() && rest[k] == x;
                    assert(r[k + 1] == x);
                } else {
                    assert(rts[a - (ni - i)] == x);
                    assert(rest.contains(x));
                    let k = choose|k: int| 0 <= k < rest.len() && rest[k] == x;
                    assert(r[k + 1] == x);
                }
            }
            if ss.contains(x) {
                let b = choose|b: int| 0 <= b < ss.len() && ss[b] == x;
                if b == 0 && nj == j + 1 && ni == i {
                    assert(r[0] == x);
                } else if b == 0 && nj == j + 1 {
                    assert(r[0] == x);
                } else if b == 0 {
                    assert(rss[0] == x);
                    assert(rest.contains(x));
                    let k = choose|k: int| 0 <= k < rest.len() && rest[k] == x;
                    assert(r[k + 1] == x);
                } else {
                    assert(rss[b - (nj - j)] == x);
                    assert(rest.contains(x));
                    let k = choose|k: int| 0 <= k < rest.len() && rest[k] == x;
                    assert(r[k + 1] == x);
                }
            }
        }
    }
}

/// Merging two strictly sorted id lists gives a strictly sorted list that
/// holds exactly the ids of both.
pub proof fn law_merge_is_sorted_union(target: Seq<usize>, source: Seq<usize>)
    requires
        strictly_sorted(target),
        strictly_sorted(source),
    ensures
        strictly_sorted(merged_target(target, source)),
        forall|x: usize|
            merged_target(target, source).contains(x) <==> (target.contains(x) || source.contains(
                x,
            )),
{
    if source.len() == 0 {
    } else if target.len() == 0 {
    } else {
        lemma_merge_from(target, source, 0, 0);
        assert(target.subrange(0, target.len() as int) =~= target);
        assert(source.subrange(0, source.len() as int) =~= source);
    }
}


/// Two-pointer count of equal heads of `a[i..]` and `b[j..]`.
pub open spec fn overlap_from(a: Seq<usize>, b: Seq<usize>, i: int, j: int) -> nat
    decreases (a.len() - i) + (b.len() - j),
{
    if i < 0 || j < 0 || i >= a.len() || j >= b.len() {
        0
    } else if a[i] == b[j] {
        1 + overlap_from(a, b, i + 1, j + 1)
    } else if a[i] < b[j] {
        overlap_from(a, b, i + 1, j)
    } else {
        overlap_from(a, b, i, j + 1)
    }
}

/// Two-pointer count of unmatched heads of `a[i..]` and `b[j..]`, plus what is
/// left of either list once the other runs out.
pub open spec fn transitions_from(a: Seq<usize>, b: Seq<usize>, i: int, j: int) -> nat
    decreases (a.len() - i) + (b.len() - j),
{
    if i < 0 || j < 0 || i > a.len() || j > b.len() {
        0
    } else if i == a.len() {
        (b.len() - j) as nat
    } else if j == b.len() {
        (a.len() - i) as nat
    } else if a[i] == b[j] {
        transitions_from(a, b, i + 1, j + 1)
    } else if a[i] < b[j] {
        1 + transitions_from(a, b, i + 1, j)
    } else {
        1 + transitions_from(a, b, i, j + 1)
    }
}

/// Number of entries of `a` that also occur in `b`.
pub open spec fn count_in(a: Seq<usize>, b: Seq<usize>) -> nat
    decreases a.len(),
{
    if a.len() == 0 {
        0
    } else {
        (if b.contains(a[0]) {
            1nat
        } else {
            0nat
        }) + count_in(a.drop_first(), b)
    }
}

/// Number of entries of `a` that do not occur in `b`.
pub open spec fn count_not_in(a: Seq<usize>, b: Seq<usize>) -> nat
    decreases a.len(),
{
    if a.len() == 0 {
        0
    } else {
        (if b.contains(a[0]) {
            0nat
        } else {
            1nat
        }) + count_not_in(a.drop_first(), b)
    }
}

/// Number of clusters that two sorted membership lists share.
pub fn cluster_membership_overlap(left_ids: &[usize], right_ids: &[usize]) -> (overlap: usize)
    ensures
        overlap == overlap_from(left_ids@, right_ids@, 0, 0),
{
    let mut i: usize = 0;
    let mut j: usize = 0;
    let mut overlap: usize = 0;
    while i < left_ids.len() && j < right_ids.len()
        invariant
            i <= left_ids.len(),
            j <= right_ids.len(),
            overlap <= i,
            overlap + overlap_from(left_ids@, right_ids@, i as int, j as int) == overlap_from(
                left_ids@,
                right_ids@,
                0,
                0,
            ),
        decreases (left_ids.len() - i) + (right_ids.len() - j),
    {
        if left_ids[i] == right_ids[j] {
            overlap = overlap + 1;
            i = i + 1;
            j = j + 1;
        } else if left_ids[i] < right_ids[j] {
            i = i + 1;
        } else {
            j = j + 1;
        }
    }
    overlap
}

/// Number of cluster boundaries between two sorted membership lists: the ids
/// that only one of them holds.
pub fn cluster_membership_transitions(left_ids: &[usize], right_ids: &[usize]) -> (transitions:
    usize)
    requires
        left_ids.len() + right_ids.len() <= usize::MAX,
    ensures
        transitions == transitions_from(left_ids@, right_ids@, 0, 0),
{
    let mut i: usize = 0;
    let mut j: usize = 0;
    let mut transitions: usize = 0;
    while i < left_ids.len() && j < right_ids.len()
        invariant
            i <= left_ids.len(),
            j <= right_ids.len(),
            transitions <= i + j,
            left_ids.len() + right_ids.len() <= usize::MAX,
            transitions + transitions_from(left_ids@, right_ids@, i as int, j as int)
                == transitions_from(left_ids@, right_ids@, 0, 0),
        decreases (left_ids.len() - i) + (right_ids.len() - j),
    {
        if left_ids[i] == right_ids[j] {
            i = i + 1;
            j = j + 1;
        } else if left_ids[i] < right_ids[j] {
            transitions = transitions + 1;
            i = i + 1;
        } else {
            transitions = transitions + 1;
            j = j + 1;
        }
    }
    transitions + (left_ids.len() - i) + (right_ids.len() - j)
}

proof fn lemma_count_congruent(a: Seq<usize>, b: Seq<usize>, c: Seq<usize>)
    requires
        forall|k: int| 0 <= k < a.len() ==> (b.contains(a[k]) <==> c.contains(a[k])),
    ensures
        count_in(a, b) == count_in(a, c),
        count_not_in(a, b) == count_not_in(a, c),
    decreases a.len(),
{
    if a.len() > 0 {
        assert forall|k: int| 0 <= k < a.drop_first().len() implies (b.contains(
            a.drop_first()[k],
        ) <==> c.contains(a.drop_first()[k])) by {
            assert(a.drop_first()[k] == a[k + 1]);
        }
        lemma_count_congruent(a.drop_first(), b, c);
    }
}

proof fn lemma_count_split(a: Seq<usize>, b: Seq<usize>)
    ensures
        count_in(a, b) + count_not_in(a, b) == a.len(),
    decreases a.len(),
{
    if a.len() > 0 {
        lemma_count_split(a.drop_first(), b);
    }
}

#[verifier::rlimit(40)]
proof fn lemma_two_pointer_counts(a: Seq<usize>, b: Seq<usize>, i: int, j: int)
    requires
        strictly_sorted(a),
        strictly_sorted(b),
        0 <= i <= a.len(),
        0 <= j <= b.len(),
    ensures
        overlap_from(a, b, i, j) == count_in(
            a.subrange(i, a.len() as int),
            b.subrange(j, b.len() as int),
        ),
        overlap_from(a, b, i, j) == count_in(
            b.subrange(j, b.len() as int),
            a.subrange(i, a.len() as int),
        ),
        2 * overlap_from(a, b, i, j) + transitions_from(a, b, i, j) == (a.len() - i) + (b.len()
            - j),
    decreases (a.len() - i) + (b.len() - j),
{
    let sa = a.subrange(i, a.len() as int);
    let sb = b.subrange(j, b.len() as int);
    if i == a.len() {
        assert(sa.len() == 0);
        assert forall|k: int| 0 <= k < sb.len() implies (sa.contains(sb[k]) <==> Seq::<
            usize,
        >::empty().contains(sb[k])) by {}
        lemma_count_congruent(sb, sa, Seq::empty());
        lemma_count_zero(sb);
    } else if j == b.len() {
        assert(sb.len() == 0);
        lemma_count_congruent(sa, sb, Seq::empty());
        lemma_count_zero(sa);
    } else {
        assert(sa.drop_first() =~= a.subrange(i + 1, a.len() as int));
        assert(sb.drop_first() =~= b.subrange(j + 1, b.len() as int));
        if a[i] == b[j] {
            lemma_two_pointer_counts(a, b, i + 1, j + 1);
            assert(sb.contains(sa[0])) by {
                assert(sb[0] == sa[0]);
            }
            assert(sa.contains(sb[0])) by {
                assert(sb[0] == sa[0]);
            }
            let ra = sa.drop_first();
            let rb = sb.drop_first();
            assert forall|k: int| 0 <= k < ra.len() implies (sb.contains(ra[k]) <==> rb.contains(
                ra[k],
            )) by {
                assert(ra[k] == a[i + 1 + k]);
                assert(a[i] < a[i + 1 + k]);
                if sb.contains(ra[k]) {
                    let m = choose|m: int| 0 <= m < sb.len() && sb[m] == ra[k];
                    assert(m != 0);
                    assert(rb[m - 1] == ra[k]);
                }
                if rb.contains(ra[k]) {
                    let m = choose|m: int| 0 <= m < rb.len() && rb[m] == ra[k];
                    assert(sb[m + 1] == ra[k]);
                }
            }
            lemma_count_congruent(ra, sb, rb);
            assert forall|k: int| 0 <= k < rb.len() implies (sa.contains(rb[k]) <==> ra.contains(
                rb[k],
            )) by {
                assert(rb[k] == b[j + 1 + k]);
                assert(b[j] < b[j + 1 + k]);
                if sa.contains(rb[k]) {
                    let m = choose|m: int| 0 <= m < sa.len() && sa[m] == rb[k];
                    assert(m != 0);
                    assert(ra[m - 1] == rb[k]);
                }
                if ra.contains(rb[k]) {
                    let m = choose|m: int| 0 <= m < ra.len() && ra[m] == rb[k];
                    assert(sa[m + 1] == rb[k]);
                }
            }
            lemma_count_congruent(rb, sa, ra);
        } else if a[i] < b[j] {
            lemma_two_pointer_counts(a, b, i + 1, j);
            let ra = sa.drop_first();
            assert(!sb.contains(sa[0])) by {
                if sb.contains(sa[0]) {
                    let m = choose|m: int| 0 <= m < sb.len() && sb[m] == sa[0];
                    assert(b[j] <= b[j + m]);
                }
            }
            assert forall|k: int| 0 <= k < sb.len() implies (sa.contains(sb[k]) <==> ra.contains(
                sb[k],
            )) by {
                assert(sb[k] == b[j + k]);
                assert(b[j] <= b[j + k]);
                if sa.contains(sb[k]) {
                    let m = choose|m: int| 0 <= m < sa.len() && sa[m] == sb[k];
                    assert(m != 0);
                    assert(ra[m - 1] == sb[k]);
                }
                if ra.contains(sb[k]) {
                    let m = choose|m: int| 0 <= m < ra.len() && ra[m] == sb[k];
                    assert(sa[m + 1] == sb[k]);
                }
            }
            lemma_count_congruent(sb, sa, ra);
        } else {
            lemma_two_pointer_counts(a, b, i, j + 1);
            let rb = sb.drop_first();
            assert(!sa.contains(sb[0])) by {
                if sa.contains(sb[0]) {
                    let m = choose|m: int| 0 <= m < sa.len() && sa[m] == sb[0];
                    assert(a[i] <= a[i + m]);
                }
            }
            assert forall|k: int| 0 <= k < sa.len() implies (sb.contains(sa[k]) <==> rb.contains(
                sa[k],
            )) by {
                assert(sa[k] == a[i + k]);
                assert(a[i] <= a[i + k]);
                if sb.contains(sa[k]) {
                    let m = choose|m: int| 0 <= m < sb.len() && sb[m] == sa[k];
                    assert(m != 0);
                    assert(rb[m - 1] == sa[k]);
                }
                if rb.contains(sa[k]) {
                    let m = choose|m: int| 0 <= m < rb.len() && rb[m] == sa[k];
                    assert(sb[m + 1] == sa[k]);
                }
            }
            lemma_count_congruent(sa, sb, rb);
        }
    }
}

proof fn lemma_count_zero(a: Seq<usize>)
    ensures
        count_in(a, Seq::empty()) == 0,
        count_not_in(a, Seq::empty()) == a.len(),
    decreases a.len(),
{
    if a.len() > 0 {
        lemma_count_zero(a.drop_first());
    }
}

/// For strictly sorted membership lists, the overlap is the number of clusters
/// both lists hold and the transitions are the clusters only one list holds.
pub proof fn law_overlap_and_transitions_count_shared_clusters(a: Seq<usize>, b: Seq<usize>)
    requires
        strictly_sorted(a),
        strictly_sorted(b),
    ensures
        overlap_from(a, b, 0, 0) == count_in(a, b),
        transitions_from(a, b, 0, 0) == count_not_in(a, b) + count_not_in(b, a),
{
    lemma_two_pointer_counts(a, b, 0, 0);
    assert(a.subrange(0, a.len() as int) =~= a);
    assert(b.subrange(0, b.len() as int) =~= b);
    lemma_count_split(a, b);
    lemma_count_split(b, a);
}

proof fn lemma_two_pointer_symmetric(a: Seq<usize>, b: Seq<usize>, i: int, j: int)
    requires
        0 <= i <= a.len(),
        0 <= j <= b.len(),
    ensures
        overlap_from(a, b, i, j) == overlap_from(b, a, j, i),
        transitions_from(a, b, i, j) == transitions_from(b, a, j, i),
        transitions_from(a, b, i, j) + 2 * overlap_from(a, b, i, j) == (a.len() - i) + (b.len() - j),
    decreases (a.len() - i) + (b.len() - j),
{
    if i < a.len() && j < b.len() {
        if a[i] == b[j] {
            lemma_two_pointer_symmetric(a, b, i + 1, j + 1);
        } else if a[i] < b[j] {
            lemma_two_pointer_symmetric(a, b, i + 1, j);
        } else {
            lemma_two_pointer_symmetric(a, b, i, j + 1);
        }
    }
}

/// Law: the transitions between two membership lists do not depend on
/// which list comes first, and they are the lengths of both lists less
/// twice the overlap.
pub proof fn law_transitions_symmetric_and_counted(a: Seq<usize>, b: Seq<usize>)
    ensures
        transitions_from(a, b, 0, 0) == transitions_from(b, a, 0, 0),
        overlap_from(a, b, 0, 0) == overlap_from(b, a, 0, 0),
        transitions_from(a, b, 0, 0) == a.len() + b.len() - 2 * overlap_from(a, b, 0, 0),
{
    lemma_two_pointer_symmetric(a, b, 0, 0);
}

} // verus!
