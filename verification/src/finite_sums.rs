//! Finite sums over index ranges and index lists, with the few identities
//! the crossing arguments need.
use vstd::prelude::*;

verus! {

/// `f(0) + ... + f(n - 1)`.
pub open spec fn sum_range(n: int, f: spec_fn(int) -> int) -> int
    decreases n,
{
    if n <= 0 {
        0
    } else {
        sum_range(n - 1, f) + f(n - 1)
    }
}

/// The sum of `f` over the entries of `l`.
pub open spec fn sum_list(l: Seq<usize>, f: spec_fn(int) -> int) -> int
    decreases l.len(),
{
    if l.len() == 0 {
        0
    } else {
        sum_list(l.drop_last(), f) + f(l.last() as int)
    }
}

/// The sum of `g(a, b)` over all `a` and `b` below `n`.
pub open spec fn double_sum(n: int, g: spec_fn(int, int) -> int) -> int {
    sum_range(n, |a: int| sum_range(n, |b: int| g(a, b)))
}

pub proof fn lemma_sum_congr(n: int, f: spec_fn(int) -> int, g: spec_fn(int) -> int)
    requires
        forall|k: int| 0 <= k < n ==> #[trigger] f(k) == g(k),
    ensures
        sum_range(n, f) == sum_range(n, g),
    decreases n,
{
    if n > 0 {
        lemma_sum_congr(n - 1, f, g);
    }
}

pub proof fn lemma_sum_add(n: int, f: spec_fn(int) -> int, g: spec_fn(int) -> int, h: spec_fn(int) -> int)
    requires
        forall|k: int| 0 <= k < n ==> #[trigger] h(k) == f(k) + g(k),
    ensures
        sum_range(n, h) == sum_range(n, f) + sum_range(n, g),
    decreases n,
{
    if n > 0 {
        lemma_sum_add(n - 1, f, g, h);
    }
}

pub proof fn lemma_sum_zero(n: int, f: spec_fn(int) -> int)
    requires
        forall|k: int| 0 <= k < n ==> #[trigger] f(k) == 0,
    ensures
        sum_range(n, f) == 0,
    decreases n,
{
    if n > 0 {
        lemma_sum_zero(n - 1, f);
    }
}

pub proof fn lemma_sum_nonneg(n: int, f: spec_fn(int) -> int)
    requires
        forall|k: int| 0 <= k < n ==> #[trigger] f(k) >= 0,
    ensures
        sum_range(n, f) >= 0,
    decreases n,
{
    if n > 0 {
        lemma_sum_nonneg(n - 1, f);
    }
}

pub proof fn lemma_sum_le(n: int, f: spec_fn(int) -> int, g: spec_fn(int) -> int)
    requires
        forall|k: int| 0 <= k < n ==> #[trigger] f(k) <= g(k),
    ensures
        sum_range(n, f) <= sum_range(n, g),
    decreases n,
{
    if n > 0 {
        lemma_sum_le(n - 1, f, g);
    }
}

pub proof fn lemma_double_sum_congr(n: int, g: spec_fn(int, int) -> int, h: spec_fn(int, int) -> int)
    requires
        forall|a: int, b: int| 0 <= a < n && 0 <= b < n ==> #[trigger] g(a, b) == h(a, b),
    ensures
        double_sum(n, g) == double_sum(n, h),
{
    let fg = |a: int| sum_range(n, |b: int| g(a, b));
    let fh = |a: int| sum_range(n, |b: int| h(a, b));
    assert forall|a: int| 0 <= a < n implies #[trigger] fg(a) == fh(a) by {
        lemma_sum_congr(n, |b: int| g(a, b), |b: int| h(a, b));
    }
    lemma_sum_congr(n, fg, fh);
}

pub proof fn lemma_double_sum_nonneg(n: int, g: spec_fn(int, int) -> int)
    requires
        forall|a: int, b: int| 0 <= a < n && 0 <= b < n ==> #[trigger] g(a, b) >= 0,
    ensures
        double_sum(n, g) >= 0,
{
    let f = |a: int| sum_range(n, |b: int| g(a, b));
    assert forall|a: int| 0 <= a < n implies #[trigger] f(a) >= 0 by {
        lemma_sum_nonneg(n, |b: int| g(a, b));
    }
    lemma_sum_nonneg(n, f);
}

/// The sum over the first `m` rows of the first `k` columns.
spec fn rect(m: int, k: int, g: spec_fn(int, int) -> int) -> int {
    sum_range(m, |a: int| sum_range(k, |b: int| g(a, b)))
}

proof fn lemma_rect_transpose(m: int, k: int, g: spec_fn(int, int) -> int)
    requires
        m >= 0,
        k >= 0,
    ensures
        rect(m, k, g) == rect(k, m, |a: int, b: int| g(b, a)),
    decreases m + k,
{
    let t = |a: int, b: int| g(b, a);
    if m == 0 {
        let z = |a: int| sum_range(0, |b: int| t(a, b));
        assert forall|a: int| 0 <= a < k implies #[trigger] z(a) == 0 by {}
        lemma_sum_zero(k, z);
    } else if k == 0 {
        let z = |a: int| sum_range(0, |b: int| g(a, b));
        assert forall|a: int| 0 <= a < m implies #[trigger] z(a) == 0 by {}
        lemma_sum_zero(m, z);
    } else {
        lemma_rect_transpose(m - 1, k, g);
        let full = |a: int| sum_range(m, |b: int| t(a, b));
        let part = |a: int| sum_range(m - 1, |b: int| t(a, b));
        let last = |a: int| g(m - 1, a);
        assert forall|a: int| 0 <= a < k implies #[trigger] full(a) == part(a) + last(a) by {}
        lemma_sum_add(k, part, last, full);
        lemma_sum_congr(k, last, |b: int| g(m - 1, b));
    }
}

/// Swapping the two indices of a double sum leaves it unchanged.
pub proof fn lemma_double_sum_transpose(n: int, g: spec_fn(int, int) -> int, h: spec_fn(int, int) -> int)
    requires
        n >= 0,
        forall|a: int, b: int| 0 <= a < n && 0 <= b < n ==> #[trigger] h(a, b) == g(b, a),
    ensures
        double_sum(n, h) == double_sum(n, g),
{
    lemma_rect_transpose(n, n, g);
    lemma_double_sum_congr(n, h, |a: int, b: int| g(b, a));
}

/// Summing `g` over the entries of a strictly increasing list of indices
/// below `n` is summing, over all indices below `n`, `g` where the list
/// holds the index and zero elsewhere.
pub proof fn lemma_sum_over_list(n: int, l: Seq<usize>, g: spec_fn(int) -> int, f: spec_fn(int) -> int)
    requires
        forall|k: int| 0 <= k < l.len() ==> l[k] < n,
        forall|a: int, b: int| 0 <= a < b < l.len() ==> l[a] < l[b],
        forall|k: int| 0 <= k < n ==> #[trigger] f(k) == (if l.contains(k as usize) {
            g(k)
        } else {
            0
        }),
        n <= usize::MAX + 1,
    ensures
        sum_range(n, f) == sum_list(l, g),
    decreases n,
{
    if n <= 0 {
        if l.len() > 0 {
            assert(l[0] < n);
        }
    } else if l.len() > 0 && l.last() == n - 1 {
        let l0 = l.drop_last();
        assert forall|k: int| 0 <= k < l0.len() implies l0[k] < n - 1 by {
            assert(l[k] < l[l.len() - 1]);
        }
        assert forall|k: int| 0 <= k < n - 1 implies #[trigger] f(k) == (if l0.contains(k as usize) {
            g(k)
        } else {
            0
        }) by {
            if l.contains(k as usize) {
                let j = choose|j: int| 0 <= j < l.len() && l[j] == k as usize;
                assert(j != l.len() - 1);
                assert(l0[j] == k as usize);
            }
            if l0.contains(k as usize) {
                let j = choose|j: int| 0 <= j < l0.len() && l0[j] == k as usize;
                assert(l[j] == k as usize);
            }
        }
        lemma_sum_over_list(n - 1, l0, g, f);
        assert(l.contains((n - 1) as usize)) by {
            assert(l[l.len() - 1] == (n - 1) as usize);
        }
    } else {
        assert forall|k: int| 0 <= k < l.len() implies l[k] < n - 1 by {
            if l[k] == n - 1 {
                if k < l.len() - 1 {
                    assert(l[k] < l[l.len() - 1]);
                }
            }
        }
        assert(!l.contains((n - 1) as usize)) by {
            if l.contains((n - 1) as usize) {
                let j = choose|j: int| 0 <= j < l.len() && l[j] == (n - 1) as usize;
            }
        }
        lemma_sum_over_list(n - 1, l, g, f);
    }
}

pub proof fn lemma_sum_linear(
    n: int,
    f1: spec_fn(int) -> int,
    f2: spec_fn(int) -> int,
    f3: spec_fn(int) -> int,
    f4: spec_fn(int) -> int,
    f5: spec_fn(int) -> int,
    h: spec_fn(int) -> int,
)
    requires
        forall|k: int| 0 <= k < n ==> #[trigger] h(k) == f1(k) + f2(k) - f3(k) + f4(k) + f5(k),
    ensures
        sum_range(n, h) == sum_range(n, f1) + sum_range(n, f2) - sum_range(n, f3) + sum_range(n, f4) + sum_range(n, f5),
    decreases n,
{
    if n > 0 {
        lemma_sum_linear(n - 1, f1, f2, f3, f4, f5, h);
    }
}

/// A double sum of `g1 + g2 - g3 + g4 + g5` splits into the five double sums.
pub proof fn lemma_double_sum_linear(
    n: int,
    g1: spec_fn(int, int) -> int,
    g2: spec_fn(int, int) -> int,
    g3: spec_fn(int, int) -> int,
    g4: spec_fn(int, int) -> int,
    g5: spec_fn(int, int) -> int,
    h: spec_fn(int, int) -> int,
)
    requires
        forall|a: int, b: int|
            0 <= a < n && 0 <= b < n ==> #[trigger] h(a, b) == g1(a, b) + g2(a, b) - g3(a, b) + g4(a, b) + g5(a, b),
    ensures
        double_sum(n, h) == double_sum(n, g1) + double_sum(n, g2) - double_sum(n, g3) + double_sum(n, g4)
            + double_sum(n, g5),
{
    let r1 = |a: int| sum_range(n, |b: int| g1(a, b));
    let r2 = |a: int| sum_range(n, |b: int| g2(a, b));
    let r3 = |a: int| sum_range(n, |b: int| g3(a, b));
    let r4 = |a: int| sum_range(n, |b: int| g4(a, b));
    let r5 = |a: int| sum_range(n, |b: int| g5(a, b));
    let rh = |a: int| sum_range(n, |b: int| h(a, b));
    assert forall|a: int| 0 <= a < n implies #[trigger] rh(a) == r1(a) + r2(a) - r3(a) + r4(a) + r5(a) by {
        lemma_sum_linear(
            n,
            |b: int| g1(a, b),
            |b: int| g2(a, b),
            |b: int| g3(a, b),
            |b: int| g4(a, b),
            |b: int| g5(a, b),
            |b: int| h(a, b),
        );
    }
    lemma_sum_linear(n, r1, r2, r3, r4, r5, rh);
}

/// Where `g(a, b)` is `big_g(a, b)` for `a` listed in `la` and `b` listed in
/// `lb` and zero elsewhere, its double sum is the sum over `lb` of the sums
/// over `la`.
pub proof fn lemma_double_sum_lists(
    n: int,
    la: Seq<usize>,
    lb: Seq<usize>,
    big_g: spec_fn(int, int) -> int,
    g: spec_fn(int, int) -> int,
)
    requires
        0 <= n <= usize::MAX + 1,
        forall|k: int| 0 <= k < la.len() ==> la[k] < n,
        forall|x: int, y: int| 0 <= x < y < la.len() ==> la[x] < la[y],
        forall|k: int| 0 <= k < lb.len() ==> lb[k] < n,
        forall|x: int, y: int| 0 <= x < y < lb.len() ==> lb[x] < lb[y],
        forall|a: int, b: int|
            0 <= a < n && 0 <= b < n ==> #[trigger] g(a, b) == (if la.contains(a as usize) && lb.contains(b as usize) {
                big_g(a, b)
            } else {
                0
            }),
    ensures
        double_sum(n, g) == sum_list(lb, |b: int| sum_list(la, |a: int| big_g(a, b))),
{
    let gt = |b: int, a: int| g(a, b);
    lemma_double_sum_transpose(n, g, gt);
    let col = |b: int| sum_range(n, |a: int| gt(b, a));
    let inner = |b: int| sum_list(la, |a: int| big_g(a, b));
    assert forall|b: int| 0 <= b < n implies #[trigger] col(b) == (if lb.contains(b as usize) {
        inner(b)
    } else {
        0
    }) by {
        if lb.contains(b as usize) {
            lemma_sum_over_list(n, la, |a: int| big_g(a, b), |a: int| gt(b, a));
        } else {
            lemma_sum_zero(n, |a: int| gt(b, a));
        }
    }
    lemma_sum_over_list(n, lb, inner, col);
}

pub proof fn lemma_sum_list_congr(l: Seq<usize>, f: spec_fn(int) -> int, g: spec_fn(int) -> int)
    requires
        forall|k: int| 0 <= k < l.len() ==> f(#[trigger] l[k] as int) == g(l[k] as int),
    ensures
        sum_list(l, f) == sum_list(l, g),
    decreases l.len(),
{
    if l.len() > 0 {
        assert forall|k: int| 0 <= k < l.drop_last().len() implies f(#[trigger] l.drop_last()[k] as int) == g(
            l.drop_last()[k] as int,
        ) by {
            assert(l.drop_last()[k] == l[k]);
        }
        lemma_sum_list_congr(l.drop_last(), f, g);
        assert(f(l[l.len() - 1] as int) == g(l[l.len() - 1] as int));
    }
}

pub proof fn lemma_double_sum_le(n: int, g: spec_fn(int, int) -> int, h: spec_fn(int, int) -> int)
    requires
        forall|a: int, b: int| 0 <= a < n && 0 <= b < n ==> #[trigger] g(a, b) <= h(a, b),
    ensures
        double_sum(n, g) <= double_sum(n, h),
{
    let fg = |a: int| sum_range(n, |b: int| g(a, b));
    let fh = |a: int| sum_range(n, |b: int| h(a, b));
    assert forall|a: int| 0 <= a < n implies #[trigger] fg(a) <= fh(a) by {
        lemma_sum_le(n, |b: int| g(a, b), |b: int| h(a, b));
    }
    lemma_sum_le(n, fg, fh);
}

proof fn lemma_sum_scale(n: int, c: int, f: spec_fn(int) -> int, h: spec_fn(int) -> int)
    requires
        forall|k: int| 0 <= k < n ==> #[trigger] h(k) == c * f(k),
    ensures
        sum_range(n, h) == c * sum_range(n, f),
    decreases n,
{
    if n > 0 {
        lemma_sum_scale(n - 1, c, f, h);
        let s = sum_range(n - 1, f);
        let x = f(n - 1);
        assert(c * s + c * x == c * (s + x)) by (nonlinear_arith);
    }
}

/// The double sum of `c * f(a) * f(b)` is `c` times the square of the sum
/// of `f`.
pub proof fn lemma_double_sum_product(n: int, c: int, f: spec_fn(int) -> int, g: spec_fn(int, int) -> int)
    requires
        forall|a: int, b: int| 0 <= a < n && 0 <= b < n ==> #[trigger] g(a, b) == c * f(a) * f(b),
    ensures
        double_sum(n, g) == c * sum_range(n, f) * sum_range(n, f),
{
    let t = sum_range(n, f);
    let rows = |a: int| sum_range(n, |b: int| g(a, b));
    assert forall|a: int| 0 <= a < n implies #[trigger] rows(a) == (c * t) * f(a) by {
        assert forall|b: int| 0 <= b < n implies #[trigger] g(a, b) == (c * f(a)) * f(b) by {
            assert(c * f(a) * f(b) == (c * f(a)) * f(b)) by (nonlinear_arith);
        }
        lemma_sum_scale(n, c * f(a), f, |b: int| g(a, b));
        assert((c * f(a)) * t == (c * t) * f(a)) by (nonlinear_arith);
    }
    lemma_sum_scale(n, c * t, f, rows);
    assert((c * t) * t == c * t * t) by (nonlinear_arith);
}

} // verus!
