//! Summary statistics of benchmark timings, each timing given in whole
//! nanoseconds.
use vstd::prelude::*;

verus! {

broadcast use vstd::seq_lib::group_to_multiset_ensures;

/// Whether `p` is in ascending order.
pub open spec fn is_sorted(p: Seq<u128>) -> bool {
    forall|i: int, j: int| 0 <= i <= j < p.len() ==> p[i] <= p[j]
}

/// Whether `p` holds the elements of `s` in ascending order.
pub open spec fn sorts(p: Seq<u128>, s: Seq<u128>) -> bool {
    is_sorted(p) && p.to_multiset() == s.to_multiset()
}

/// The elements of `s` in ascending order.
pub open spec fn ascending(s: Seq<u128>) -> Seq<u128> {
    s.sort_by(|a: u128, b: u128| a <= b)
}

/// Minimum, median, mean and maximum of the samples `s`: the first, middle
/// (at half the length) and last of their ascending order, and their sum
/// divided by their number taken as a `u32`, rounded down.
pub open spec fn spec_stats(s: Seq<u128>) -> (u128, u128, u128, u128) {
    let p = ascending(s);
    (p[0], p[(s.len() / 2) as int], (total(s) / (s.len() as u32 as int)) as u128, p[s.len() - 1])
}

/// The ascending order of `s` holds the elements of `s`, in order.
pub proof fn lemma_ascending(s: Seq<u128>)
    ensures
        sorts(ascending(s), s),
{
    let leq = |a: u128, b: u128| a <= b;
    assert(vstd::relations::total_ordering(leq));
    s.lemma_sort_by_ensures(leq);
    let p = s.sort_by(leq);
    assert forall|i: int, j: int| 0 <= i <= j < p.len() implies p[i] <= p[j] by {
        if i < j {
            assert(leq(p[i], p[j]));
        }
    }
}

/// The sum of `s`.
pub open spec fn total(s: Seq<u128>) -> int
    decreases s.len(),
{
    if s.len() == 0 {
        0
    } else {
        total(s.drop_last()) + s.last()
    }
}

/// The largest total that a sum of `Duration`s reaches without overflow:
/// `u64::MAX` seconds and 999999999 nanoseconds.
pub open spec fn max_total() -> int {
    (u64::MAX as int) * 1_000_000_000 + 999_999_999
}

/// Law: two ascending orderings of the same elements are the same sequence,
/// so the statistics that `stats` states through one are determined.
pub proof fn lemma_sorted_unique(p: Seq<u128>, q: Seq<u128>)
    requires
        is_sorted(p),
        is_sorted(q),
        p.to_multiset() == q.to_multiset(),
    ensures
        p == q,
    decreases p.len(),
{
    assert(p.len() == q.len()) by {
        assert(p.len() == p.to_multiset().len());
        assert(q.len() == q.to_multiset().len());
    }
    if p.len() == 0 {
        assert(p =~= q);
    } else {
        let x = p.last();
        let y = q.last();
        assert(p.contains(x)) by {
            assert(p[p.len() - 1] == x);
        }
        assert(q.contains(y)) by {
            assert(q[q.len() - 1] == y);
        }
        assert(p.to_multiset().count(x) > 0);
        assert(q.contains(x));
        assert(q.to_multiset().count(y) > 0);
        assert(p.contains(y));
        let i = choose|i: int| 0 <= i < q.len() && q[i] == x;
        let j = choose|j: int| 0 <= j < p.len() && p[j] == y;
        assert(x <= y);
        assert(y <= x);
        let p0 = p.drop_last();
        let q0 = q.drop_last();
        assert(p0.push(x) =~= p);
        assert(q0.push(x) =~= q);
        assert(p0.to_multiset().insert(x) == q0.to_multiset().insert(x));
        assert(p0.to_multiset() =~= q0.to_multiset()) by {
            assert forall|e: u128| p0.to_multiset().count(e) == q0.to_multiset().count(e) by {
                assert(p0.to_multiset().insert(x).count(e) == q0.to_multiset().insert(x).count(e));
            }
        }
        lemma_sorted_unique(p0, q0);
    }
}

/// The sum of a prefix is at most the sum of the whole.
proof fn lemma_total_prefix(s: Seq<u128>, k: int)
    requires
        0 <= k <= s.len(),
    ensures
        0 <= total(s.take(k)) <= total(s),
    decreases s.len(),
{
    lemma_total_nonneg(s);
    if k < s.len() {
        assert(s.take(k) =~= s.drop_last().take(k));
        lemma_total_prefix(s.drop_last(), k);
        lemma_total_nonneg(s.drop_last());
    } else {
        assert(s.take(k) =~= s);
    }
}

proof fn lemma_total_nonneg(s: Seq<u128>)
    ensures
        total(s) >= 0,
    decreases s.len(),
{
    if s.len() > 0 {
        lemma_total_nonneg(s.drop_last());
    }
}

/// Inserting into a sequence adds the element to its multiset.
proof fn lemma_insert_multiset(s: Seq<u128>, pos: int, x: u128)
    requires
        0 <= pos <= s.len(),
    ensures
        s.insert(pos, x).to_multiset() == s.to_multiset().insert(x),
{
    let t = s.insert(pos, x);
    assert(t.remove(pos) =~= s);
    vstd::seq_lib::to_multiset_remove(t, pos);
    assert(t[pos] == x);
    assert(t.contains(x));
    assert(t.to_multiset() =~= s.to_multiset().insert(x)) by {
        assert forall|e: u128| t.to_multiset().count(e) == s.to_multiset().insert(x).count(e) by {
            assert(s.to_multiset() == t.to_multiset().remove(x));
        }
    }
}

/// The samples in ascending order.
fn sorted_copy(samples: &[u128]) -> (out: Vec<u128>)
    ensures
        sorts(out@, samples@),
{
    let mut out: Vec<u128> = Vec::new();
    let n = samples.len();
    let mut k: usize = 0;
    assert(samples@.take(0) =~= Seq::<u128>::empty());
    while k < n
        invariant
            k <= n == samples@.len(),
            sorts(out@, samples@.take(k as int)),
        decreases n - k,
    {
        let x = samples[k];
        let mut pos: usize = 0;
        while pos < out.len() && out[pos] <= x
            invariant
                pos <= out.len(),
                forall|i: int| 0 <= i < pos ==> out@[i] <= x,
            decreases out.len() - pos,
        {
            pos += 1;
        }
        let ghost before = out@;
        proof {
            lemma_insert_multiset(before, pos as int, x);
        }
        out.insert(pos, x);
        assert(samples@.take(k + 1) =~= samples@.take(k as int).push(x));
        assert(is_sorted(out@)) by {
            assert forall|i: int, j: int| 0 <= i <= j < out@.len() implies out@[i] <= out@[j] by {
                if pos < before.len() {
                    assert(x < before[pos as int]);
                }
                if i < pos && j > pos {
                    assert(before[i] <= before[j - 1]);
                }
                if i > pos {
                    assert(before[i - 1] <= before[j - 1]);
                }
                if i == pos && j > pos {
                    assert(before[pos as int] <= before[j - 1]);
                }
            }
        }
        k += 1;
    }
    assert(samples@.take(n as int) =~= samples@);
    out
}

/// Minimum, median, mean and maximum of the samples, as the benchmark
/// report gives them: the median is the element at half the length of the
/// ascending ordering, and the mean is the sum divided by the number of
/// samples taken as a `u32`, rounded down.
pub fn stats(samples: &[u128]) -> (r: (u128, u128, u128, u128))
    requires
        samples@.len() > 0,
        samples@.len() as u32 != 0,
        total(samples@) <= max_total(),
    ensures
        r == spec_stats(samples@),
{
    let sorted = sorted_copy(samples);
    proof {
        lemma_ascending(samples@);
        lemma_sorted_unique(sorted@, ascending(samples@));
    }
    let n = samples.len();
    assert(sorted@.len() == n) by {
        assert(sorted@.len() == sorted@.to_multiset().len());
        assert(samples@.len() == samples@.to_multiset().len());
    }
    let min = sorted[0];
    let max = sorted[n - 1];
    let median = sorted[n / 2];
    let mut sum: u128 = 0;
    let mut k: usize = 0;
    assert(samples@.take(0) =~= Seq::<u128>::empty());
    while k < n
        invariant
            k <= n == samples@.len(),
            total(samples@) <= max_total(),
            sum == total(samples@.take(k as int)),
        decreases n - k,
    {
        assert(samples@.take(k + 1).drop_last() =~= samples@.take(k as int));
        proof {
            lemma_total_prefix(samples@, k + 1);
        }
        sum = sum + samples[k];
        k += 1;
    }
    assert(samples@.take(n as int) =~= samples@);
    let count = n as u32;
    let mean = sum / (count as u128);
    (min, median, mean, max)
}

/// Taking one element out of a sequence takes it out of the sum.
proof fn lemma_total_remove(s: Seq<u128>, j: int)
    requires
        0 <= j < s.len(),
    ensures
        total(s) == total(s.remove(j)) + s[j],
    decreases s.len(),
{
    if j == s.len() - 1 {
        assert(s.remove(j) =~= s.drop_last());
    } else {
        lemma_total_remove(s.drop_last(), j);
        assert(s.remove(j).drop_last() =~= s.drop_last().remove(j));
        assert(s.remove(j).last() == s.last());
    }
}

/// Sequences with the same elements have the same sum.
proof fn lemma_total_reorder(s1: Seq<u128>, s2: Seq<u128>)
    requires
        s1.to_multiset() == s2.to_multiset(),
    ensures
        total(s1) == total(s2),
    decreases s1.len(),
{
    assert(s1.len() == s2.len()) by {
        assert(s1.len() == s1.to_multiset().len());
        assert(s2.len() == s2.to_multiset().len());
    }
    if s1.len() > 0 {
        let x = s1.last();
        let t1 = s1.drop_last();
        assert(t1.push(x) =~= s1);
        assert(s1.contains(x)) by {
            assert(s1[s1.len() - 1] == x);
        }
        assert(s1.to_multiset().count(x) > 0);
        assert(s2.contains(x));
        let j = choose|j: int| 0 <= j < s2.len() && s2[j] == x;
        let t2 = s2.remove(j);
        vstd::seq_lib::to_multiset_remove(s2, j);
        assert(t1.to_multiset() =~= t2.to_multiset()) by {
            assert forall|e: u128| t1.to_multiset().count(e) == t2.to_multiset().count(e) by {
                assert(t1.to_multiset().insert(x).count(e) == s2.to_multiset().count(e));
            }
        }
        lemma_total_reorder(t1, t2);
        lemma_total_remove(s2, j);
    }
}

/// Law: the statistics do not depend on the order of the samples.
pub proof fn lemma_stats_reorder(s1: Seq<u128>, s2: Seq<u128>)
    requires
        s1.to_multiset() == s2.to_multiset(),
    ensures
        spec_stats(s1) == spec_stats(s2),
{
    lemma_ascending(s1);
    lemma_ascending(s2);
    lemma_sorted_unique(ascending(s1), ascending(s2));
    lemma_total_reorder(s1, s2);
    assert(s1.len() == s2.len()) by {
        assert(s1.len() == s1.to_multiset().len());
        assert(s2.len() == s2.to_multiset().len());
    }
}

/// A sum of elements that all lie between `lo` and `hi` lies between
/// their number times `lo` and their number times `hi`.
proof fn lemma_total_bounds(s: Seq<u128>, lo: int, hi: int)
    requires
        forall|i: int| 0 <= i < s.len() ==> lo <= #[trigger] s[i] <= hi,
    ensures
        s.len() * lo <= total(s) <= s.len() * hi,
    decreases s.len(),
{
    if s.len() > 0 {
        let t = s.drop_last();
        assert forall|i: int| 0 <= i < t.len() implies lo <= #[trigger] t[i] <= hi by {
            assert(t[i] == s[i]);
        }
        lemma_total_bounds(t, lo, hi);
        assert(lo <= s[s.len() - 1] <= hi);
        assert(s.len() * lo == t.len() * lo + lo) by (nonlinear_arith)
            requires
                s.len() == t.len() + 1,
        ;
        assert(s.len() * hi == t.len() * hi + hi) by (nonlinear_arith)
            requires
                s.len() == t.len() + 1,
        ;
    }
}

/// Law: the minimum is at most the median, which is at most the maximum,
/// and, where there are at most `u32::MAX` samples, the mean lies between
/// the minimum and the maximum.
pub proof fn lemma_stats_order(s: Seq<u128>)
    requires
        s.len() > 0,
    ensures
        spec_stats(s).0 <= spec_stats(s).1 <= spec_stats(s).3,
        s.len() <= u32::MAX ==> spec_stats(s).0 <= spec_stats(s).2 <= spec_stats(s).3,
{
    lemma_ascending(s);
    let p = ascending(s);
    assert(p.len() == s.len()) by {
        assert(p.len() == p.to_multiset().len());
        assert(s.len() == s.to_multiset().len());
    }
    if s.len() <= u32::MAX {
        let lo = p[0] as int;
        let hi = p[p.len() - 1] as int;
        assert forall|i: int| 0 <= i < p.len() implies lo <= #[trigger] p[i] <= hi by {}
        lemma_total_bounds(p, lo, hi);
        lemma_total_reorder(p, s);
        let n = s.len() as int;
        assert(s.len() as u32 as int == n);
        let t = total(s);
        assert(lo <= t / n <= hi) by (nonlinear_arith)
            requires
                n > 0,
                n * lo <= t <= n * hi,
        ;
    }
}

} // verus!
