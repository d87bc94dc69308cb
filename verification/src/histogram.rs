//! The reuse-interval histogram: how many accesses have each interval, and
//! sums weighted by it.

use vstd::prelude::*;
use std::collections::HashMap;
use crate::occurrence::INF;
use crate::sums::{
    indicator,
    lemma_sum_add,
    lemma_sum_bounds,
    lemma_sum_point,
    sum_range,
};

verus! {

/// 1 at each position at which `s` holds `v`, 0 elsewhere.
pub open spec fn value_marks(s: Seq<usize>, v: int) -> spec_fn(int) -> int {
    |i: int| indicator(s[i] == v)
}

/// How often `v` occurs among the first `k` entries of `s`.
pub open spec fn count_upto(s: Seq<usize>, v: int, k: int) -> int {
    sum_range(0, k, value_marks(s, v))
}

/// How often `v` occurs in `s`.
pub open spec fn count_of(s: Seq<usize>, v: int) -> int {
    count_upto(s, v, s.len() as int)
}

/// Whether `hist` is the histogram of the first `k` entries of `s`: it maps
/// each value other than `INF` that occurs among them to the number of times
/// it does, and holds no other key.
pub open spec fn is_histogram_upto(hist: Map<usize, usize>, s: Seq<usize>, k: int) -> bool {
    &&& forall|r: usize| #[trigger]
        hist.contains_key(r) <==> r != INF && count_upto(s, r as int, k) > 0
    &&& forall|r: usize| #[trigger] hist.contains_key(r) ==> hist[r] == count_upto(s, r as int, k)
}

/// Whether `hist` is the histogram of `s`.
pub open spec fn is_histogram(hist: Map<usize, usize>, s: Seq<usize>) -> bool {
    is_histogram_upto(hist, s, s.len() as int)
}

/// For each value `r`, its excess over `w` times the number of times it
/// occurs among the first `k` entries of `s`.
pub open spec fn weighted_counts(s: Seq<usize>, w: int, k: int) -> spec_fn(int) -> int {
    |r: int| (r - w) * count_upto(s, r, k)
}

/// For each position, the excess over `w` of the entry of `s` there if that
/// entry lies in `lo..hi`, and 0 otherwise.
pub open spec fn excess_within(s: Seq<usize>, w: int, lo: int, hi: int) -> spec_fn(int) -> int {
    |i: int|
        if lo <= s[i] < hi {
            s[i] - w
        } else {
            0
        }
}

/// A count is at least 0 and at most the number of entries counted.
pub proof fn lemma_count_bounds(s: Seq<usize>, v: int, k: int)
    requires
        0 <= k,
    ensures
        0 <= count_upto(s, v, k) <= k,
{
    assert forall|i: int| 0 <= i < k implies 0 <= #[trigger] value_marks(s, v)(i) <= 1 by {}
    lemma_sum_bounds(0, k, value_marks(s, v), 0, 1);
    assert(0 * (k - 0) == 0) by (nonlinear_arith);
    assert(1 * (k - 0) == k) by (nonlinear_arith);
}

/// Summing over the values of a range, each weighted by how often it occurs,
/// is summing over the positions whose entry lies in the range.
pub proof fn lemma_histogram_sum(s: Seq<usize>, w: int, lo: int, hi: int, k: int)
    requires
        0 <= k <= s.len(),
        lo <= hi,
    ensures
        sum_range(lo, hi, weighted_counts(s, w, k)) == sum_range(0, k, excess_within(s, w, lo, hi)),
    decreases k,
{
    if k == 0 {
        assert forall|r: int| lo <= r < hi implies 0 <= #[trigger] weighted_counts(s, w, 0)(r)
            <= 0 by {
            assert(count_upto(s, r, 0) == 0);
            assert((r - w) * 0 == 0) by (nonlinear_arith);
        }
        lemma_sum_bounds(lo, hi, weighted_counts(s, w, 0), 0, 0);
        assert(0 * (hi - lo) == 0) by (nonlinear_arith);
    } else {
        lemma_histogram_sum(s, w, lo, hi, k - 1);
        let v = s[k - 1] as int;
        let weight = |r: int| r - w;
        let point = |r: int| (r - w) * indicator(r == v);
        assert forall|r: int| lo <= r < hi implies #[trigger] weighted_counts(s, w, k)(r)
            == weighted_counts(s, w, k - 1)(r) + point(r) by {
            let c = count_upto(s, r, k - 1);
            let d = indicator(r == v);
            assert(count_upto(s, r, k) == c + d);
            assert((r - w) * (c + d) == (r - w) * c + (r - w) * d) by (nonlinear_arith);
        }
        lemma_sum_add(lo, hi, weighted_counts(s, w, k - 1), point, weighted_counts(s, w, k));
        assert forall|r: int| lo <= r < hi implies #[trigger] point(r) == weight(r) * indicator(
            r == v,
        ) by {}
        lemma_sum_point(lo, hi, v, weight, point);
    }
}

/// Builds the histogram of `intervals`: for each value other than `INF`, the
/// number of positions that hold it.
pub(crate) fn histogram(intervals: &[usize]) -> (hist: HashMap<usize, usize>)
    ensures
        is_histogram(hist@, intervals@),
{
    let n = intervals.len();
    let mut hist: HashMap<usize, usize> = HashMap::new();
    let mut i: usize = 0;
    while i < n
        invariant
            n == intervals.len(),
            i <= n,
            is_histogram_upto(hist@, intervals@, i as int),
        decreases n - i,
    {
        let r = intervals[i];
        let ghost before = hist@;
        if r != INF {
            let seen = match hist.get(&r) {
                Some(count) => *count,
                None => 0,
            };
            proof {
                lemma_count_bounds(intervals@, r as int, i as int);
            }
            hist.insert(r, seen + 1);
        }
        proof {
            assert forall|v: usize| #[trigger]
                hist@.contains_key(v) <==> v != INF && count_upto(intervals@, v as int, i + 1)
                    > 0 by {
                lemma_count_bounds(intervals@, v as int, i as int);
                assert(before.contains_key(v) <==> v != INF && count_upto(
                    intervals@,
                    v as int,
                    i as int,
                ) > 0);
            }
            assert forall|v: usize| #[trigger] hist@.contains_key(v) implies hist@[v] == count_upto(
                intervals@,
                v as int,
                i + 1,
            ) by {
                assert(before.contains_key(v) ==> before[v] == count_upto(
                    intervals@,
                    v as int,
                    i as int,
                ));
            }
        }
        i += 1;
    }
    hist
}

/// Adds up, over the interval values above `w` and below `n`, the excess of
/// the value over `w` times the number of accesses that have it.
pub(crate) fn weighted_sum(
    hist: &HashMap<usize, usize>,
    n: usize,
    w: usize,
    Ghost(s): Ghost<Seq<usize>>,
) -> (sum: u128)
    requires
        is_histogram(hist@, s),
        s.len() == n,
        w <= n,
    ensures
        sum == sum_range(w + 1, n as int, weighted_counts(s, w as int, n as int)),
{
    let mut sum: u128 = 0;
    if w >= n {
        return sum;
    }
    let mut r: usize = w + 1;
    while r < n
        invariant
            is_histogram(hist@, s),
            s.len() == n,
            w < r <= n,
            sum == sum_range(w + 1, r as int, weighted_counts(s, w as int, n as int)),
        decreases n - r,
    {
        let count = match hist.get(&r) {
            Some(count) => *count,
            None => 0,
        };
        proof {
            lemma_count_bounds(s, r as int, n as int);
            assert(count == count_upto(s, r as int, n as int));
            // The sum so far is a sum over positions, each of which adds less than `n`.
            lemma_histogram_sum(s, w as int, w + 1, r + 1, n as int);
            assert forall|i: int| 0 <= i < n implies 0 <= #[trigger] excess_within(
                s,
                w as int,
                w + 1,
                r + 1,
            )(i) <= n by {}
            lemma_sum_bounds(0, n as int, excess_within(s, w as int, w + 1, r + 1), 0, n as int);
            assert(0 * (n - 0) == 0) by (nonlinear_arith);
            assert((r - w) * count <= n * n) by (nonlinear_arith)
                requires
                    0 <= r - w <= n,
                    0 <= count <= n,
            ;
            assert(n * (n - 0) <= u64::MAX * u64::MAX) by (nonlinear_arith)
                requires
                    0 <= n <= u64::MAX,
            ;
        }
        sum = sum + ((r - w) as u128) * (count as u128);
        r += 1;
    }
    sum
}

} // verus!
