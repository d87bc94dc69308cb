//! The average footprint of a trace, stated over its windows, and the closed
//! form that gives it from reuse gaps alone.
//!
//! For a window length `w`, a trace of `n` accesses has `n - w + 1` windows.
//! The average footprint at `w` is the number of distinct identifiers in a
//! window, averaged over them. An identifier is missing from a window exactly
//! when the window fits into one of the gaps between its accesses, before its
//! first access or after its last one. Counting those placements for every gap
//! gives the sum of the windows' distinct counts without visiting any window.

use vstd::prelude::*;
use crate::distinct::{
    distinct_count,
    last_marks,
    lemma_distinct_count,
    lemma_suffix_distinct,
    lemma_window_bounds,
    lemma_window_covers_right,
    lemma_window_grow,
    window_distinct,
};
use crate::occurrence::{is_last, lemma_last_before, prev_occurrence};
use crate::sums::{
    indicator,
    lemma_sum_add,
    lemma_sum_bounds,
    lemma_sum_eq,
    lemma_sum_le,
    lemma_sum_lower,
    lemma_sum_shift,
    lemma_sum_split,
    pos,
    sum_range,
};

verus! {

/// The number of windows of length `w` in a trace of `n` accesses.
pub open spec fn window_count(n: int, w: int) -> int {
    n - w + 1
}

/// For each start position, the distinct count of the window of length `w` there.
pub open spec fn window_counts<T>(t: Seq<T>, w: int) -> spec_fn(int) -> int {
    |s: int| window_distinct(t, s, w) as int
}

/// The distinct counts of all windows of length `w`, added up. Divided by the
/// number of windows, this is the average footprint at `w`.
pub open spec fn window_distinct_sum<T>(t: Seq<T>, w: int) -> int
    recommends
        0 <= w <= t.len(),
{
    sum_range(0, window_count(t.len() as int, w), window_counts(t, w))
}

/// For each position, the number of windows of length `w` that fit between the
/// previous access to its identifier and the position itself; before a first
/// access, between the start of the trace and the position.
pub open spec fn gap_before<T>(t: Seq<T>, w: int) -> spec_fn(int) -> int {
    |i: int| pos(i - prev_occurrence(t, i) - w)
}

/// For each last access, the number of windows of length `w` that fit between
/// the position and the end of the trace; 0 at every other position.
pub open spec fn gap_after<T>(t: Seq<T>, w: int) -> spec_fn(int) -> int {
    |i: int|
        if is_last(t, i) {
            pos(t.len() - w - i)
        } else {
            0
        }
}

/// The number of pairs of a window of length `w` and an identifier of the
/// trace that the window does not hold.
pub open spec fn missing_sum<T>(t: Seq<T>, w: int) -> int
    recommends
        0 <= w <= t.len(),
{
    sum_range(0, t.len() as int, gap_before(t, w)) + sum_range(0, t.len() as int, gap_after(t, w))
}

/// 1 at each position whose previous access lies more than `w` back (or that
/// has none and lies at `w` or later), 0 elsewhere.
spec fn far_marks<T>(t: Seq<T>, w: int) -> spec_fn(int) -> int {
    |i: int| indicator(i - prev_occurrence(t, i) > w)
}

/// 1 at each start `s` whose window of length `w + 1` gains an identifier with
/// its last position, 0 elsewhere.
spec fn grow_marks<T>(t: Seq<T>, w: int) -> spec_fn(int) -> int {
    |s: int| indicator(prev_occurrence(t, s + w) < s)
}

/// 1 at each last access that leaves room for `w` more positions after it.
spec fn early_last_marks<T>(t: Seq<T>, w: int) -> spec_fn(int) -> int {
    |i: int| indicator(is_last(t, i) && i < t.len() - w)
}

/// The one window that spans the whole trace holds every identifier, and no
/// gap is as long as the trace.
pub proof fn lemma_full_window<T>(t: Seq<T>)
    ensures
        missing_sum(t, t.len() as int) == 0,
        window_distinct_sum(t, t.len() as int) == distinct_count(t),
{
    let n = t.len() as int;
    assert forall|i: int| 0 <= i < n implies 0 <= #[trigger] gap_before(t, n)(i) <= 0 by {
        lemma_last_before(t, t[i], i);
    }
    lemma_sum_bounds(0, n, gap_before(t, n), 0, 0);
    assert forall|i: int| 0 <= i < n implies 0 <= #[trigger] gap_after(t, n)(i) <= 0 by {}
    lemma_sum_bounds(0, n, gap_after(t, n), 0, 0);
    assert(sum_range(0, 1, window_counts(t, n)) == window_counts(t, n)(0)) by {
        assert(sum_range(0, 0, window_counts(t, n)) == 0);
    }
    assert(t.subrange(0, n) =~= t);
}

/// Shortening the window by one adds, to the missing pairs, one for each gap
/// longer than the shorter window.
proof fn lemma_missing_step<T>(t: Seq<T>, w: int)
    requires
        0 <= w < t.len(),
    ensures
        missing_sum(t, w) == missing_sum(t, w + 1) + sum_range(
            0,
            t.len() as int,
            far_marks(t, w),
        ) + sum_range(0, t.len() - w, last_marks(t)),
{
    let n = t.len() as int;
    assert forall|i: int| 0 <= i < n implies #[trigger] gap_before(t, w)(i) == gap_before(
        t,
        w + 1,
    )(i) + far_marks(t, w)(i) by {}
    lemma_sum_add(0, n, gap_before(t, w + 1), far_marks(t, w), gap_before(t, w));
    assert forall|i: int| 0 <= i < n implies #[trigger] gap_after(t, w)(i) == gap_after(t, w + 1)(
        i,
    ) + early_last_marks(t, w)(i) by {}
    lemma_sum_add(0, n, gap_after(t, w + 1), early_last_marks(t, w), gap_after(t, w));
    lemma_sum_split(0, n - w, n, early_last_marks(t, w));
    assert forall|i: int| n - w <= i < n implies 0 <= #[trigger] early_last_marks(t, w)(i)
        <= 0 by {}
    lemma_sum_bounds(n - w, n, early_last_marks(t, w), 0, 0);
    assert forall|i: int| 0 <= i < n - w implies #[trigger] early_last_marks(t, w)(i) == last_marks(
        t,
    )(i) by {}
    lemma_sum_eq(0, n - w, early_last_marks(t, w), last_marks(t));
}

/// Lengthening the window by one adds, to the sum of the distinct counts, one
/// for each gap longer than the shorter window, and takes away the count of
/// the last short window, which has no longer one to its right.
proof fn lemma_window_sum_step<T>(t: Seq<T>, w: int)
    requires
        0 <= w < t.len(),
    ensures
        window_distinct_sum(t, w + 1) + window_distinct(t, t.len() - w, w)
            == window_distinct_sum(t, w) + sum_range(0, t.len() as int, far_marks(t, w)),
{
    let n = t.len() as int;
    assert forall|s: int| 0 <= s < n - w implies #[trigger] window_counts(t, w + 1)(s)
        == window_counts(t, w)(s) + grow_marks(t, w)(s) by {
        lemma_window_grow(t, s, w);
    }
    lemma_sum_add(0, n - w, window_counts(t, w), grow_marks(t, w), window_counts(t, w + 1));
    assert(window_distinct_sum(t, w) == sum_range(0, n - w, window_counts(t, w)) + window_counts(
        t,
        w,
    )(n - w));
    assert forall|s: int| 0 <= s < n - w implies #[trigger] grow_marks(t, w)(s) == far_marks(t, w)(
        s + w,
    ) by {}
    lemma_sum_shift(0, n - w, w, far_marks(t, w), grow_marks(t, w));
    lemma_sum_split(0, w, n, far_marks(t, w));
    assert forall|i: int| 0 <= i < w implies 0 <= #[trigger] far_marks(t, w)(i) <= 0 by {
        lemma_last_before(t, t[i], i);
    }
    lemma_sum_bounds(0, w, far_marks(t, w), 0, 0);
}

/// The closed form: the distinct counts of all windows of length `w` add up to
/// what every window would hold if it held every identifier, less the pairs of
/// a window and an identifier missing from it.
pub proof fn lemma_window_sum_closed_form<T>(t: Seq<T>, w: int)
    requires
        0 <= w <= t.len(),
    ensures
        window_distinct_sum(t, w) == distinct_count(t) * window_count(t.len() as int, w)
            - missing_sum(t, w),
    decreases t.len() - w,
{
    let n = t.len() as int;
    let m = distinct_count(t) as int;
    if w == n {
        lemma_full_window(t);
        assert(m * 1 == m) by (nonlinear_arith);
    } else {
        lemma_window_sum_closed_form(t, w + 1);
        lemma_missing_step(t, w);
        lemma_window_sum_step(t, w);
        lemma_suffix_distinct(t, n - w);
        lemma_distinct_count(t);
        lemma_sum_split(0, n - w, n, last_marks(t));
        assert(m * (n - w + 1) == m * (n - (w + 1) + 1) + m) by (nonlinear_arith);
    }
}

/// A window of length 0 holds nothing, wherever it is placed.
pub proof fn lemma_empty_windows<T>(t: Seq<T>)
    ensures
        window_distinct_sum(t, 0) == 0,
{
    let n = t.len() as int;
    assert forall|s: int| 0 <= s < n + 1 implies 0 <= #[trigger] window_counts(t, 0)(s) <= 0 by {
        lemma_window_bounds(t, s, 0);
    }
    lemma_sum_bounds(0, n + 1, window_counts(t, 0), 0, 0);
}

/// No window holds more identifiers than it has positions, nor more than the
/// trace has identifiers: the same holds of the average.
pub proof fn lemma_window_sum_bounds<T>(t: Seq<T>, w: int)
    requires
        0 <= w <= t.len(),
    ensures
        0 <= window_distinct_sum(t, w),
        window_distinct_sum(t, w) <= w * window_count(t.len() as int, w),
        window_distinct_sum(t, w) <= distinct_count(t) * window_count(t.len() as int, w),
{
    let n = t.len() as int;
    let m = distinct_count(t) as int;
    assert forall|s: int| 0 <= s < n - w + 1 implies 0 <= #[trigger] window_counts(t, w)(s)
        <= w by {
        lemma_window_bounds(t, s, w);
    }
    lemma_sum_bounds(0, n - w + 1, window_counts(t, w), 0, w);
    assert forall|s: int| 0 <= s < n - w + 1 implies 0 <= #[trigger] window_counts(t, w)(s)
        <= m by {
        lemma_window_bounds(t, s, w);
    }
    lemma_sum_bounds(0, n - w + 1, window_counts(t, w), 0, m);
    assert(0 * (n - w + 1 - 0) == 0) by (nonlinear_arith);
}

/// In a trace that holds no identifier twice, every window holds as many
/// identifiers as it has positions: the average footprint at `w` is `w`.
pub proof fn lemma_footprint_of_distinct_trace<T>(t: Seq<T>, w: int)
    requires
        t.no_duplicates(),
        0 <= w <= t.len(),
    ensures
        window_distinct_sum(t, w) == w * window_count(t.len() as int, w),
{
    let n = t.len() as int;
    assert forall|s: int| 0 <= s < n - w + 1 implies w <= #[trigger] window_counts(t, w)(s)
        <= w by {
        let a = t.subrange(s, s + w);
        assert(a.no_duplicates());
        a.unique_seq_to_set();
    }
    lemma_sum_bounds(0, n - w + 1, window_counts(t, w), w, w);
}

/// A position of the range at which `f` is smallest.
proof fn lemma_least_term(lo: int, hi: int, f: spec_fn(int) -> int) -> (j: int)
    requires
        lo < hi,
    ensures
        lo <= j < hi,
        forall|i: int| lo <= i < hi ==> f(j) <= #[trigger] f(i),
    decreases hi - lo,
{
    if hi == lo + 1 {
        lo
    } else {
        let j = lemma_least_term(lo, hi - 1, f);
        if f(hi - 1) < f(j) {
            hi - 1
        } else {
            j
        }
    }
}

/// The average footprint does not fall when the window grows by one access:
/// `window_distinct_sum(t, w) / (n - w + 1) <= window_distinct_sum(t, w + 1) / (n - w)`,
/// written without the divisions.
pub proof fn lemma_footprint_step_monotone<T>(t: Seq<T>, w: int)
    requires
        0 <= w < t.len(),
    ensures
        window_distinct_sum(t, w) * window_count(t.len() as int, w + 1) <= window_distinct_sum(
            t,
            w + 1,
        ) * window_count(t.len() as int, w),
{
    let n = t.len() as int;
    let k = n - w;
    let a = window_counts(t, w);
    let b = window_counts(t, w + 1);
    let j = lemma_least_term(0, k + 1, a);
    let total = sum_range(0, k + 1, a);
    // Left of the smallest term, each longer window is held against the
    // shorter one that starts with it.
    assert forall|s: int| 0 <= s < j implies #[trigger] a(s) <= b(s) by {
        lemma_window_grow(t, s, w);
    }
    lemma_sum_le(0, j, a, b);
    // From the smallest term on, against the shorter one that ends with it.
    let shifted = |s: int| a(s + 1);
    assert forall|s: int| j <= s < k implies #[trigger] shifted(s) <= b(s) by {
        lemma_window_covers_right(t, s, w);
    }
    lemma_sum_le(j, k, shifted, b);
    assert forall|s: int| j <= s < k implies #[trigger] shifted(s) == a(s + 1) by {}
    lemma_sum_shift(j, k, 1, a, shifted);
    lemma_sum_split(0, j, k, b);
    lemma_sum_split(0, j, k + 1, a);
    lemma_sum_split(j, j + 1, k + 1, a);
    assert(sum_range(j, j + 1, a) == a(j)) by {
        assert(sum_range(j, j, a) == 0);
    }
    let longer = sum_range(0, k, b);
    assert(longer >= total - a(j));
    lemma_sum_lower(0, k + 1, a, a(j));
    assert(total * k <= longer * (k + 1)) by (nonlinear_arith)
        requires
            longer >= total - a(j),
            a(j) * (k + 1 - 0) <= total,
            k >= 1,
    ;
}

/// The average footprint is non-decreasing in the window length: for
/// `w1 <= w2`, `window_distinct_sum(t, w1) / (n - w1 + 1)` is at most
/// `window_distinct_sum(t, w2) / (n - w2 + 1)`, written without the divisions.
pub proof fn lemma_footprint_monotone<T>(t: Seq<T>, w1: int, w2: int)
    requires
        0 <= w1 <= w2 <= t.len(),
    ensures
        window_distinct_sum(t, w1) * window_count(t.len() as int, w2) <= window_distinct_sum(t, w2)
            * window_count(t.len() as int, w1),
    decreases w2 - w1,
{
    let n = t.len() as int;
    if w1 < w2 {
        lemma_footprint_monotone(t, w1, w2 - 1);
        lemma_footprint_step_monotone(t, w2 - 1);
        lemma_window_sum_bounds(t, w1);
        lemma_window_sum_bounds(t, w2 - 1);
        lemma_window_sum_bounds(t, w2);
        let n1 = window_distinct_sum(t, w1);
        let n2 = window_distinct_sum(t, w2 - 1);
        let n3 = window_distinct_sum(t, w2);
        let d1 = n - w1 + 1;
        let d2 = n - w2 + 2;
        let d3 = n - w2 + 1;
        assert(n1 * d3 <= n3 * d1) by (nonlinear_arith)
            requires
                n1 * d2 <= n2 * d1,
                n2 * d3 <= n3 * d2,
                d1 > 0,
                d2 > 0,
                d3 > 0,
                n1 >= 0,
                n2 >= 0,
                n3 >= 0,
        ;
    }
}

} // verus!
