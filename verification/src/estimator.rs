//! The average-footprint estimator: for every window length, the expected
//! number of distinct identifiers in a window of that length, from the access
//! spans and the reuse-interval histogram of the trace.

use vstd::prelude::*;
use vstd::std_specs::hash::spec_hash_map_iter;
use vstd::std_specs::iter::IteratorSpec;
use std::collections::HashMap;
use crate::distinct::{distinct_count, first_marks, last_marks, lemma_distinct_count};
use crate::histogram::{
    excess_within,
    histogram,
    is_histogram,
    lemma_histogram_sum,
    weighted_counts,
    weighted_sum,
};
use crate::ident::{obeys_id_contract, ObjIdTraits};
use crate::listing::{enumerates, lemma_enumeration_sum, listed_terms, marked_terms};
use crate::occurrence::{
    access_spans,
    lemma_first_and_last_positions,
    lemma_first_before,
    lemma_last_before,
    reuse_intervals,
};
use crate::reuse::{lemma_reuse_distance, reuse_interval};
use crate::spans::{access_times, lemma_access_spans};
use crate::sums::{lemma_sum_add, lemma_sum_bounds, lemma_sum_eq, pos, sum_range};
use crate::window::{
    gap_after,
    gap_before,
    lemma_empty_windows,
    lemma_footprint_monotone,
    lemma_full_window,
    lemma_window_sum_bounds,
    lemma_window_sum_closed_form,
    missing_sum,
    window_count,
    window_distinct_sum,
};

verus! {

/// The average footprint at one window length, kept exact.
///
/// Its value is `distinct - missing / windows`: every window would hold all
/// `distinct` identifiers of the trace, were it not for the `missing` pairs of
/// a window and an identifier that the window does not hold.
#[derive(Clone, Copy, Debug, PartialEq, Eq)]
pub struct AvgFootprint {
    /// The number of distinct identifiers in the trace.
    pub distinct: usize,
    /// The sum of the interior, start-boundary and end-boundary terms.
    pub missing: u128,
    /// The number of windows of this length in the trace.
    pub windows: usize,
}

impl AvgFootprint {
    /// The numerator of the value over `windows`: the distinct counts of all
    /// the windows, added up.
    pub open spec fn covered(self) -> int {
        self.distinct * self.windows - self.missing
    }
}

/// For each position, the number of windows of length `w` between the start
/// of the trace and the position.
pub open spec fn room_before(w: int) -> spec_fn(int) -> int {
    |i: int| pos(i + 1 - w)
}

/// For each position, the number of windows of length `w` between the
/// position and the end of a trace of `n` accesses.
pub open spec fn room_after(n: int, w: int) -> spec_fn(int) -> int {
    |i: int| pos(n - w - i)
}

/// The interior term at window length `w`: over the reuse intervals `r` above
/// `w`, the `r - w` windows that fit into a gap of that length, times the
/// number of accesses with that interval.
pub open spec fn interior_term<T>(t: Seq<T>, w: int) -> int {
    sum_range(w + 1, t.len() as int, weighted_counts(reuse_intervals(t), w, t.len() as int))
}

/// The start-boundary term at window length `w`: over the first accesses, the
/// windows that fit before each.
pub open spec fn start_term<T>(t: Seq<T>, w: int) -> int {
    sum_range(0, t.len() as int, marked_terms(first_marks(t), room_before(w)))
}

/// The end-boundary term at window length `w`: over the last accesses, the
/// windows that fit after each.
pub open spec fn end_term<T>(t: Seq<T>, w: int) -> int {
    sum_range(0, t.len() as int, marked_terms(last_marks(t), room_after(t.len() as int, w)))
}

/// The three terms are the missing pairs, sorted by the kind of gap.
pub proof fn lemma_three_terms<T>(t: Seq<T>, w: int)
    requires
        0 <= w <= t.len() <= usize::MAX,
    ensures
        interior_term(t, w) + start_term(t, w) + end_term(t, w) == missing_sum(t, w),
{
    let n = t.len() as int;
    let interior = excess_within(reuse_intervals(t), w, w + 1, n);
    if w < n {
        lemma_histogram_sum(reuse_intervals(t), w, w + 1, n, n);
    } else {
        assert forall|i: int| 0 <= i < n implies 0 <= #[trigger] interior(i) <= 0 by {}
        lemma_sum_bounds(0, n, interior, 0, 0);
    }
    let start = marked_terms(first_marks(t), room_before(w));
    let end = marked_terms(last_marks(t), room_after(n, w));
    assert forall|i: int| 0 <= i < n implies #[trigger] gap_before(t, w)(i) == interior(i) + start(
        i,
    ) by {
        lemma_reuse_distance(t, i);
        lemma_last_before(t, t[i], i);
    }
    lemma_sum_add(0, n, interior, start, gap_before(t, w));
    assert forall|i: int| 0 <= i < n implies #[trigger] end(i) == gap_after(t, w)(i) by {}
    lemma_sum_eq(0, n, end, gap_after(t, w));
}

/// The first position of each listed span.
pub open spec fn firsts_of(ends: Seq<(usize, usize)>) -> Seq<usize> {
    ends.map_values(|span: (usize, usize)| span.0)
}

/// The last position of each listed span.
pub open spec fn lasts_of(ends: Seq<(usize, usize)>) -> Seq<usize> {
    ends.map_values(|span: (usize, usize)| span.1)
}

/// Whether `ends` lists what `spans` holds: entry `j` is the span of
/// `keys[j]`, and `keys` names every key of `spans` once.
pub open spec fn lists_spans<T>(
    ends: Seq<(usize, usize)>,
    keys: Seq<T>,
    spans: Map<T, (usize, usize)>,
) -> bool {
    &&& keys.len() == ends.len()
    &&& forall|i: int, j: int|
        0 <= i < keys.len() && 0 <= j < keys.len() && i != j ==> #[trigger] keys[i]
            != #[trigger] keys[j]
    &&& forall|j: int|
        0 <= j < keys.len() ==> spans.contains_key(#[trigger] keys[j]) && spans[keys[j]] == ends[j]
    &&& forall|k: T| #[trigger]
        spans.contains_key(k) ==> exists|j: int| 0 <= j < keys.len() && #[trigger] keys[j] == k
}

/// A list of the spans of a trace names, by its first positions, the first
/// accesses of the trace, and by its last positions the last accesses, in
/// whatever order it is.
pub proof fn lemma_span_list<T>(t: Seq<T>, ends: Seq<(usize, usize)>, keys: Seq<T>)
    requires
        t.len() <= usize::MAX,
        lists_spans(ends, keys, access_spans(t)),
    ensures
        enumerates(firsts_of(ends), first_marks(t), t.len() as int),
        enumerates(lasts_of(ends), last_marks(t), t.len() as int),
        ends.len() == distinct_count(t),
{
    let n = t.len() as int;
    let spans = access_spans(t);
    let firsts = firsts_of(ends);
    let lasts = lasts_of(ends);
    lemma_access_spans(t);
    // Each listed span starts at a first access and ends at a last one.
    assert forall|j: int| 0 <= j < ends.len() implies {
        &&& (#[trigger] firsts[j]) < n
        &&& first_marks(t)(firsts[j] as int) != 0
        &&& t[firsts[j] as int] == keys[j]
    } by {
        assert(spans.contains_key(keys[j]));
        lemma_first_and_last_positions(t, firsts[j] as int);
    }
    assert forall|j: int| 0 <= j < ends.len() implies {
        &&& (#[trigger] lasts[j]) < n
        &&& last_marks(t)(lasts[j] as int) != 0
        &&& t[lasts[j] as int] == keys[j]
    } by {
        assert(spans.contains_key(keys[j]));
        lemma_first_and_last_positions(t, lasts[j] as int);
    }
    // Two listed spans belong to two identifiers, so they share no end.
    assert forall|i: int, j: int|
        0 <= i < firsts.len() && 0 <= j < firsts.len() && i != j implies #[trigger] firsts[i]
        != #[trigger] firsts[j] by {
        assert(t[firsts[i] as int] == keys[i] && t[firsts[j] as int] == keys[j]);
    }
    assert forall|i: int, j: int|
        0 <= i < lasts.len() && 0 <= j < lasts.len() && i != j implies #[trigger] lasts[i]
        != #[trigger] lasts[j] by {
        assert(t[lasts[i] as int] == keys[i] && t[lasts[j] as int] == keys[j]);
    }
    // Every first access, and every last one, is an end of the span of its identifier.
    assert forall|p: int| 0 <= p < n && #[trigger] first_marks(t)(p) != 0 implies exists|j: int|
        0 <= j < firsts.len() && #[trigger] firsts[j] == p by {
        lemma_first_and_last_positions(t, p);
        lemma_first_before(t, t[p], n);
        assert(t.contains(t[p]));
        assert(spans.contains_key(t[p]));
        let j = choose|j: int| 0 <= j < keys.len() && #[trigger] keys[j] == t[p];
        assert(firsts[j] == p);
    }
    assert forall|p: int| 0 <= p < n && #[trigger] last_marks(t)(p) != 0 implies exists|j: int|
        0 <= j < lasts.len() && #[trigger] lasts[j] == p by {
        lemma_last_before(t, t[p], n);
        assert(t.contains(t[p]));
        assert(spans.contains_key(t[p]));
        let j = choose|j: int| 0 <= j < keys.len() && #[trigger] keys[j] == t[p];
        assert(lasts[j] == p);
    }
    // As many spans are listed as the trace has first accesses.
    let one = |i: int| 1int;
    lemma_enumeration_sum(firsts, first_marks(t), one, n);
    assert forall|j: int| 0 <= j < firsts.len() implies 1 <= #[trigger] listed_terms(firsts, one)(
        j,
    ) <= 1 by {}
    lemma_sum_bounds(0, firsts.len() as int, listed_terms(firsts, one), 1, 1);
    assert forall|i: int| 0 <= i < n implies #[trigger] marked_terms(first_marks(t), one)(i)
        == first_marks(t)(i) by {}
    lemma_sum_eq(0, n, marked_terms(first_marks(t), one), first_marks(t));
    lemma_distinct_count(t);
}

/// Copies the spans out of the map, in the order in which the map hands them
/// out. Which order that is does not matter to what is summed over them.
fn span_list<ObjId: ObjIdTraits>(spans: &HashMap<ObjId, (usize, usize)>) -> (ends: Vec<
    (usize, usize),
>)
    requires
        obeys_id_contract::<ObjId>(),
    ensures
        exists|keys: Seq<ObjId>| lists_spans(ends@, keys, spans@),
{
    let mut ends: Vec<(usize, usize)> = Vec::new();
    let ghost all = spec_hash_map_iter(spans).remaining();
    let ghost keys = Seq::new(all.len(), |j: int| *all[j].0);
    for entry in entries: spans.iter()
        invariant
            entries.seq() == all,
            ends@.len() == entries.index(),
            forall|j: int| 0 <= j < ends@.len() ==> ends@[j] == *all[j].1,
    {
        ends.push(*entry.1);
    }
    proof {
        assert forall|i: int, j: int|
            0 <= i < keys.len() && 0 <= j < keys.len() && i != j implies #[trigger] keys[i]
            != #[trigger] keys[j] by {
            if keys[i] == keys[j] {
                assert(spans@[*all[i].0] == *all[i].1);
                assert(spans@[*all[j].0] == *all[j].1);
                assert(all[i] == all[j]);
            }
        }
        assert forall|j: int| 0 <= j < keys.len() implies spans@.contains_key(#[trigger] keys[j])
            && spans@[keys[j]] == ends@[j] by {
            assert(spans@.contains_key(*all[j].0) && spans@[*all[j].0] == *all[j].1);
        }
        assert forall|k: ObjId| #[trigger] spans@.contains_key(k) implies exists|j: int|
            0 <= j < keys.len() && #[trigger] keys[j] == k by {
            assert(all.contains((&k, &spans@[k])));
            let j = choose|j: int| 0 <= j < all.len() && all[j] == (&k, &spans@[k]);
            assert(keys[j] == k);
        }
        assert(lists_spans(ends@, keys, spans@));
    }
    ends
}

/// Adds up, over the listed spans, the number of windows of length `w` that
/// fit before the first position of each, and the number of those that fit
/// after the last position of each in a trace of `n` accesses.
fn boundary_sums(ends: &[(usize, usize)], n: usize, w: usize) -> (sums: (u128, u128))
    requires
        forall|j: int| 0 <= j < ends@.len() ==> (#[trigger] ends@[j]).0 < n && ends@[j].1 < n,
        ends@.len() <= n,
        w <= n < usize::MAX,
    ensures
        sums.0 == sum_range(
            0,
            ends@.len() as int,
            listed_terms(firsts_of(ends@), room_before(w as int)),
        ),
        sums.1 == sum_range(
            0,
            ends@.len() as int,
            listed_terms(lasts_of(ends@), room_after(n as int, w as int)),
        ),
{
    let ghost before = listed_terms(firsts_of(ends@), room_before(w as int));
    let ghost after = listed_terms(lasts_of(ends@), room_after(n as int, w as int));
    let mut start: u128 = 0;
    let mut end: u128 = 0;
    let mut j: usize = 0;
    while j < ends.len()
        invariant
            j <= ends@.len() <= n,
            w <= n < usize::MAX,
            forall|j: int| 0 <= j < ends@.len() ==> (#[trigger] ends@[j]).0 < n && ends@[j].1 < n,
            before == listed_terms(firsts_of(ends@), room_before(w as int)),
            after == listed_terms(lasts_of(ends@), room_after(n as int, w as int)),
            start == sum_range(0, j as int, before),
            end == sum_range(0, j as int, after),
            start <= n * j,
            end <= n * j,
        decreases ends@.len() - j,
    {
        let (first, last) = ends[j];
        let room_at_start = if first + 1 > w {
            first + 1 - w
        } else {
            0
        };
        let room_at_end = if n - w + 1 > last + 1 {
            (n - w + 1) - (last + 1)
        } else {
            0
        };
        proof {
            assert(ends@[j as int] == (first, last));
            assert(room_at_start == before(j as int));
            assert(room_at_end == after(j as int));
            assert(n * (j + 1) == n * j + n) by (nonlinear_arith);
            assert(n * (j + 1) <= u64::MAX * u64::MAX) by (nonlinear_arith)
                requires
                    0 <= j + 1 <= n <= u64::MAX,
            ;
        }
        start = start + room_at_start as u128;
        end = end + room_at_end as u128;
        j += 1;
    }
    (start, end)
}

/// Whether `entry` is the average footprint of `t` at window length `w`: it
/// holds the three numbers of the closed form, and what they stand for is the
/// sum, over all windows of that length, of the distinct identifiers in each.
pub open spec fn is_footprint_at<T>(entry: AvgFootprint, t: Seq<T>, w: int) -> bool {
    &&& entry.distinct == distinct_count(t)
    &&& entry.windows == window_count(t.len() as int, w)
    &&& entry.missing == interior_term(t, w) + start_term(t, w) + end_term(t, w)
    &&& entry.covered() == window_distinct_sum(t, w)
}

/// Computes the average footprint of `trace` at every window length from 0 to
/// the length of the trace.
///
/// Entry `w` stands for the number of distinct identifiers in a window of `w`
/// accesses, averaged over the windows of that length. Entry 0 is worth 0 and
/// the last entry is worth the number of distinct identifiers of the trace.
/// No entry is worth more than its window length or than that number, and no
/// entry is worth less than the one before it.
pub fn footprint<ObjId: ObjIdTraits>(trace: &[ObjId]) -> (fp: Vec<AvgFootprint>)
    requires
        obeys_id_contract::<ObjId>(),
        trace.len() < usize::MAX,
    ensures
        fp@.len() == trace.len() + 1,
        forall|w: int| 0 <= w <= trace.len() ==> is_footprint_at(#[trigger] fp@[w], trace@, w),
        fp@[0].covered() == 0,
        fp@[trace.len() as int].missing == 0,
        fp@[trace.len() as int].windows == 1,
        forall|w: int|
            0 <= w <= trace.len() ==> {
                &&& 0 <= (#[trigger] fp@[w]).covered() <= w * fp@[w].windows
                &&& fp@[w].covered() <= fp@[w].distinct * fp@[w].windows
            },
        forall|v: int, w: int|
            0 <= v <= w <= trace.len() ==> (#[trigger] fp@[v]).covered() * (
            #[trigger] fp@[w]).windows <= fp@[w].covered() * fp@[v].windows,
{
    let n = trace.len();
    let spans = access_times(trace);
    let intervals = reuse_interval(trace);
    let hist = histogram(intervals.as_slice());
    let ends = span_list(&spans);
    let distinct = spans.len();
    let mut fp: Vec<AvgFootprint> = Vec::new();
    proof {
        let keys = choose|keys: Seq<ObjId>| lists_spans(ends@, keys, spans@);
        lemma_span_list(trace@, ends@, keys);
        lemma_distinct_count(trace@);
    }
    let mut w: usize = 0;
    while w <= n
        invariant
            n == trace.len(),
            n < usize::MAX,
            w <= n + 1,
            distinct == distinct_count(trace@),
            intervals@ == reuse_intervals(trace@),
            is_histogram(hist@, intervals@),
            enumerates(firsts_of(ends@), first_marks(trace@), n as int),
            enumerates(lasts_of(ends@), last_marks(trace@), n as int),
            ends@.len() <= n,
            fp@.len() == w,
            forall|v: int| 0 <= v < w ==> is_footprint_at(#[trigger] fp@[v], trace@, v),
        decreases n + 1 - w,
    {
        let interior = weighted_sum(&hist, n, w, Ghost(intervals@));
        proof {
            assert forall|j: int| 0 <= j < ends@.len() implies (#[trigger] ends@[j]).0 < n
                && ends@[j].1 < n by {
                assert(firsts_of(ends@)[j] < n);
                assert(lasts_of(ends@)[j] < n);
            }
        }
        let (start, end) = boundary_sums(ends.as_slice(), n, w);
        proof {
            let m = distinct_count(trace@) as int;
            lemma_enumeration_sum(
                firsts_of(ends@),
                first_marks(trace@),
                room_before(w as int),
                n as int,
            );
            lemma_enumeration_sum(
                lasts_of(ends@),
                last_marks(trace@),
                room_after(n as int, w as int),
                n as int,
            );
            lemma_three_terms(trace@, w as int);
            lemma_window_sum_closed_form(trace@, w as int);
            lemma_window_sum_bounds(trace@, w as int);
            lemma_distinct_count(trace@);
            assert(interior + start + end <= m * (n - w + 1));
            assert(m * (n - w + 1) <= u64::MAX * u64::MAX) by (nonlinear_arith)
                requires
                    0 <= m <= n,
                    0 <= w <= n,
                    n < u64::MAX,
            ;
        }
        fp.push(AvgFootprint { distinct, missing: interior + start + end, windows: n - w + 1 });
        w += 1;
    }
    proof {
        lemma_empty_windows(trace@);
        lemma_full_window(trace@);
        lemma_three_terms(trace@, n as int);
        assert forall|w: int| 0 <= w <= n implies {
            &&& 0 <= (#[trigger] fp@[w]).covered() <= w * fp@[w].windows
            &&& fp@[w].covered() <= fp@[w].distinct * fp@[w].windows
        } by {
            lemma_window_sum_bounds(trace@, w);
        }
        assert forall|v: int, w: int| 0 <= v <= w <= n implies (#[trigger] fp@[v]).covered() * (
        #[trigger] fp@[w]).windows <= fp@[w].covered() * fp@[v].windows by {
            lemma_footprint_monotone(trace@, v, w);
        }
    }
    fp
}

} // verus!
