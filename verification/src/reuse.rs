//! The reuse-interval analysis: for each access, how far back the previous
//! access to the same identifier lies.

use vstd::prelude::*;
use std::collections::HashMap;
use crate::distinct::{distinct_count, first_marks, lemma_distinct_count};
use crate::histogram::{count_of, value_marks};
use crate::ident::{obeys_id_contract, ObjIdTraits};
use crate::occurrence::{
    is_first,
    last_before,
    lemma_last_before,
    prev_occurrence,
    reuse_distance,
    reuse_intervals,
    INF,
};
use crate::sums::lemma_sum_eq;

verus! {

/// An interval that is not `INF` lies at least 1 and at most its position
/// back, so in a trace that a machine can hold none is mistaken for `INF`. It
/// leads to an access to the same identifier, with none in between.
pub proof fn lemma_reuse_distance<T>(t: Seq<T>, i: int)
    requires
        0 <= i < t.len() <= usize::MAX,
    ensures
        reuse_distance(t, i) == INF <==> is_first(t, i),
        !is_first(t, i) ==> 1 <= reuse_distance(t, i) <= i,
        !is_first(t, i) ==> reuse_distance(t, i) == i - prev_occurrence(t, i),
        !is_first(t, i) ==> t[i - reuse_distance(t, i)] == t[i],
        !is_first(t, i) ==> forall|k: int| i - reuse_distance(t, i) < k < i ==> t[k] != t[i],
{
    lemma_last_before(t, t[i], i);
}

/// The reuse-interval sequence holds `INF` once for each distinct identifier
/// of the trace: at its first access, and nowhere else.
pub proof fn lemma_sentinel_count<T>(t: Seq<T>)
    requires
        t.len() <= usize::MAX,
    ensures
        count_of(reuse_intervals(t), INF as int) == distinct_count(t),
        forall|i: int| 0 <= i < t.len() ==> (reuse_intervals(t)[i] == INF <==> is_first(t, i)),
{
    let r = reuse_intervals(t);
    assert forall|i: int| 0 <= i < t.len() implies #[trigger] value_marks(r, INF as int)(i)
        == first_marks(t)(i) by {
        lemma_reuse_distance(t, i);
    }
    lemma_sum_eq(0, t.len() as int, value_marks(r, INF as int), first_marks(t));
    lemma_distinct_count(t);
    assert forall|i: int| 0 <= i < t.len() implies (reuse_intervals(t)[i] == INF <==> is_first(
        t,
        i,
    )) by {
        lemma_reuse_distance(t, i);
    }
}

/// Computes the reuse interval of every access of `trace`.
///
/// Entry `i` is the distance from position `i` back to the previous access to
/// the same identifier, or `INF` where there is none; so `INF` stands once for
/// each distinct identifier.
pub fn reuse_interval<ObjId: ObjIdTraits>(trace: &[ObjId]) -> (intervals: Vec<usize>)
    requires
        obeys_id_contract::<ObjId>(),
    ensures
        intervals@ == reuse_intervals(trace@),
        count_of(intervals@, INF as int) == distinct_count(trace@),
        forall|i: int|
            0 <= i < trace.len() ==> (#[trigger] intervals@[i] == INF <==> is_first(trace@, i)),
        forall|i: int|
            0 <= i < trace.len() && #[trigger] intervals@[i] != INF ==> 1 <= intervals@[i] <= i
                && trace@[i - intervals@[i]] == trace@[i],
{
    let n = trace.len();
    let mut last_seen: HashMap<ObjId, usize> = HashMap::new();
    let mut intervals: Vec<usize> = Vec::new();
    let mut i: usize = 0;
    while i < n
        invariant
            n == trace.len(),
            i <= n,
            obeys_id_contract::<ObjId>(),
            intervals@.len() == i,
            forall|j: int| 0 <= j < i ==> intervals@[j] == reuse_distance(trace@, j),
            forall|x: ObjId| #[trigger]
                last_seen@.contains_key(x) <==> last_before(trace@, x, i as int) >= 0,
            forall|x: ObjId| #[trigger]
                last_seen@.contains_key(x) ==> last_seen@[x] == last_before(trace@, x, i as int),
        decreases n - i,
    {
        proof {
            lemma_last_before(trace@, trace@[i as int], i as int);
        }
        let interval = match last_seen.get(&trace[i]) {
            Some(seen) => i - *seen,
            None => INF,
        };
        intervals.push(interval);
        let id = trace[i].clone();
        assert(cloned::<ObjId>(trace@[i as int], id));
        last_seen.insert(id, i);
        i += 1;
    }
    proof {
        assert(intervals@ =~= reuse_intervals(trace@));
        lemma_sentinel_count(trace@);
        assert forall|i: int| 0 <= i < trace.len() && #[trigger] intervals@[i] != INF implies 1
            <= intervals@[i] <= i && trace@[i - intervals@[i]] == trace@[i] by {
            lemma_reuse_distance(trace@, i);
        }
    }
    intervals
}

} // verus!
