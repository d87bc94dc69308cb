//! The access-span analysis: for each identifier, the first and the last
//! position at which the trace holds it.

use vstd::prelude::*;
use std::collections::HashMap;
use crate::distinct::distinct_count;
use crate::ident::{obeys_id_contract, ObjIdTraits};
use crate::occurrence::{
    access_spans,
    first_before,
    last_before,
    lemma_first_before,
    lemma_first_last,
    lemma_last_before,
};

verus! {

/// Every identifier of the trace has one span, and no other value has; each
/// span starts and ends at a position that holds its identifier, and does not
/// end before it starts.
pub proof fn lemma_access_spans<T>(t: Seq<T>)
    requires
        t.len() <= usize::MAX,
    ensures
        access_spans(t).dom() == t.to_set(),
        access_spans(t).dom().finite(),
        access_spans(t).len() == distinct_count(t),
        forall|x: T| #[trigger]
            access_spans(t).contains_key(x) ==> {
                let (first, last) = access_spans(t)[x];
                &&& 0 <= first <= last < t.len()
                &&& t[first as int] == x
                &&& t[last as int] == x
                &&& forall|j: int| 0 <= j < first ==> t[j] != x
                &&& forall|j: int| last < j < t.len() ==> t[j] != x
            },
{
    broadcast use vstd::seq_lib::seq_to_set_is_finite;

    let n = t.len() as int;
    assert(access_spans(t).dom() =~= t.to_set());
    assert forall|x: T| #[trigger] access_spans(t).contains_key(x) implies {
        let (first, last) = access_spans(t)[x];
        &&& 0 <= first <= last < t.len()
        &&& t[first as int] == x
        &&& t[last as int] == x
        &&& forall|j: int| 0 <= j < first ==> t[j] != x
        &&& forall|j: int| last < j < t.len() ==> t[j] != x
    } by {
        lemma_first_last(t, x, n);
        lemma_first_before(t, x, n);
        lemma_last_before(t, x, n);
        assert(t.take(n) =~= t);
    }
}

/// Computes the span of every identifier of `trace`: the position of its
/// first access and that of its last. An empty trace gives an empty map.
pub fn access_times<ObjId: ObjIdTraits>(trace: &[ObjId]) -> (spans: HashMap<ObjId, (usize, usize)>)
    requires
        obeys_id_contract::<ObjId>(),
    ensures
        spans@ == access_spans(trace@),
        spans@.len() == distinct_count(trace@),
        forall|x: ObjId| #[trigger] spans@.contains_key(x) ==> spans@[x].0 <= spans@[x].1,
{
    let n = trace.len();
    let mut spans: HashMap<ObjId, (usize, usize)> = HashMap::new();
    let mut i: usize = 0;
    while i < n
        invariant
            n == trace.len(),
            i <= n,
            obeys_id_contract::<ObjId>(),
            forall|x: ObjId| #[trigger]
                spans@.contains_key(x) <==> last_before(trace@, x, i as int) >= 0,
            forall|x: ObjId| #[trigger]
                spans@.contains_key(x) ==> spans@[x] == (
                    first_before(trace@, x, i as int) as usize,
                    last_before(trace@, x, i as int) as usize,
                ),
        decreases n - i,
    {
        proof {
            lemma_first_last(trace@, trace@[i as int], i as int);
            lemma_last_before(trace@, trace@[i as int], i as int);
        }
        let span = match spans.get(&trace[i]) {
            Some(seen) => (
                if seen.0 < i {
                    seen.0
                } else {
                    i
                },
                if seen.1 > i {
                    seen.1
                } else {
                    i
                },
            ),
            None => (i, i),
        };
        let id = trace[i].clone();
        assert(cloned::<ObjId>(trace@[i as int], id));
        spans.insert(id, span);
        proof {
            assert forall|x: ObjId| #[trigger] spans@.contains_key(x) implies spans@[x] == (
                first_before(trace@, x, i + 1) as usize,
                last_before(trace@, x, i + 1) as usize,
            ) by {
                lemma_first_last(trace@, x, i as int);
            }
        }
        i += 1;
    }
    proof {
        assert(spans@ =~= access_spans(trace@)) by {
            assert forall|x: ObjId| spans@.contains_key(x) <==> access_spans(trace@).contains_key(
                x,
            ) by {
                lemma_first_last(trace@, x, n as int);
                assert(trace@.take(n as int) =~= trace@);
            }
        }
        lemma_access_spans(trace@);
    }
    spans
}

} // verus!
