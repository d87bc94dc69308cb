//! Replaying a trace through a cache simulator, one access after the other,
//! and counting what it answers.

use vstd::prelude::*;
use vstd::std_specs::iter::IteratorSpec;
use crate::distinct::{distinct_count, first_marks, lemma_distinct_count};
use crate::ident::ObjIdTraits;
use crate::occurrence::is_first;
use crate::outcome::AccessResult;
use crate::sums::{indicator, lemma_sum_eq, sum_range};

verus! {

/// The state that a machine with transition function `step` reaches from
/// `state` when it is fed `trace` in order.
pub open spec fn state_after<S, X>(
    step: spec_fn(S, X) -> (S, AccessResult),
    state: S,
    trace: Seq<X>,
) -> S
    decreases trace.len(),
{
    if trace.len() == 0 {
        state
    } else {
        state_after(step, step(state, trace[0]).0, trace.drop_first())
    }
}

/// The number of misses that a machine with transition function `step`
/// answers when, from `state`, it is fed `trace` in order.
pub open spec fn misses_along<S, X>(
    step: spec_fn(S, X) -> (S, AccessResult),
    state: S,
    trace: Seq<X>,
) -> nat
    decreases trace.len(),
{
    if trace.len() == 0 {
        0
    } else {
        let (next, outcome) = step(state, trace[0]);
        let here: nat = if outcome == AccessResult::Miss {
            1
        } else {
            0
        };
        here + misses_along(step, next, trace.drop_first())
    }
}

/// Replaying a prefix and then, from the state it left, the suffix, is
/// replaying the whole trace: the same state is reached, and the accesses and
/// the misses of the two parts add up to those of the whole.
pub proof fn lemma_replay_split<S, X>(
    step: spec_fn(S, X) -> (S, AccessResult),
    state: S,
    prefix: Seq<X>,
    suffix: Seq<X>,
)
    ensures
        state_after(step, state, prefix + suffix) == state_after(
            step,
            state_after(step, state, prefix),
            suffix,
        ),
        (prefix + suffix).len() == prefix.len() + suffix.len(),
        misses_along(step, state, prefix + suffix) == misses_along(step, state, prefix)
            + misses_along(step, state_after(step, state, prefix), suffix),
    decreases prefix.len(),
{
    if prefix.len() == 0 {
        assert(prefix + suffix =~= suffix);
    } else {
        assert((prefix + suffix).drop_first() =~= prefix.drop_first() + suffix);
        lemma_replay_split(step, step(state, prefix[0]).0, prefix.drop_first(), suffix);
    }
}

/// 1 at each position of `trace` at which the machine, fed `trace` from
/// `state`, answers with a miss, 0 elsewhere.
pub open spec fn miss_marks<S, X>(
    step: spec_fn(S, X) -> (S, AccessResult),
    state: S,
    trace: Seq<X>,
) -> spec_fn(int) -> int {
    |k: int|
        indicator(step(state_after(step, state, trace.take(k)), trace[k]).1 == AccessResult::Miss)
}

/// The misses of a replay are the positions at which the machine, in the
/// state that the accesses before have left, answers with a miss.
pub proof fn lemma_misses_by_position<S, X>(
    step: spec_fn(S, X) -> (S, AccessResult),
    state: S,
    trace: Seq<X>,
)
    ensures
        misses_along(step, state, trace) == sum_range(
            0,
            trace.len() as int,
            miss_marks(step, state, trace),
        ),
    decreases trace.len(),
{
    let n = trace.len() as int;
    if n > 0 {
        let front = trace.take(n - 1);
        let back = seq![trace[n - 1]];
        assert(trace =~= front + back);
        lemma_replay_split(step, state, front, back);
        lemma_misses_by_position(step, state, front);
        assert forall|k: int| 0 <= k < n - 1 implies #[trigger] miss_marks(step, state, front)(k)
            == miss_marks(step, state, trace)(k) by {
            assert(front.take(k) =~= trace.take(k));
        }
        lemma_sum_eq(0, n - 1, miss_marks(step, state, front), miss_marks(step, state, trace));
        let reached = state_after(step, state, front);
        assert(misses_along(step, reached, back) == miss_marks(step, state, trace)(n - 1)) by {
            assert(back.drop_first() =~= Seq::<X>::empty());
            assert(misses_along(step, step(reached, back[0]).0, back.drop_first()) == 0);
        }
    }
}

/// A cache that never evicts misses once for each distinct identifier: where a
/// machine, fed `trace` from `state`, misses at the first access to an
/// identifier and at no other, its misses are as many as the trace has
/// distinct identifiers.
pub proof fn lemma_misses_without_eviction<S, X>(
    step: spec_fn(S, X) -> (S, AccessResult),
    state: S,
    trace: Seq<X>,
)
    requires
        forall|k: int|
            0 <= k < trace.len() ==> (#[trigger] step(
                state_after(step, state, trace.take(k)),
                trace[k],
            ).1 == AccessResult::Miss <==> is_first(trace, k)),
    ensures
        misses_along(step, state, trace) == distinct_count(trace),
{
    lemma_misses_by_position(step, state, trace);
    assert forall|k: int| 0 <= k < trace.len() implies #[trigger] miss_marks(step, state, trace)(k)
        == first_marks(trace)(k) by {
        assert(step(state_after(step, state, trace.take(k)), trace[k]).1 == AccessResult::Miss
            <==> is_first(trace, k));
    }
    lemma_sum_eq(0, trace.len() as int, miss_marks(step, state, trace), first_marks(trace));
    lemma_distinct_count(trace);
}

/// The counts of accesses and of misses after one more access that was
/// answered with `outcome`.
pub fn count_access(counts: (usize, usize), outcome: AccessResult) -> (next: (usize, usize))
    requires
        counts.0 < usize::MAX,
        counts.1 < usize::MAX,
    ensures
        next.0 == counts.0 + 1,
        next.1 == counts.1 + if outcome == AccessResult::Miss {
            1int
        } else {
            0int
        },
{
    let (total, miss) = counts;
    match outcome {
        AccessResult::Miss => (total + 1, miss + 1),
        AccessResult::Hit => (total + 1, miss),
    }
}

/// A cache simulator: it is told of one access after the other and answers
/// each with a hit or a miss.
///
/// What it answers depends on the accesses it has seen so far and on nothing
/// else: `step` is the simulator as a function of its state. Which objects it
/// keeps and which it evicts is its own matter.
pub trait CacheSim<ObjId: ObjIdTraits>: Sized {
    /// The state that the access leaves, and what it is answered with.
    ///
    /// An implementation states here, as a function, what `cache_access`
    /// does to the simulator. Where the implementation is compiled without
    /// being verified, the function is an ordinary method: it performs the
    /// access on the simulator it is given and returns both.
    spec fn step(self, access: ObjId) -> (Self, AccessResult);

    /// Performs one access.
    fn cache_access(&mut self, access: ObjId) -> (outcome: AccessResult)
        ensures
            (*final(self), outcome) == old(self).step(access),
    ;

    /// Sets the number of objects that the cache holds, and hands the
    /// simulator back, so that calls can be chained.
    fn set_capacity(&mut self, cache_size: usize) -> (sim: &mut Self)
        ensures
            *final(self) == *final(sim),
    ;

    /// Replays `trace` in order and returns the number of accesses and the
    /// number of misses among them.
    fn get_total_miss(&mut self, trace: impl Iterator<Item = ObjId>) -> (counts: (usize, usize))
        requires
            trace.obeys_prophetic_iter_laws(),
            trace.decrease() is Some,
            trace.remaining().len() <= usize::MAX,
        ensures
            counts.0 == trace.remaining().len(),
            counts.1 <= counts.0,
            counts.1 == misses_along(
                |s: Self, x: ObjId| s.step(x),
                *old(self),
                trace.remaining(),
            ),
            *final(self) == state_after(
                |s: Self, x: ObjId| s.step(x),
                *old(self),
                trace.remaining(),
            ),
    {
        let mut trace = trace;
        let mut counts: (usize, usize) = (0, 0);
        let ghost whole = trace.remaining();
        let ghost step = |s: Self, x: ObjId| s.step(x);
        loop
            invariant_except_break
                trace.obeys_prophetic_iter_laws(),
                trace.decrease() is Some,
                whole.len() <= usize::MAX,
                step == |s: Self, x: ObjId| s.step(x),
                counts.0 + trace.remaining().len() == whole.len(),
                counts.1 <= counts.0,
                counts.1 + misses_along(step, *self, trace.remaining()) == misses_along(
                    step,
                    *old(self),
                    whole,
                ),
                state_after(step, *self, trace.remaining()) == state_after(step, *old(self), whole),
            ensures
                counts.0 == whole.len(),
                counts.1 <= counts.0,
                counts.1 == misses_along(step, *old(self), whole),
                *self == state_after(step, *old(self), whole),
            decreases trace.decrease()->0,
        {
            match trace.next() {
                Some(access) => {
                    let outcome = self.cache_access(access);
                    counts = count_access(counts, outcome);
                },
                None => {
                    break ;
                },
            }
        }
        counts
    }
}

/// Replaying a trace through a simulator in two parts, the second from where
/// the first has left the simulator, gives the counts and leaves the state of
/// a replay of the whole trace in one go.
pub proof fn lemma_replay_in_two_parts<ObjId: ObjIdTraits, S: CacheSim<ObjId>>(
    sim: S,
    prefix: Seq<ObjId>,
    suffix: Seq<ObjId>,
)
    ensures
        ({
            let step = |s: S, x: ObjId| s.step(x);
            let between = state_after(step, sim, prefix);
            &&& (prefix + suffix).len() == prefix.len() + suffix.len()
            &&& misses_along(step, sim, prefix + suffix) == misses_along(step, sim, prefix)
                + misses_along(step, between, suffix)
            &&& state_after(step, sim, prefix + suffix) == state_after(step, between, suffix)
        }),
{
    lemma_replay_split(|s: S, x: ObjId| s.step(x), sim, prefix, suffix);
}

} // verus!
