//! Where an identifier occurs in a trace: its first and last position, and for
//! each position the one at which the same identifier was seen before.

use vstd::prelude::*;

verus! {

/// The value that stands for "never seen before" in a reuse-interval sequence.
/// A trace of `n` accesses has intervals of at most `n - 1`, so no interval
/// ever equals it.
pub const INF: usize = usize::MAX;

/// The largest position below `k` at which `t` holds `x`, or -1 if there is none.
pub open spec fn last_before<T>(t: Seq<T>, x: T, k: int) -> int
    recommends
        k <= t.len(),
    decreases k,
{
    if k <= 0 {
        -1
    } else if t[k - 1] == x {
        k - 1
    } else {
        last_before(t, x, k - 1)
    }
}

/// The smallest position below `k` at which `t` holds `x`, or -1 if there is none.
pub open spec fn first_before<T>(t: Seq<T>, x: T, k: int) -> int
    recommends
        k <= t.len(),
    decreases k,
{
    if k <= 0 {
        -1
    } else if first_before(t, x, k - 1) >= 0 {
        first_before(t, x, k - 1)
    } else if t[k - 1] == x {
        k - 1
    } else {
        -1
    }
}

/// The position of the access to `t[i]` that came before position `i`, or -1
/// where position `i` is the first access to its identifier.
pub open spec fn prev_occurrence<T>(t: Seq<T>, i: int) -> int
    recommends
        0 <= i < t.len(),
{
    last_before(t, t[i], i)
}

/// Whether no earlier position holds the identifier at position `i`.
pub open spec fn is_first<T>(t: Seq<T>, i: int) -> bool
    recommends
        0 <= i < t.len(),
{
    prev_occurrence(t, i) < 0
}

/// Whether no later position holds the identifier at position `i`.
pub open spec fn is_last<T>(t: Seq<T>, i: int) -> bool
    recommends
        0 <= i < t.len(),
{
    last_before(t, t[i], t.len() as int) == i
}

/// The reuse interval of position `i`: the distance back to the previous
/// access to the same identifier, or `INF` at a first access.
pub open spec fn reuse_distance<T>(t: Seq<T>, i: int) -> usize
    recommends
        0 <= i < t.len(),
{
    if is_first(t, i) {
        INF
    } else {
        (i - prev_occurrence(t, i)) as usize
    }
}

/// The reuse interval of every position of `t`, in order.
pub open spec fn reuse_intervals<T>(t: Seq<T>) -> Seq<usize> {
    Seq::new(t.len(), |i: int| reuse_distance(t, i))
}

/// For each identifier that occurs in `t`, its first and its last position.
pub open spec fn access_spans<T>(t: Seq<T>) -> Map<T, (usize, usize)> {
    Map::new(
        |x: T| t.contains(x),
        |x: T|
            (
                first_before(t, x, t.len() as int) as usize,
                last_before(t, x, t.len() as int) as usize,
            ),
    )
}

/// `last_before` is what its name says: a position below `k` that holds `x`,
/// with no `x` between it and `k`; and -1 only if no position below `k` holds `x`.
pub proof fn lemma_last_before<T>(t: Seq<T>, x: T, k: int)
    requires
        0 <= k <= t.len(),
    ensures
        -1 <= last_before(t, x, k) < k,
        last_before(t, x, k) >= 0 ==> t[last_before(t, x, k)] == x,
        forall|l: int| last_before(t, x, k) < l < k ==> t[l] != x,
    decreases k,
{
    if k > 0 && t[k - 1] != x {
        lemma_last_before(t, x, k - 1);
    }
}

/// `first_before` is what its name says: a position below `k` that holds `x`,
/// with no `x` before it; and -1 only if no position below `k` holds `x`.
pub proof fn lemma_first_before<T>(t: Seq<T>, x: T, k: int)
    requires
        0 <= k <= t.len(),
    ensures
        -1 <= first_before(t, x, k) < k,
        first_before(t, x, k) >= 0 ==> t[first_before(t, x, k)] == x,
        first_before(t, x, k) >= 0 ==> forall|l: int| 0 <= l < first_before(t, x, k) ==> t[l] != x,
        first_before(t, x, k) < 0 ==> forall|l: int| 0 <= l < k ==> t[l] != x,
    decreases k,
{
    if k > 0 {
        lemma_first_before(t, x, k - 1);
    }
}

/// An identifier has a first position exactly when it has a last one, the first
/// is not after the last, and both exist exactly when the identifier occurs.
pub proof fn lemma_first_last<T>(t: Seq<T>, x: T, k: int)
    requires
        0 <= k <= t.len(),
    ensures
        first_before(t, x, k) >= 0 <==> last_before(t, x, k) >= 0,
        first_before(t, x, k) <= last_before(t, x, k),
        last_before(t, x, k) >= 0 <==> t.take(k).contains(x),
{
    lemma_last_before(t, x, k);
    lemma_first_before(t, x, k);
    let f = first_before(t, x, k);
    let l = last_before(t, x, k);
    if l >= 0 {
        assert(t.take(k)[l] == x);
    }
    if t.take(k).contains(x) {
        let j = choose|j: int| 0 <= j < t.take(k).len() && t.take(k)[j] == x;
        assert(t[j] == x);
    }
}

/// The position found by `last_before` is the only one with its two properties.
pub proof fn lemma_last_before_unique<T>(t: Seq<T>, x: T, k: int, j: int)
    requires
        0 <= j < k <= t.len(),
        t[j] == x,
        forall|l: int| j < l < k ==> t[l] != x,
    ensures
        last_before(t, x, k) == j,
{
    lemma_last_before(t, x, k);
}

/// The position found by `first_before` is the only one with its two properties.
pub proof fn lemma_first_before_unique<T>(t: Seq<T>, x: T, k: int, j: int)
    requires
        0 <= j < k <= t.len(),
        t[j] == x,
        forall|l: int| 0 <= l < j ==> t[l] != x,
    ensures
        first_before(t, x, k) == j,
{
    lemma_first_before(t, x, k);
}

/// Position `i` is a first access exactly when it is the first position of its
/// identifier, and a last access exactly when no later position holds it.
pub proof fn lemma_first_and_last_positions<T>(t: Seq<T>, i: int)
    requires
        0 <= i < t.len(),
    ensures
        is_first(t, i) <==> first_before(t, t[i], t.len() as int) == i,
        is_first(t, i) <==> forall|j: int| 0 <= j < i ==> t[j] != t[i],
        is_last(t, i) <==> forall|j: int| i < j < t.len() ==> t[j] != t[i],
        !is_first(t, i) ==> 1 <= i - prev_occurrence(t, i) <= i,
{
    let n = t.len() as int;
    lemma_last_before(t, t[i], i);
    lemma_last_before(t, t[i], n);
    lemma_first_before(t, t[i], n);
    if forall|j: int| 0 <= j < i ==> t[j] != t[i] {
        lemma_first_before_unique(t, t[i], n, i);
    }
    if forall|j: int| i < j < t.len() ==> t[j] != t[i] {
        lemma_last_before_unique(t, t[i], n, i);
    }
}

} // verus!
