//! Counting the distinct identifiers of a trace and of its windows.

use vstd::prelude::*;
use vstd::seq_lib::seq_to_set_is_finite;
use vstd::set_lib::lemma_len_subset;
use crate::occurrence::{is_first, is_last, lemma_last_before, prev_occurrence, last_before};
use crate::sums::{indicator, lemma_sum_split, sum_range};

verus! {

/// The number of distinct identifiers in `t`.
pub open spec fn distinct_count<T>(t: Seq<T>) -> nat {
    t.to_set().len()
}

/// The number of distinct identifiers among the `w` accesses from position `s` on.
pub open spec fn window_distinct<T>(t: Seq<T>, s: int, w: int) -> nat
    recommends
        0 <= s,
        0 <= w,
        s + w <= t.len(),
{
    distinct_count(t.subrange(s, s + w))
}

/// 1 at each first access of `t`, 0 elsewhere.
pub open spec fn first_marks<T>(t: Seq<T>) -> spec_fn(int) -> int {
    |i: int| indicator(is_first(t, i))
}

/// 1 at each last access of `t`, 0 elsewhere.
pub open spec fn last_marks<T>(t: Seq<T>) -> spec_fn(int) -> int {
    |i: int| indicator(is_last(t, i))
}

/// A window that takes in one more access on its right gains a distinct
/// identifier exactly when that access has no earlier one inside the window.
pub proof fn lemma_window_grow<T>(t: Seq<T>, s: int, w: int)
    requires
        0 <= s,
        0 <= w,
        s + w < t.len(),
    ensures
        window_distinct(t, s, w + 1) == window_distinct(t, s, w) + indicator(
            prev_occurrence(t, s + w) < s,
        ),
{
    broadcast use seq_to_set_is_finite;

    let a = t.subrange(s, s + w);
    let b = t.subrange(s, s + w + 1);
    let x = t[s + w];
    assert(b =~= a.push(x));
    a.lemma_push_to_set_commute(x);
    lemma_last_before(t, x, s + w);
    let p = prev_occurrence(t, s + w);
    if a.to_set().contains(x) {
        let j = choose|j: int| 0 <= j < a.len() && a[j] == x;
        assert(t[s + j] == x);
        assert(p >= s + j);
        assert(a.to_set().insert(x) =~= a.to_set());
    } else {
        if p >= s {
            assert(a[p - s] == x);
            assert(a.contains(x));
        }
    }
}

/// A window lies inside the trace, so it holds no more distinct identifiers
/// than the trace, and no more than it has positions.
pub proof fn lemma_window_bounds<T>(t: Seq<T>, s: int, w: int)
    requires
        0 <= s,
        0 <= w,
        s + w <= t.len(),
    ensures
        window_distinct(t, s, w) <= w,
        window_distinct(t, s, w) <= distinct_count(t),
{
    broadcast use seq_to_set_is_finite;

    let a = t.subrange(s, s + w);
    a.lemma_cardinality_of_set();
    assert forall|x: T| a.to_set().contains(x) implies t.to_set().contains(x) by {
        let j = choose|j: int| 0 <= j < a.len() && a[j] == x;
        assert(t[s + j] == x);
    }
    lemma_len_subset(a.to_set(), t.to_set());
}

/// A window holds at least as many distinct identifiers as the window that
/// starts one position later and ends with it.
pub proof fn lemma_window_covers_right<T>(t: Seq<T>, s: int, w: int)
    requires
        0 <= s,
        0 <= w,
        s + w < t.len(),
    ensures
        window_distinct(t, s + 1, w) <= window_distinct(t, s, w + 1),
{
    broadcast use seq_to_set_is_finite;

    let a = t.subrange(s + 1, s + 1 + w);
    let b = t.subrange(s, s + w + 1);
    assert forall|x: T| a.to_set().contains(x) implies b.to_set().contains(x) by {
        let j = choose|j: int| 0 <= j < a.len() && a[j] == x;
        assert(b[j + 1] == x);
    }
    lemma_len_subset(a.to_set(), b.to_set());
}

/// The distinct identifiers of a prefix are as many as the first accesses in it.
pub proof fn lemma_prefix_distinct<T>(t: Seq<T>, k: int)
    requires
        0 <= k <= t.len(),
    ensures
        window_distinct(t, 0, k) == sum_range(0, k, first_marks(t)),
    decreases k,
{
    if k == 0 {
        assert(t.subrange(0, 0).to_set() =~= Set::<T>::empty());
    } else {
        lemma_prefix_distinct(t, k - 1);
        lemma_window_grow(t, 0, k - 1);
    }
}

/// The distinct identifiers of a suffix are as many as the last accesses in it.
pub proof fn lemma_suffix_distinct<T>(t: Seq<T>, a: int)
    requires
        0 <= a <= t.len(),
    ensures
        window_distinct(t, a, t.len() - a) == sum_range(a, t.len() as int, last_marks(t)),
    decreases t.len() - a,
{
    broadcast use seq_to_set_is_finite;

    let n = t.len() as int;
    if a == n {
        assert(t.subrange(n, n).to_set() =~= Set::<T>::empty());
    } else {
        lemma_suffix_distinct(t, a + 1);
        lemma_sum_split(a, a + 1, n, last_marks(t));
        assert(sum_range(a, a + 1, last_marks(t)) == last_marks(t)(a)) by {
            assert(sum_range(a, a, last_marks(t)) == 0);
        }
        let x = t[a];
        let rest = t.subrange(a + 1, n);
        let whole = t.subrange(a, n);
        assert(whole.to_set() =~= rest.to_set().insert(x)) by {
            assert forall|y: T| whole.to_set().contains(y) implies rest.to_set().insert(x).contains(
                y,
            ) by {
                let j = choose|j: int| 0 <= j < whole.len() && whole[j] == y;
                if j > 0 {
                    assert(rest[j - 1] == y);
                }
            }
            assert forall|y: T| rest.to_set().insert(x).contains(y) implies whole.to_set().contains(
                y,
            ) by {
                if y == x {
                    assert(whole[0] == x);
                } else {
                    let j = choose|j: int| 0 <= j < rest.len() && rest[j] == y;
                    assert(whole[j + 1] == y);
                }
            }
        }
        lemma_last_before(t, x, n);
        let l = last_before(t, x, n);
        if rest.to_set().contains(x) {
            let j = choose|j: int| 0 <= j < rest.len() && rest[j] == x;
            assert(t[a + 1 + j] == x);
            assert(l >= a + 1 + j);
            assert(rest.to_set().insert(x) =~= rest.to_set());
        } else {
            if l != a {
                assert(l > a);
                assert(rest[l - a - 1] == x);
                assert(rest.contains(x));
            }
        }
    }
}

/// A trace has as many first accesses, and as many last accesses, as it has
/// distinct identifiers.
pub proof fn lemma_distinct_count<T>(t: Seq<T>)
    ensures
        distinct_count(t) == sum_range(0, t.len() as int, first_marks(t)),
        distinct_count(t) == sum_range(0, t.len() as int, last_marks(t)),
        distinct_count(t) <= t.len(),
{
    lemma_prefix_distinct(t, t.len() as int);
    lemma_suffix_distinct(t, 0);
    assert(t.subrange(0, t.len() as int) =~= t);
    t.lemma_cardinality_of_set();
}

} // verus!
