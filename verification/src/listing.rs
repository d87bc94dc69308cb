//! Sums over positions that are handed over as a list in no particular order,
//! as a hash map hands out what it holds.

use vstd::prelude::*;
use crate::sums::{lemma_sum_eq, lemma_sum_shift, lemma_sum_split, sum_range};

verus! {

/// For each index of `list`, the value of `g` at the position listed there.
pub open spec fn listed_terms(list: Seq<usize>, g: spec_fn(int) -> int) -> spec_fn(int) -> int {
    |j: int| g(list[j] as int)
}

/// For each position, the value of `g` there if `mark` is not 0, and else 0.
pub open spec fn marked_terms(mark: spec_fn(int) -> int, g: spec_fn(int) -> int) -> spec_fn(
    int,
) -> int {
    |i: int|
        if mark(i) != 0 {
            g(i)
        } else {
            0
        }
}

/// Whether `list` names every position below `n` at which `mark` is not 0,
/// each of them once, and no other position.
pub open spec fn enumerates(list: Seq<usize>, mark: spec_fn(int) -> int, n: int) -> bool {
    &&& forall|i: int, j: int|
        0 <= i < list.len() && 0 <= j < list.len() && i != j ==> #[trigger] list[i]
            != #[trigger] list[j]
    &&& forall|j: int| 0 <= j < list.len() ==> (#[trigger] list[j]) < n && mark(list[j] as int) != 0
    &&& forall|p: int|
        0 <= p < n && #[trigger] mark(p) != 0 ==> exists|j: int|
            0 <= j < list.len() && #[trigger] list[j] == p
}

/// Taking one entry out of a list takes its term out of the sum.
pub proof fn lemma_listed_sum_remove(list: Seq<usize>, g: spec_fn(int) -> int, at: int)
    requires
        0 <= at < list.len(),
    ensures
        sum_range(0, list.len() as int, listed_terms(list, g)) == g(list[at] as int) + sum_range(
            0,
            list.len() - 1,
            listed_terms(list.remove(at), g),
        ),
{
    let len = list.len() as int;
    let rest = list.remove(at);
    let whole_terms = listed_terms(list, g);
    let rest_terms = listed_terms(rest, g);
    lemma_sum_split(0, at, len, whole_terms);
    lemma_sum_split(at, at + 1, len, whole_terms);
    assert(sum_range(at, at + 1, whole_terms) == whole_terms(at)) by {
        assert(sum_range(at, at, whole_terms) == 0);
    }
    lemma_sum_split(0, at, len - 1, rest_terms);
    assert forall|j: int| 0 <= j < at implies #[trigger] rest_terms(j) == whole_terms(j) by {}
    lemma_sum_eq(0, at, rest_terms, whole_terms);
    assert forall|j: int| at <= j < len - 1 implies #[trigger] rest_terms(j) == whole_terms(
        j + 1,
    ) by {}
    lemma_sum_shift(at, len - 1, 1, whole_terms, rest_terms);
}

/// The order of a list does not matter to a sum over it: summing `g` over a
/// list that names the marked positions is summing it over those positions
/// from the first to the last.
pub proof fn lemma_enumeration_sum(
    list: Seq<usize>,
    mark: spec_fn(int) -> int,
    g: spec_fn(int) -> int,
    n: int,
)
    requires
        0 <= n,
        enumerates(list, mark, n),
    ensures
        sum_range(0, list.len() as int, listed_terms(list, g)) == sum_range(
            0,
            n,
            marked_terms(mark, g),
        ),
        list.len() <= n,
    decreases n,
{
    if n == 0 {
        if list.len() > 0 {
            assert(list[0] < n);
        }
    } else if mark(n - 1) != 0 {
        let at = choose|j: int| 0 <= j < list.len() && #[trigger] list[j] == n - 1;
        let rest = list.remove(at);
        assert(enumerates(rest, mark, n - 1)) by {
            assert forall|i: int, j: int|
                0 <= i < rest.len() && 0 <= j < rest.len() && i != j implies #[trigger] rest[i]
                != #[trigger] rest[j] by {
                let from_i = if i < at {
                    i
                } else {
                    i + 1
                };
                let from_j = if j < at {
                    j
                } else {
                    j + 1
                };
                assert(rest[i] == list[from_i] && rest[j] == list[from_j]);
            }
            assert forall|j: int| 0 <= j < rest.len() implies (#[trigger] rest[j]) < n - 1 && mark(
                rest[j] as int,
            ) != 0 by {
                let from = if j < at {
                    j
                } else {
                    j + 1
                };
                assert(rest[j] == list[from]);
                assert(list[from] != list[at]);
            }
            assert forall|p: int| 0 <= p < n - 1 && #[trigger] mark(p) != 0 implies exists|j: int|
                0 <= j < rest.len() && #[trigger] rest[j] == p by {
                let from = choose|j: int| 0 <= j < list.len() && #[trigger] list[j] == p;
                let to = if from < at {
                    from
                } else {
                    from - 1
                };
                assert(rest[to] == list[from]);
            }
        }
        lemma_enumeration_sum(rest, mark, g, n - 1);
        lemma_listed_sum_remove(list, g, at);
    } else {
        assert(enumerates(list, mark, n - 1)) by {
            assert forall|j: int| 0 <= j < list.len() implies (#[trigger] list[j]) < n - 1 && mark(
                list[j] as int,
            ) != 0 by {
                assert(list[j] < n && mark(list[j] as int) != 0);
            }
        }
        lemma_enumeration_sum(list, mark, g, n - 1);
    }
}

} // verus!
