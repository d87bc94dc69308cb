//! Finite sums over integer ranges, and the lemmas the counting arguments need.

use vstd::prelude::*;

verus! {

/// The sum of `f(i)` over `lo <= i < hi`; zero for an empty range.
pub open spec fn sum_range(lo: int, hi: int, f: spec_fn(int) -> int) -> int
    decreases hi - lo,
{
    if hi <= lo {
        0
    } else {
        sum_range(lo, hi - 1, f) + f(hi - 1)
    }
}

/// 1 for a true condition, 0 for a false one.
pub open spec fn indicator(b: bool) -> int {
    if b {
        1
    } else {
        0
    }
}

/// The positive part of `x`.
pub open spec fn pos(x: int) -> int {
    if x > 0 {
        x
    } else {
        0
    }
}

/// Two functions that agree on the range have the same sum.
pub proof fn lemma_sum_eq(lo: int, hi: int, f: spec_fn(int) -> int, g: spec_fn(int) -> int)
    requires
        forall|i: int| lo <= i < hi ==> #[trigger] f(i) == g(i),
    ensures
        sum_range(lo, hi, f) == sum_range(lo, hi, g),
    decreases hi - lo,
{
    if hi > lo {
        lemma_sum_eq(lo, hi - 1, f, g);
    }
}

/// A pointwise bound carries over to the sums.
pub proof fn lemma_sum_le(lo: int, hi: int, f: spec_fn(int) -> int, g: spec_fn(int) -> int)
    requires
        forall|i: int| lo <= i < hi ==> #[trigger] f(i) <= g(i),
    ensures
        sum_range(lo, hi, f) <= sum_range(lo, hi, g),
    decreases hi - lo,
{
    if hi > lo {
        lemma_sum_le(lo, hi - 1, f, g);
    }
}

/// The sum of a pointwise sum is the sum of the sums.
pub proof fn lemma_sum_add(
    lo: int,
    hi: int,
    f: spec_fn(int) -> int,
    g: spec_fn(int) -> int,
    h: spec_fn(int) -> int,
)
    requires
        forall|i: int| lo <= i < hi ==> #[trigger] h(i) == f(i) + g(i),
    ensures
        sum_range(lo, hi, h) == sum_range(lo, hi, f) + sum_range(lo, hi, g),
    decreases hi - lo,
{
    if hi > lo {
        lemma_sum_add(lo, hi - 1, f, g, h);
    }
}

/// A range can be cut in two at any point inside it.
pub proof fn lemma_sum_split(lo: int, mid: int, hi: int, f: spec_fn(int) -> int)
    requires
        lo <= mid <= hi,
    ensures
        sum_range(lo, hi, f) == sum_range(lo, mid, f) + sum_range(mid, hi, f),
    decreases hi - mid,
{
    if hi > mid {
        lemma_sum_split(lo, mid, hi - 1, f);
    }
}

/// Moving the range by `d` and the argument back by `d` leaves the sum unchanged.
pub proof fn lemma_sum_shift(
    lo: int,
    hi: int,
    d: int,
    f: spec_fn(int) -> int,
    g: spec_fn(int) -> int,
)
    requires
        forall|i: int| lo <= i < hi ==> #[trigger] g(i) == f(i + d),
    ensures
        sum_range(lo, hi, g) == sum_range(lo + d, hi + d, f),
    decreases hi - lo,
{
    if hi > lo {
        lemma_sum_shift(lo, hi - 1, d, f, g);
    }
}

/// Where every term lies between `a` and `b`, the sum lies between `a` and `b`
/// times the number of terms.
pub proof fn lemma_sum_bounds(lo: int, hi: int, f: spec_fn(int) -> int, a: int, b: int)
    requires
        lo <= hi,
        forall|i: int| lo <= i < hi ==> a <= #[trigger] f(i) <= b,
    ensures
        a * (hi - lo) <= sum_range(lo, hi, f) <= b * (hi - lo),
    decreases hi - lo,
{
    if hi > lo {
        lemma_sum_bounds(lo, hi - 1, f, a, b);
        assert(a * (hi - lo) == a * (hi - 1 - lo) + a) by (nonlinear_arith);
        assert(b * (hi - lo) == b * (hi - 1 - lo) + b) by (nonlinear_arith);
    } else {
        assert(a * (hi - lo) == 0) by (nonlinear_arith)
            requires
                hi - lo == 0,
        ;
        assert(b * (hi - lo) == 0) by (nonlinear_arith)
            requires
                hi - lo == 0,
        ;
    }
}

/// Where no term is below `a`, the sum is not below `a` times the number of terms.
pub proof fn lemma_sum_lower(lo: int, hi: int, f: spec_fn(int) -> int, a: int)
    requires
        lo <= hi,
        forall|i: int| lo <= i < hi ==> a <= #[trigger] f(i),
    ensures
        a * (hi - lo) <= sum_range(lo, hi, f),
    decreases hi - lo,
{
    if hi > lo {
        lemma_sum_lower(lo, hi - 1, f, a);
        assert(a * (hi - lo) == a * (hi - 1 - lo) + a) by (nonlinear_arith);
    } else {
        assert(a * (hi - lo) == 0) by (nonlinear_arith)
            requires
                hi - lo == 0,
        ;
    }
}

/// A weight placed on the single point `v` contributes `g(v)` when `v` lies in
/// the range, and nothing otherwise.
pub proof fn lemma_sum_point(
    lo: int,
    hi: int,
    v: int,
    g: spec_fn(int) -> int,
    h: spec_fn(int) -> int,
)
    requires
        forall|r: int| lo <= r < hi ==> #[trigger] h(r) == g(r) * indicator(r == v),
    ensures
        sum_range(lo, hi, h) == if lo <= v < hi {
            g(v)
        } else {
            0
        },
    decreases hi - lo,
{
    if hi > lo {
        lemma_sum_point(lo, hi - 1, v, g, h);
        assert(h(hi - 1) == g(hi - 1) * indicator(hi - 1 == v));
        if hi - 1 == v {
            assert(g(v) * 1 == g(v)) by (nonlinear_arith);
        } else {
            assert(g(hi - 1) * 0 == 0) by (nonlinear_arith);
        }
    }
}

} // verus!
