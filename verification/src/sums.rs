//! Finite sums of integer-valued functions.
use vstd::prelude::*;

verus! {

/// The sum of `f(0)`, …, `f(n - 1)`.
pub open spec fn sum(f: spec_fn(int) -> int, n: int) -> int
    decreases n,
{
    if n <= 0 {
        0
    } else {
        sum(f, n - 1) + f(n - 1)
    }
}

/// Functions that agree below `n` have the same sum.
pub proof fn lemma_sum_equal(f: spec_fn(int) -> int, g: spec_fn(int) -> int, n: int)
    requires
        forall|i: int| 0 <= i < n ==> #[trigger] f(i) == g(i),
    ensures
        sum(f, n) == sum(g, n),
    decreases n,
{
    if n > 0 {
        lemma_sum_equal(f, g, n - 1);
    }
}

/// Terms that are zero add nothing.
pub proof fn lemma_sum_skip(f: spec_fn(int) -> int, lo: int, hi: int)
    requires
        0 <= lo <= hi,
        forall|i: int| lo <= i < hi ==> #[trigger] f(i) == 0,
    ensures
        sum(f, hi) == sum(f, lo),
    decreases hi - lo,
{
    if lo < hi {
        lemma_sum_skip(f, lo, hi - 1);
    }
}

/// `v`, kept within `[0, n]`.
pub open spec fn clamp(v: int, n: int) -> int {
    if v < 0 {
        0
    } else if v > n {
        n
    } else {
        v
    }
}

/// Whether `f` is `g` moved by `d` places within `[0, n)`: `f(i)` is
/// `g(i - d)` where that place exists and zero elsewhere, and `g` is zero at
/// the places that would move out.
pub open spec fn is_moved(f: spec_fn(int) -> int, g: spec_fn(int) -> int, n: int, d: int) -> bool {
    &&& forall|i: int|
        0 <= i < n ==> #[trigger] f(i) == if 0 <= i - d < n {
            g(i - d)
        } else {
            0
        }
    &&& forall|j: int| 0 <= j < n && !(0 <= j + d < n) ==> #[trigger] g(j) == 0
}

/// Moving the terms of a sum within its range keeps the sum.
pub proof fn lemma_sum_moved(f: spec_fn(int) -> int, g: spec_fn(int) -> int, n: int, d: int)
    requires
        0 <= n,
        is_moved(f, g, n, d),
    ensures
        sum(f, n) == sum(g, n),
{
    lemma_sum_moved_upto(f, g, n, d, n);
    if d >= 0 {
        lemma_sum_skip(g, clamp(n - d, n), n);
    }
}

proof fn lemma_sum_moved_upto(f: spec_fn(int) -> int, g: spec_fn(int) -> int, n: int, d: int, k: int)
    requires
        0 <= k <= n,
        is_moved(f, g, n, d),
    ensures
        sum(f, k) == sum(g, clamp(k - d, n)),
    decreases k,
{
    if k == 0 {
        lemma_sum_skip(g, 0, clamp(-d, n));
    } else {
        lemma_sum_moved_upto(f, g, n, d, k - 1);
        let i = k - 1;
        if 0 <= i - d < n {
            assert(f(i) == g(i - d));
            assert(clamp(k - d, n) == i - d + 1);
            assert(clamp(i - d, n) == i - d);
        } else {
            assert(f(i) == 0);
            assert(clamp(k - d, n) == clamp(i - d, n));
        }
    }
}

/// The sum of sums is the sum of the sums.
pub proof fn lemma_sum_add(f: spec_fn(int) -> int, g: spec_fn(int) -> int, h: spec_fn(int) -> int, n: int)
    requires
        forall|i: int| 0 <= i < n ==> #[trigger] h(i) == f(i) + g(i),
    ensures
        sum(h, n) == sum(f, n) + sum(g, n),
    decreases n,
{
    if n > 0 {
        lemma_sum_add(f, g, h, n - 1);
    }
}

/// A sum of zeros is zero.
pub proof fn lemma_sum_zero(f: spec_fn(int) -> int, n: int)
    requires
        forall|i: int| 0 <= i < n ==> #[trigger] f(i) == 0,
    ensures
        sum(f, n) == 0,
    decreases n,
{
    if n > 0 {
        lemma_sum_zero(f, n - 1);
    }
}

/// A sum with a single term that is not zero is that term.
pub proof fn lemma_sum_single(f: spec_fn(int) -> int, n: int, at: int)
    requires
        0 <= at < n,
        forall|i: int| 0 <= i < n && i != at ==> #[trigger] f(i) == 0,
    ensures
        sum(f, n) == f(at),
    decreases n,
{
    if n - 1 == at {
        lemma_sum_zero(f, n - 1);
    } else {
        lemma_sum_single(f, n - 1, at);
    }
}

/// A double sum does not depend on the order of summation.
pub proof fn lemma_sum_swap(f: spec_fn(int, int) -> int, n: int, m: int)
    ensures
        sum(|i: int| sum(|j: int| f(i, j), m), n) == sum(|j: int| sum(|i: int| f(i, j), n), m),
    decreases n,
{
    let rows = |i: int| sum(|j: int| f(i, j), m);
    let columns = |j: int| sum(|i: int| f(i, j), n);
    if n <= 0 {
        lemma_sum_zero(columns, m);
    } else {
        lemma_sum_swap(f, n - 1, m);
        let before = |j: int| sum(|i: int| f(i, j), n - 1);
        let last = |j: int| f(n - 1, j);
        assert forall|j: int| 0 <= j < m implies #[trigger] columns(j) == before(j) + last(j) by {
            let column = |i: int| f(i, j);
            assert(sum(column, n) == sum(column, n - 1) + column(n - 1));
        }
        lemma_sum_add(before, last, columns, m);
        assert(sum(rows, n) == sum(rows, n - 1) + rows(n - 1));
        assert(sum(rows, n - 1) == sum(before, m));
        assert(rows(n - 1) == sum(last, m)) by {
            lemma_sum_equal(|j: int| f(n - 1, j), last, m);
        }
    }
}

} // verus!
