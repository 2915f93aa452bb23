//! Finite sums of natural numbers over an index range, the arithmetic behind
//! every count of marbles and of visits.

use vstd::prelude::*;

verus! {

/// The sum of `h(0)`, ..., `h(n - 1)`.
pub open spec fn sum_upto(h: spec_fn(int) -> nat, n: int) -> nat
    decreases n,
{
    if n <= 0 {
        0
    } else {
        sum_upto(h, n - 1) + h(n - 1)
    }
}

/// Sums of functions that agree below `n` are equal.
pub proof fn lemma_sum_ext(h: spec_fn(int) -> nat, g: spec_fn(int) -> nat, n: int)
    requires
        forall|i: int| 0 <= i < n ==> #[trigger] h(i) == g(i),
    ensures
        sum_upto(h, n) == sum_upto(g, n),
    decreases n,
{
    if n > 0 {
        lemma_sum_ext(h, g, n - 1);
    }
}

/// A sum can be split at its first term.
pub proof fn lemma_sum_shift(h: spec_fn(int) -> nat, n: int)
    requires
        n > 0,
    ensures
        sum_upto(h, n) == h(0) + sum_upto(|i: int| h(i + 1), n - 1),
    decreases n,
{
    let t = |i: int| h(i + 1);
    if n > 1 {
        lemma_sum_shift(h, n - 1);
        assert(t(n - 2) == h(n - 1));
    } else {
        assert(sum_upto(h, 0) == 0);
        assert(sum_upto(t, 0) == 0);
    }
}

/// A sum does not depend on the direction in which the range is walked.
pub proof fn lemma_sum_reverse(h: spec_fn(int) -> nat, n: int)
    requires
        n >= 0,
    ensures
        sum_upto(|i: int| h(n - 1 - i), n) == sum_upto(h, n),
    decreases n,
{
    if n > 0 {
        let r = |i: int| h(n - 1 - i);
        let t = |i: int| h(i + 1);
        let tr = |i: int| t(n - 2 - i);
        // the reversed sum ends with h(0); what is before it is the reversed tail
        assert(r(n - 1) == h(0));
        lemma_sum_ext(r, tr, n - 1);
        lemma_sum_reverse(t, n - 1);
        lemma_sum_shift(h, n);
    }
}

/// Changing one term changes the sum by the difference of that term.
pub proof fn lemma_sum_change(h: spec_fn(int) -> nat, g: spec_fn(int) -> nat, n: int, k: int)
    requires
        0 <= k < n,
        forall|i: int| 0 <= i < n && i != k ==> #[trigger] h(i) == g(i),
    ensures
        sum_upto(g, n) + h(k) == sum_upto(h, n) + g(k),
    decreases n,
{
    if k == n - 1 {
        lemma_sum_ext(h, g, n - 1);
    } else {
        lemma_sum_change(h, g, n - 1, k);
    }
}

/// A sum is at least each of its terms.
pub proof fn lemma_sum_bounds_term(h: spec_fn(int) -> nat, n: int, k: int)
    requires
        0 <= k < n,
    ensures
        h(k) <= sum_upto(h, n),
    decreases n,
{
    if k < n - 1 {
        lemma_sum_bounds_term(h, n - 1, k);
    }
}

/// A sum over a longer range is not smaller.
pub proof fn lemma_sum_grows(h: spec_fn(int) -> nat, n: int, m: int)
    requires
        n <= m,
    ensures
        sum_upto(h, n) <= sum_upto(h, m),
    decreases m - n,
{
    if n < m {
        lemma_sum_grows(h, n, m - 1);
    }
}

/// A sum of zeros is zero.
pub proof fn lemma_sum_zero(h: spec_fn(int) -> nat, n: int)
    requires
        forall|i: int| 0 <= i < n ==> #[trigger] h(i) == 0,
    ensures
        sum_upto(h, n) == 0,
    decreases n,
{
    if n > 0 {
        lemma_sum_zero(h, n - 1);
    }
}

} // verus!
