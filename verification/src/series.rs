//! Finite sums of integers, and what holds of sums.

use vstd::prelude::*;

verus! {

/// The sum of `f(0)`, ..., `f(n - 1)`.
pub open spec fn sum(f: spec_fn(int) -> int, n: nat) -> int
    decreases n,
{
    if n == 0 {
        0
    } else {
        sum(f, (n - 1) as nat) + f(n - 1)
    }
}

/// Sums of equal terms are equal.
pub proof fn lemma_sum_same(f: spec_fn(int) -> int, g: spec_fn(int) -> int, n: nat)
    requires
        forall|t: int| 0 <= t < n ==> #[trigger] f(t) == g(t),
    ensures
        sum(f, n) == sum(g, n),
    decreases n,
{
    if n > 0 {
        lemma_sum_same(f, g, (n - 1) as nat);
    }
}

/// Sums of terms that leave the same rests leave the same rest.
pub proof fn lemma_sum_rest(f: spec_fn(int) -> int, g: spec_fn(int) -> int, n: nat, md: int)
    requires
        md > 0,
        forall|t: int| 0 <= t < n ==> (#[trigger] f(t)) % md == g(t) % md,
    ensures
        sum(f, n) % md == sum(g, n) % md,
    decreases n,
{
    if n > 0 {
        lemma_sum_rest(f, g, (n - 1) as nat, md);
        vstd::arithmetic::div_mod::lemma_add_mod_noop(sum(f, (n - 1) as nat), f(n - 1), md);
        vstd::arithmetic::div_mod::lemma_add_mod_noop(sum(g, (n - 1) as nat), g(n - 1), md);
    }
}

/// The sum of sums of two terms is the sum of the two sums.
pub proof fn lemma_sum_add(
    f: spec_fn(int) -> int,
    g: spec_fn(int) -> int,
    h: spec_fn(int) -> int,
    n: nat,
)
    requires
        forall|t: int| 0 <= t < n ==> #[trigger] h(t) == f(t) + g(t),
    ensures
        sum(h, n) == sum(f, n) + sum(g, n),
    decreases n,
{
    if n > 0 {
        lemma_sum_add(f, g, h, (n - 1) as nat);
    }
}

/// A factor of every term is a factor of the sum.
pub proof fn lemma_sum_scale(f: spec_fn(int) -> int, g: spec_fn(int) -> int, c: int, n: nat)
    requires
        forall|t: int| 0 <= t < n ==> #[trigger] g(t) == c * f(t),
    ensures
        sum(g, n) == c * sum(f, n),
    decreases n,
{
    if n > 0 {
        lemma_sum_scale(f, g, c, (n - 1) as nat);
        assert(c * (sum(f, (n - 1) as nat) + f(n - 1)) == c * sum(f, (n - 1) as nat) + c * f(n - 1))
            by (nonlinear_arith);
    } else {
        assert(c * 0 == 0);
    }
}

/// Terms that are 0 add nothing.
pub proof fn lemma_sum_tail(f: spec_fn(int) -> int, n: nat, more: nat)
    requires
        n <= more,
        forall|t: int| n <= t < more ==> #[trigger] f(t) == 0,
    ensures
        sum(f, more) == sum(f, n),
    decreases more,
{
    if more > n {
        lemma_sum_tail(f, n, (more - 1) as nat);
    }
}

/// A sum of terms that are all 0 is 0.
pub proof fn lemma_sum_none(f: spec_fn(int) -> int, n: nat)
    requires
        forall|t: int| 0 <= t < n ==> #[trigger] f(t) == 0,
    ensures
        sum(f, n) == 0,
{
    lemma_sum_tail(f, 0, n);
}

/// A sum with one term that is not 0 is that term.
pub proof fn lemma_sum_one(f: spec_fn(int) -> int, n: nat, at: int)
    requires
        0 <= at < n,
        forall|t: int| 0 <= t < n && t != at ==> #[trigger] f(t) == 0,
    ensures
        sum(f, n) == f(at),
    decreases n,
{
    if at == n - 1 {
        lemma_sum_none(f, (n - 1) as nat);
    } else {
        lemma_sum_one(f, (n - 1) as nat, at);
    }
}

/// Terms moved up by `s` places, behind `s` terms that are 0, have the sum
/// they had.
pub proof fn lemma_sum_shift(f: spec_fn(int) -> int, g: spec_fn(int) -> int, s: nat, n: nat)
    requires
        s <= n,
        forall|t: int| 0 <= t < s ==> #[trigger] g(t) == 0,
        forall|t: int| s <= t < n ==> #[trigger] g(t) == f(t - s),
    ensures
        sum(g, n) == sum(f, (n - s) as nat),
    decreases n,
{
    if n == s {
        lemma_sum_none(g, n);
    } else {
        lemma_sum_shift(f, g, s, (n - 1) as nat);
    }
}

/// The terms of the row `i` of `f`.
pub open spec fn row_of(f: spec_fn(int, int) -> int, i: int) -> spec_fn(int) -> int {
    |j: int| f(i, j)
}

/// The terms of the column `j` of `f`.
pub open spec fn column_of(f: spec_fn(int, int) -> int, j: int) -> spec_fn(int) -> int {
    |i: int| f(i, j)
}

/// The sums of the first `m` terms of the rows of `f`.
pub open spec fn row_sums(f: spec_fn(int, int) -> int, m: nat) -> spec_fn(int) -> int {
    |i: int| sum(row_of(f, i), m)
}

/// The sums of the first `n` terms of the columns of `f`.
pub open spec fn column_sums(f: spec_fn(int, int) -> int, n: nat) -> spec_fn(int) -> int {
    |j: int| sum(column_of(f, j), n)
}

/// The sum of the sums of the rows is the sum of the sums of the columns.
pub proof fn lemma_sum_swap(f: spec_fn(int, int) -> int, n: nat, m: nat)
    ensures
        sum(row_sums(f, m), n) == sum(column_sums(f, n), m),
    decreases n,
{
    if n == 0 {
        lemma_sum_none(column_sums(f, 0), m);
    } else {
        lemma_sum_swap(f, (n - 1) as nat, m);
        // each column is the column above the last row, and its term in that row
        lemma_sum_add(column_sums(f, (n - 1) as nat), row_of(f, n - 1), column_sums(f, n), m);
    }
}

} // verus!
