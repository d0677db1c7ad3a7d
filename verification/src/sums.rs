//! Finite sums of integers.

use crate::algebra::skip;
use vstd::prelude::*;

verus! {

/// The sum of `f(0)`, `f(1)`, ... up to `f(n - 1)`.
pub open spec fn sum(f: spec_fn(int) -> int, n: nat) -> int
    decreases n,
{
    if n == 0 {
        0
    } else {
        sum(f, (n - 1) as nat) + f(n - 1)
    }
}

/// Sums of terms that are equal one by one are equal.
pub proof fn lemma_sum_equal(f: spec_fn(int) -> int, g: spec_fn(int) -> int, n: nat)
    requires
        forall|k: int| 0 <= k < n ==> #[trigger] f(k) == g(k),
    ensures
        sum(f, n) == sum(g, n),
    decreases n,
{
    if n > 0 {
        lemma_sum_equal(f, g, (n - 1) as nat);
    }
}

/// A sum of zeros is zero.
pub proof fn lemma_sum_zero(f: spec_fn(int) -> int, n: nat)
    requires
        forall|k: int| 0 <= k < n ==> #[trigger] f(k) == 0,
    ensures
        sum(f, n) == 0,
    decreases n,
{
    if n > 0 {
        lemma_sum_zero(f, (n - 1) as nat);
    }
}

/// The sum of the sums of two terms is the sum of the two sums.
pub proof fn lemma_sum_add(f: spec_fn(int) -> int, g: spec_fn(int) -> int, n: nat)
    ensures
        sum(|k: int| f(k) + g(k), n) == sum(f, n) + sum(g, n),
    decreases n,
{
    if n > 0 {
        lemma_sum_add(f, g, (n - 1) as nat);
    }
}

/// A factor that every term has can be taken out of the sum.
pub proof fn lemma_sum_scale(f: spec_fn(int) -> int, a: int, n: nat)
    ensures
        sum(|k: int| a * f(k), n) == a * sum(f, n),
    decreases n,
{
    if n > 0 {
        lemma_sum_scale(f, a, (n - 1) as nat);
        assert(a * (sum(f, (n - 1) as nat) + f(n - 1)) == a * sum(f, (n - 1) as nat) + a * f(
            n - 1,
        )) by (nonlinear_arith);
    }
}

/// A double sum can be taken in either order.
pub proof fn lemma_sum_swap(g: spec_fn(int, int) -> int, n: nat, m: nat)
    ensures
        sum(|a: int| sum(|b: int| g(a, b), m), n) == sum(|b: int| sum(|a: int| g(a, b), n), m),
    decreases n,
{
    let outer = |a: int| sum(|b: int| g(a, b), m);
    let inner = |b: int| sum(|a: int| g(a, b), n);
    if n == 0 {
        lemma_sum_zero(inner, m);
    } else {
        let before = (n - 1) as nat;
        let inner_before = |b: int| sum(|a: int| g(a, b), before);
        let last = |b: int| g(n - 1, b);
        lemma_sum_swap(g, before, m);
        assert(sum(outer, before) == sum(inner_before, m));
        lemma_sum_add(inner_before, last, m);
        lemma_sum_equal(inner, |b: int| inner_before(b) + last(b), m);
        assert(outer(n - 1) == sum(last, m)) by {
            lemma_sum_equal(|b: int| g(n - 1, b), last, m);
        }
    }
}

/// A sum over the places of a sequence that has lost its element at `gap` is
/// the sum over all places in which the term of `gap` counts as zero.
pub proof fn lemma_sum_skip(h: spec_fn(int) -> int, gap: int, n: nat)
    requires
        0 <= gap < n,
    ensures
        sum(|d: int| h(skip(d, gap)), (n - 1) as nat) == sum(
            |d: int|
                if d == gap {
                    0
                } else {
                    h(d)
                },
            n,
        ),
    decreases n,
{
    let short = |d: int| h(skip(d, gap));
    let long = |d: int|
        if d == gap {
            0
        } else {
            h(d)
        };
    if gap == n - 1 {
        lemma_sum_equal(short, long, (n - 1) as nat);
    } else {
        lemma_sum_skip(h, gap, (n - 1) as nat);
        let shorter = |d: int| h(skip(d, gap));
        let longer = |d: int|
            if d == gap {
                0
            } else {
                h(d)
            };
        assert(sum(shorter, (n - 2) as nat) == sum(longer, (n - 1) as nat));
        lemma_sum_equal(short, shorter, (n - 2) as nat);
        lemma_sum_equal(long, longer, (n - 1) as nat);
        assert(short(n - 2) == long(n - 1));
    }
}

} // verus!
