//! Sums over sequences of natural numbers.

use vstd::prelude::*;

verus! {

/// The sum of all elements.
pub open spec fn sum(s: Seq<nat>) -> nat
    decreases s.len(),
{
    if s.len() == 0 {
        0
    } else {
        sum(s.drop_last()) + s.last()
    }
}

/// The sum of the first `j + 1` elements is that of the first `j` plus the next one.
pub proof fn lemma_sum_step(s: Seq<nat>, j: int)
    requires
        0 <= j < s.len(),
    ensures
        sum(s.take(j + 1)) == sum(s.take(j)) + s[j],
{
    assert(s.take(j + 1).drop_last() =~= s.take(j));
}

/// The whole sequence is its own longest prefix.
pub proof fn lemma_sum_all(s: Seq<nat>)
    ensures
        sum(s.take(s.len() as int)) == sum(s),
        sum(s.take(0)) == 0,
{
    assert(s.take(s.len() as int) =~= s);
}

/// The sums of prefixes grow with their length.
pub proof fn lemma_sum_monotone(s: Seq<nat>, i: int, j: int)
    requires
        0 <= i <= j <= s.len(),
    ensures
        sum(s.take(i)) <= sum(s.take(j)),
    decreases j - i,
{
    if i < j {
        lemma_sum_monotone(s, i, j - 1);
        lemma_sum_step(s, j - 1);
    }
}

/// Replacing one element changes the sum by the difference.
pub proof fn lemma_sum_update(s: Seq<nat>, k: int, x: nat)
    requires
        0 <= k < s.len(),
    ensures
        sum(s.update(k, x)) + s[k] == sum(s) + x,
    decreases s.len(),
{
    if k == s.len() - 1 {
        assert(s.update(k, x).drop_last() =~= s.drop_last());
    } else {
        lemma_sum_update(s.drop_last(), k, x);
        assert(s.update(k, x).drop_last() =~= s.drop_last().update(k, x));
    }
}

/// A sequence whose elements all equal `x` sums to its length times `x`.
pub proof fn lemma_sum_constant(s: Seq<nat>, x: nat)
    requires
        forall|i: int| 0 <= i < s.len() ==> s[i] == x,
    ensures
        sum(s) == s.len() * x,
    decreases s.len(),
{
    if s.len() > 0 {
        lemma_sum_constant(s.drop_last(), x);
        assert((s.len() - 1) * x + x == s.len() * x) by (nonlinear_arith);
    } else {
        assert(0 * x == 0);
    }
}

} // verus!
