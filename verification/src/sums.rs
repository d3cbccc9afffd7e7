//! Sums of sequences of naturals, used to count entries and to bound loops.

use vstd::prelude::*;

verus! {

/// The sum of the elements of `s`.
pub open spec fn sum(s: Seq<nat>) -> nat
    decreases s.len(),
{
    if s.len() == 0 {
        0
    } else {
        sum(s.drop_last()) + s.last()
    }
}

/// Replacing one element changes the sum by the difference.
pub proof fn lemma_sum_update(s: Seq<nat>, i: int, x: nat)
    requires
        0 <= i < s.len(),
    ensures
        sum(s.update(i, x)) == sum(s) - s[i] + x,
    decreases s.len(),
{
    if i == s.len() - 1 {
        assert(s.update(i, x).drop_last() =~= s.drop_last());
    } else {
        assert(s.update(i, x).drop_last() =~= s.drop_last().update(i, x));
        lemma_sum_update(s.drop_last(), i, x);
    }
}

/// A sequence that is nowhere larger has no larger sum.
pub proof fn lemma_sum_le(s: Seq<nat>, t: Seq<nat>)
    requires
        s.len() == t.len(),
        forall|i: int| 0 <= i < s.len() ==> s[i] <= t[i],
    ensures
        sum(s) <= sum(t),
    decreases s.len(),
{
    if s.len() > 0 {
        lemma_sum_le(s.drop_last(), t.drop_last());
    }
}

/// A sequence that is nowhere larger and somewhere smaller has a smaller sum.
pub proof fn lemma_sum_lt(s: Seq<nat>, t: Seq<nat>, j: int)
    requires
        s.len() == t.len(),
        forall|i: int| 0 <= i < s.len() ==> s[i] <= t[i],
        0 <= j < s.len(),
        s[j] < t[j],
    ensures
        sum(s) < sum(t),
    decreases s.len(),
{
    if j == s.len() - 1 {
        lemma_sum_le(s.drop_last(), t.drop_last());
    } else {
        lemma_sum_lt(s.drop_last(), t.drop_last(), j);
    }
}

/// Elements of at most `k` sum to at most `k` times their number.
pub proof fn lemma_sum_bound(s: Seq<nat>, k: nat)
    requires
        forall|i: int| 0 <= i < s.len() ==> s[i] <= k,
    ensures
        sum(s) <= s.len() * k,
    decreases s.len(),
{
    if s.len() > 0 {
        lemma_sum_bound(s.drop_last(), k);
        assert((s.len() - 1) * k + k == s.len() * k) by (nonlinear_arith);
    } else {
        assert(0 * k == 0) by (nonlinear_arith);
    }
}

} // verus!
