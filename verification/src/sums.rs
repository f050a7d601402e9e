//! Sums of integer sequences, for counting arguments.

use vstd::prelude::*;

verus! {

pub open spec fn sum(s: Seq<int>) -> int
    decreases s.len(),
{
    if s.len() == 0 {
        0
    } else {
        sum(s.drop_last()) + s.last()
    }
}

pub proof fn lemma_sum_push(s: Seq<int>, x: int)
    ensures
        sum(s.push(x)) == sum(s) + x,
{
    assert(s.push(x).drop_last() =~= s);
}

pub proof fn lemma_sum_update(s: Seq<int>, i: int, x: int)
    requires
        0 <= i < s.len(),
    ensures
        sum(s.update(i, x)) == sum(s) - s[i] + x,
    decreases s.len(),
{
    let t = s.update(i, x);
    if i == s.len() - 1 {
        assert(t.drop_last() =~= s.drop_last());
    } else {
        lemma_sum_update(s.drop_last(), i, x);
        assert(t.drop_last() =~= s.drop_last().update(i, x));
    }
}

pub proof fn lemma_sum_all(s: Seq<int>, c: int)
    requires
        forall|i: int| 0 <= i < s.len() ==> s[i] == c,
    ensures
        sum(s) == c * s.len(),
    decreases s.len(),
{
    if s.len() > 0 {
        lemma_sum_all(s.drop_last(), c);
        assert(c * s.len() == c * (s.len() - 1) + c) by (nonlinear_arith);
    }
}

pub proof fn lemma_sum_nonneg(s: Seq<int>)
    requires
        forall|i: int| 0 <= i < s.len() ==> s[i] >= 0,
    ensures
        sum(s) >= 0,
    decreases s.len(),
{
    if s.len() > 0 {
        lemma_sum_nonneg(s.drop_last());
    }
}

/// No term of a sum of non-negative terms is more than the sum.
pub proof fn lemma_sum_bound(s: Seq<int>, i: int)
    requires
        forall|j: int| 0 <= j < s.len() ==> s[j] >= 0,
        0 <= i < s.len(),
    ensures
        s[i] <= sum(s),
{
    lemma_sum_update(s, i, 0);
    lemma_sum_nonneg(s.update(i, 0));
}

/// A sum of non-negative terms is no less than the sum of its first terms.
pub proof fn lemma_sum_take(s: Seq<int>, n: int)
    requires
        forall|j: int| 0 <= j < s.len() ==> s[j] >= 0,
        0 <= n <= s.len(),
    ensures
        0 <= sum(s.take(n)) <= sum(s),
    decreases s.len(),
{
    if n == s.len() {
        assert(s.take(n) =~= s);
        lemma_sum_nonneg(s);
    } else {
        lemma_sum_take(s.drop_last(), n);
        assert(s.drop_last().take(n) =~= s.take(n));
        lemma_sum_nonneg(s.drop_last());
    }
}

pub proof fn lemma_sum_take_step(s: Seq<int>, n: int)
    requires
        0 <= n < s.len(),
    ensures
        sum(s.take(n + 1)) == sum(s.take(n)) + s[n],
{
    assert(s.take(n + 1).drop_last() =~= s.take(n));
}

} // verus!
