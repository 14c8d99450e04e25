//! Sums of sequences of numbers.

use vstd::prelude::*;

verus! {

/// The sum of some numbers.
pub open spec fn sum(s: Seq<nat>) -> nat
    decreases s.len(),
{
    if s.len() == 0 {
        0
    } else {
        sum(s.drop_last()) + s.last()
    }
}

/// The sum of no numbers is zero, and one more number adds itself.
pub proof fn law_sum(s: Seq<nat>, n: nat)
    ensures
        sum(Seq::<nat>::empty()) == 0,
        sum(s.push(n)) == sum(s) + n,
{
    assert(s.push(n).drop_last() =~= s);
}

pub(crate) proof fn lemma_sum_update(s: Seq<nat>, i: int, n: nat)
    requires
        0 <= i < s.len(),
    ensures
        sum(s.update(i, n)) == sum(s) - s[i] + n,
    decreases s.len(),
{
    let t = s.update(i, n);
    if i == s.len() - 1 {
        assert(t.drop_last() =~= s.drop_last());
    } else {
        lemma_sum_update(s.drop_last(), i, n);
        assert(t.drop_last() =~= s.drop_last().update(i, n));
    }
}

} // verus!
