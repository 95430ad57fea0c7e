use vstd::prelude::*;

verus! {

/// The sum of the numbers, over the integers.
pub open spec fn sum_of(s: Seq<i32>) -> int
    decreases s.len(),
{
    if s.len() == 0 {
        0
    } else {
        sum_of(s.drop_last()) + s.last()
    }
}

/// Every running total of the numbers fits in an `i32` (the sum does not overflow
/// on the way).
pub open spec fn running_sums_fit(s: Seq<i32>) -> bool {
    forall|k: int| 0 <= k <= s.len() ==> i32::MIN <= #[trigger] sum_of(s.take(k)) <= i32::MAX
}

/// The combined strength of the reindeer.
pub fn task1_reindeer_cheer(strengths: &Vec<i32>) -> (r: i32)
    requires
        running_sums_fit(strengths@),
    ensures
        r == sum_of(strengths@),
{
    let mut total: i32 = 0;
    let mut i: usize = 0;
    while i < strengths.len()
        invariant
            0 <= i <= strengths.len(),
            running_sums_fit(strengths@),
            total == sum_of(strengths@.take(i as int)),
        decreases strengths.len() - i,
    {
        assert(strengths@.take(i + 1).drop_last() == strengths@.take(i as int));
        assert(i32::MIN <= sum_of(strengths@.take(i + 1)) <= i32::MAX);
        total = total + strengths[i];
        i = i + 1;
    }
    assert(strengths@.take(strengths.len() as int) == strengths@);
    total
}

/// The sum of nothing is 0, and of one number is that number.
pub proof fn law_sum_of_none_and_one(x: i32)
    ensures
        sum_of(Seq::<i32>::empty()) == 0,
        sum_of(seq![x]) == x,
{
    assert(seq![x].drop_last() =~= Seq::<i32>::empty());
}

/// Summing is additive: the sum of two lists put together is the sum of
/// their sums, so every number counts once, whatever stands next to it.
pub proof fn law_sum_of_concat(s: Seq<i32>, t: Seq<i32>)
    ensures
        sum_of(s + t) == sum_of(s) + sum_of(t),
    decreases t.len(),
{
    if t.len() == 0 {
        assert(s + t =~= s);
    } else {
        law_sum_of_concat(s, t.drop_last());
        assert((s + t).drop_last() =~= s + t.drop_last());
        assert((s + t).last() == t.last());
    }
}

} // verus!
