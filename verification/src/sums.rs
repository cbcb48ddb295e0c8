//! Sums of lengths and counts.
use vstd::prelude::*;

verus! {

/// The sum of numbers.
pub open spec fn sum_of(numbers: Seq<nat>) -> nat
    decreases numbers.len(),
{
    if numbers.len() == 0 {
        0
    } else {
        numbers[0] + sum_of(numbers.drop_first())
    }
}

/// One more number at the end.
pub proof fn lemma_sum_of_push(numbers: Seq<nat>, more: nat)
    ensures
        sum_of(numbers.push(more)) == sum_of(numbers) + more,
    decreases numbers.len(),
{
    let longer = numbers.push(more);
    if numbers.len() > 0 {
        lemma_sum_of_push(numbers.drop_first(), more);
        assert(longer.drop_first() =~= numbers.drop_first().push(more));
        assert(longer[0] == numbers[0]);
    } else {
        assert(longer.drop_first() =~= numbers);
        assert(longer[0] == more);
    }
}

} // verus!
