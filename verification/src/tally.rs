//! Sums over the numbers of a sequence.

use vstd::prelude::*;

verus! {

/// The sum of the first `k` numbers of `values`.
pub open spec fn sum_of(values: Seq<int>, k: int) -> int
    decreases k,
{
    if k <= 0 {
        0
    } else {
        sum_of(values, k - 1) + values[k - 1]
    }
}

/// No number of `values` is negative.
pub open spec fn none_negative(values: Seq<int>) -> bool {
    forall|m: int| 0 <= m < values.len() ==> #[trigger] values[m] >= 0
}

/// A sum of numbers that are not negative is not negative, and grows with
/// the number of its terms.
pub proof fn lemma_sum_grows(values: Seq<int>, i: int, j: int)
    requires
        0 <= i <= j <= values.len(),
        none_negative(values),
    ensures
        0 <= sum_of(values, i) <= sum_of(values, j),
    decreases j,
{
    if i < j {
        lemma_sum_grows(values, i, j - 1);
        assert(values[j - 1] >= 0);
    } else if i > 0 {
        lemma_sum_grows(values, i - 1, i - 1);
        assert(values[i - 1] >= 0);
    }
}

} // verus!
