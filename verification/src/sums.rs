//! Sums and counts over sequences of integers.

use vstd::prelude::*;

verus! {

/// The sum of a sequence of integers.
pub open spec fn sum(values: Seq<int>) -> int
    decreases values.len(),
{
    if values.len() == 0 {
        0
    } else {
        sum(values.drop_last()) + values.last()
    }
}

/// What `value` counts among the entries that are not zero: one, or
/// nothing where it is zero.
pub open spec fn counts(value: int) -> int {
    if value != 0 {
        1
    } else {
        0
    }
}

/// The number of entries of `values` that are not zero.
pub open spec fn nonzero_count(values: Seq<int>) -> int
    decreases values.len(),
{
    if values.len() == 0 {
        0
    } else {
        nonzero_count(values.drop_last()) + counts(values.last())
    }
}

/// The most payments that it takes to clear `values`: one less than there
/// are entries to clear.
pub open spec fn spare(values: Seq<int>) -> int {
    if nonzero_count(values) > 0 {
        nonzero_count(values) - 1
    } else {
        0
    }
}

/// Whether every entry of `values` is zero.
pub open spec fn all_zero(values: Seq<int>) -> bool {
    forall|i: int| 0 <= i < values.len() ==> values[i] == 0
}

/// A sum is its first entry and the sum of the others.
pub proof fn lemma_sum_first(values: Seq<int>)
    requires
        values.len() > 0,
    ensures
        sum(values) == values.first() + sum(values.drop_first()),
    decreases values.len(),
{
    if values.len() == 1 {
        assert(values.drop_last() =~= values.drop_first());
    } else {
        lemma_sum_first(values.drop_last());
        assert(values.drop_last().drop_first() =~= values.drop_first().drop_last());
    }
}

/// Putting `value` in the place of one entry changes the sum by the
/// difference of the two.
pub proof fn lemma_sum_update(values: Seq<int>, index: int, value: int)
    requires
        0 <= index < values.len(),
    ensures
        sum(values.update(index, value)) == sum(values) - values[index] + value,
    decreases values.len(),
{
    let changed = values.update(index, value);
    if index == values.len() - 1 {
        assert(changed.drop_last() =~= values.drop_last());
    } else {
        lemma_sum_update(values.drop_last(), index, value);
        assert(changed.drop_last() =~= values.drop_last().update(index, value));
    }
}

/// Putting `value` in the place of one entry changes the count of entries
/// that are not zero by what the two entries count.
pub proof fn lemma_nonzero_count_update(values: Seq<int>, index: int, value: int)
    requires
        0 <= index < values.len(),
    ensures
        nonzero_count(values.update(index, value)) == nonzero_count(values) - counts(
            values[index],
        ) + counts(value),
    decreases values.len(),
{
    let changed = values.update(index, value);
    if index == values.len() - 1 {
        assert(changed.drop_last() =~= values.drop_last());
    } else {
        lemma_nonzero_count_update(values.drop_last(), index, value);
        assert(changed.drop_last() =~= values.drop_last().update(index, value));
    }
}

/// The count of entries that are not zero lies between zero and the
/// length, and is zero exactly where every entry is zero.
pub proof fn lemma_nonzero_count_bounds(values: Seq<int>)
    ensures
        0 <= nonzero_count(values) <= values.len(),
        nonzero_count(values) == 0 <==> all_zero(values),
    decreases values.len(),
{
    if values.len() > 0 {
        let front = values.drop_last();
        lemma_nonzero_count_bounds(front);
        if all_zero(values) {
            assert forall|i: int| 0 <= i < front.len() implies front[i] == 0 by {
                assert(front[i] == values[i]);
            }
        }
        if nonzero_count(values) == 0 {
            assert forall|i: int| 0 <= i < values.len() implies values[i] == 0 by {
                if i < front.len() {
                    assert(front[i] == values[i]);
                }
            }
        }
    }
}

/// Entries that add up to zero are never all zero but one.
pub proof fn lemma_nonzero_count_not_one(values: Seq<int>)
    requires
        sum(values) == 0,
    ensures
        nonzero_count(values) != 1,
    decreases values.len(),
{
    if values.len() > 0 {
        let front = values.drop_last();
        if values.last() != 0 {
            lemma_nonzero_count_bounds(front);
            if nonzero_count(front) == 0 {
                lemma_sum_of_zeros(front);
            }
        } else {
            lemma_nonzero_count_not_one(front);
        }
    }
}

/// A sum of entries that are all zero or less is no more than any of them.
pub proof fn lemma_sum_of_not_positive(values: Seq<int>)
    requires
        forall|i: int| 0 <= i < values.len() ==> values[i] <= 0,
    ensures
        sum(values) <= 0,
        forall|i: int| 0 <= i < values.len() ==> sum(values) <= values[i],
    decreases values.len(),
{
    if values.len() > 0 {
        let front = values.drop_last();
        assert forall|i: int| 0 <= i < front.len() implies front[i] <= 0 by {
            assert(front[i] == values[i]);
        }
        lemma_sum_of_not_positive(front);
        assert forall|i: int| 0 <= i < values.len() implies sum(values) <= values[i] by {
            if i < front.len() {
                assert(front[i] == values[i]);
            }
        }
    }
}

/// A sum of entries that are all zero or more is no less than any of them.
pub proof fn lemma_sum_of_not_negative(values: Seq<int>)
    requires
        forall|i: int| 0 <= i < values.len() ==> values[i] >= 0,
    ensures
        sum(values) >= 0,
        forall|i: int| 0 <= i < values.len() ==> sum(values) >= values[i],
    decreases values.len(),
{
    if values.len() > 0 {
        let front = values.drop_last();
        assert forall|i: int| 0 <= i < front.len() implies front[i] >= 0 by {
            assert(front[i] == values[i]);
        }
        lemma_sum_of_not_negative(front);
        assert forall|i: int| 0 <= i < values.len() implies sum(values) >= values[i] by {
            if i < front.len() {
                assert(front[i] == values[i]);
            }
        }
    }
}

/// Entries that are all zero add up to zero.
pub proof fn lemma_sum_of_zeros(values: Seq<int>)
    requires
        all_zero(values),
    ensures
        sum(values) == 0,
{
    lemma_sum_of_not_positive(values);
    lemma_sum_of_not_negative(values);
}

} // verus!
