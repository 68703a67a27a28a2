//! Sums over sequences.

use vstd::prelude::*;

verus! {

/// The sum of a sequence of integers.
pub open spec fn sum(values: Seq<int>) -> int
    decreases values.len(),
{
    if values.len() == 0 {
        0
    } else {
        sum(values.drop_last()) + values.last()
    }
}

/// Nothing sums up to zero, and a further value adds itself to the sum.
pub proof fn law_sum_grows_by_each_value(values: Seq<int>, value: int)
    ensures
        sum(Seq::<int>::empty()) == 0,
        sum(values.push(value)) == sum(values) + value,
{
    assert(values.push(value).drop_last() =~= values);
}

/// Replacing one value changes the sum by the difference.
pub proof fn lemma_sum_update(values: Seq<int>, i: int, value: int)
    requires
        0 <= i < values.len(),
    ensures
        sum(values.update(i, value)) == sum(values) - values[i] + value,
    decreases values.len(),
{
    let updated = values.update(i, value);
    if i == values.len() - 1 {
        assert(updated.drop_last() =~= values.drop_last());
    } else {
        assert(updated.drop_last() =~= values.drop_last().update(i, value));
        lemma_sum_update(values.drop_last(), i, value);
    }
}

/// A sum of values without negative ones is at least each of them, and is zero
/// only if they all are.
pub proof fn lemma_sum_bounds(values: Seq<int>)
    requires
        forall|i: int| 0 <= i < values.len() ==> #[trigger] values[i] >= 0,
    ensures
        sum(values) >= 0,
        forall|i: int| 0 <= i < values.len() ==> #[trigger] values[i] <= sum(values),
    decreases values.len(),
{
    if values.len() > 0 {
        let rest = values.drop_last();
        assert forall|i: int| 0 <= i < rest.len() implies #[trigger] rest[i] >= 0 by {
            assert(rest[i] == values[i]);
        }
        lemma_sum_bounds(rest);
        assert forall|i: int| 0 <= i < values.len() implies #[trigger] values[i] <= sum(values) by {
            if i < rest.len() {
                assert(rest[i] == values[i]);
            }
        }
    }
}

/// The sum over a list of places that has every place with a value other than
/// zero, and none twice, is the sum over all places.
pub proof fn lemma_sum_over_places(values: Seq<int>, order: Seq<int>)
    requires
        order.no_duplicates(),
        forall|r: int| 0 <= r < order.len() ==> 0 <= #[trigger] order[r] < values.len(),
        forall|i: int|
            0 <= i < values.len() && !order.contains(i) ==> #[trigger] values[i] == 0,
    ensures
        sum(Seq::new(order.len(), |r: int| values[order[r]])) == sum(values),
    decreases order.len(),
{
    let listed = Seq::new(order.len(), |r: int| values[order[r]]);
    if order.len() == 0 {
        lemma_sum_of_zeros(values);
    } else {
        let last = order.last();
        let rest = order.drop_last();
        let without = values.update(last, 0);
        assert forall|r: int| 0 <= r < rest.len() implies 0 <= #[trigger] rest[r]
            < without.len() by {
            assert(rest[r] == order[r]);
        }
        assert forall|i: int| 0 <= i < without.len() && !rest.contains(i) implies
            #[trigger] without[i] == 0 by {
            if i != last && order.contains(i) {
                let r = order.index_of(i);
                assert(rest[r] == i);
            }
        }
        lemma_sum_over_places(without, rest);
        lemma_sum_update(values, last, 0);
        assert(listed.drop_last() =~= Seq::new(rest.len(), |r: int| without[rest[r]]));
    }
}

proof fn lemma_sum_of_zeros(values: Seq<int>)
    requires
        forall|i: int| 0 <= i < values.len() ==> #[trigger] values[i] == 0,
    ensures
        sum(values) == 0,
    decreases values.len(),
{
    if values.len() > 0 {
        let rest = values.drop_last();
        assert forall|i: int| 0 <= i < rest.len() implies #[trigger] rest[i] == 0 by {
            assert(rest[i] == values[i]);
        }
        lemma_sum_of_zeros(rest);
        assert(values[values.len() - 1] == 0);
    }
}

} // verus!
