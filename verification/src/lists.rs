//! Facts about filtered lists and places in lists.

use vstd::prelude::*;
use vstd::set_lib::{lemma_int_range, lemma_len_subset, set_int_range};

verus! {

/// One more element of a list adds itself to what a filter keeps, or nothing.
pub proof fn lemma_filter_step<A>(s: Seq<A>, pred: spec_fn(A) -> bool, i: int)
    requires
        0 <= i < s.len(),
    ensures
        s.take(i + 1).filter(pred) == (if pred(s[i]) {
            s.take(i).filter(pred).push(s[i])
        } else {
            s.take(i).filter(pred)
        }),
{
    reveal(Seq::filter);
    assert(s.take(i + 1).drop_last() =~= s.take(i));
}

/// The places at which a filter finds the elements that it keeps.
pub proof fn lemma_filter_places<A>(s: Seq<A>, pred: spec_fn(A) -> bool) -> (found: Seq<int>)
    ensures
        found.no_duplicates(),
        found.len() == s.filter(pred).len(),
        forall|k: int|
            0 <= k < found.len() ==> 0 <= #[trigger] found[k] < s.len() && pred(s[found[k]])
                && s.filter(pred)[k] == s[found[k]],
        forall|i: int| 0 <= i < s.len() && pred(#[trigger] s[i]) ==> found.contains(i),
        forall|j: int, k: int| 0 <= j < k < found.len() ==> #[trigger] found[j] < #[trigger] found[k],
    decreases s.len(),
{
    reveal(Seq::filter);
    if s.len() == 0 {
        Seq::empty()
    } else {
        let rest = s.drop_last();
        let last = s.len() - 1;
        let before = lemma_filter_places(rest, pred);
        let found = if pred(s.last()) {
            before.push(last)
        } else {
            before
        };
        assert forall|k: int| 0 <= k < found.len() implies 0 <= #[trigger] found[k] < s.len()
            && pred(s[found[k]]) && s.filter(pred)[k] == s[found[k]] by {
            if k < before.len() {
                assert(found[k] == before[k]);
                assert(rest[before[k]] == s[before[k]]);
            }
        }
        assert forall|i: int| 0 <= i < s.len() && pred(#[trigger] s[i]) implies found.contains(
            i,
        ) by {
            if i < last {
                assert(rest[i] == s[i]);
                let k = before.index_of(i);
                assert(found[k] == i);
            } else {
                assert(found[before.len() as int] == i);
            }
        }
        assert forall|j: int, k: int| 0 <= j < k < found.len() implies #[trigger] found[j]
            < #[trigger] found[k] by {
            assert(found[j] == before[j] && 0 <= before[j] < last);
            if k < before.len() {
                assert(found[k] == before[k]);
            }
        }
        assert(found.no_duplicates()) by {
            assert forall|j: int, k: int|
                0 <= j < found.len() && 0 <= k < found.len() && j != k implies found[j]
                != found[k] by {
                if j < before.len() {
                    assert(found[j] == before[j] && 0 <= before[j] < last);
                }
                if k < before.len() {
                    assert(found[k] == before[k] && 0 <= before[k] < last);
                }
            }
        }
        found
    }
}

/// Distinct places are no more than there are places.
pub proof fn lemma_distinct_places(order: Seq<int>, n: nat)
    requires
        order.no_duplicates(),
        forall|r: int| 0 <= r < order.len() ==> 0 <= #[trigger] order[r] < n,
    ensures
        order.len() <= n,
{
    order.unique_seq_to_set();
    lemma_int_range(0, n as int);
    assert(order.to_set().subset_of(set_int_range(0, n as int)));
    lemma_len_subset(order.to_set(), set_int_range(0, n as int));
}

/// Distinct places that leave out exactly one are one less than there are places.
pub proof fn lemma_all_places_but_one(order: Seq<int>, n: nat, out: int)
    requires
        order.no_duplicates(),
        0 <= out < n,
        forall|i: int| #[trigger] order.contains(i) <==> 0 <= i < n && i != out,
    ensures
        order.len() == n - 1,
{
    order.unique_seq_to_set();
    lemma_int_range(0, n as int);
    let all = set_int_range(0, n as int);
    assert(order.to_set() =~= all.remove(out)) by {
        assert forall|i: int| order.to_set().contains(i) <==> all.remove(out).contains(i) by {
            assert(order.contains(i) <==> 0 <= i < n && i != out);
        }
    }
}

} // verus!
