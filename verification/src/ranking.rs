//! Ranking of candidates by score.
//!
//! A list gives each place either a score or, where the place is no candidate,
//! none. Candidates rank by ascending score; equal scores rank in list order.

use vstd::prelude::*;
use vstd::relations::*;
use vstd::seq_lib::*;

verus! {

/// The places that hold a score, in list order.
pub open spec fn candidates(scores: Seq<Option<int>>) -> Seq<int> {
    Seq::new(scores.len(), |i: int| i).filter(|i: int| scores[i] is Some)
}

/// Whether place `i` ranks no later than place `j`.
pub open spec fn no_later(scores: Seq<Option<int>>) -> spec_fn(int, int) -> bool {
    |i: int, j: int| scores[i]->0 < scores[j]->0 || (scores[i]->0 == scores[j]->0 && i <= j)
}

/// The candidates in rank order.
pub open spec fn ranked(scores: Seq<Option<int>>) -> Seq<int> {
    candidates(scores).sort_by(no_later(scores))
}

/// The first candidate in rank order.
pub open spec fn lowest(scores: Seq<Option<int>>) -> Option<int> {
    if ranked(scores).len() == 0 {
        None
    } else {
        Some(ranked(scores).first())
    }
}

/// The last candidate in rank order.
pub open spec fn highest(scores: Seq<Option<int>>) -> Option<int> {
    if ranked(scores).len() == 0 {
        None
    } else {
        Some(ranked(scores).last())
    }
}

/// The score that a machine integer stands for.
pub open spec fn score_view(score: Option<i64>) -> Option<int> {
    match score {
        Some(points) => Some(points as int),
        None => None,
    }
}

/// The scores that a list of machine integers stands for.
pub open spec fn scores_view(scores: Seq<Option<i64>>) -> Seq<Option<int>> {
    scores.map_values(|s: Option<i64>| score_view(s))
}

/// `order` lists exactly the candidates, each once, in rank order.
pub open spec fn is_ranking(order: Seq<int>, scores: Seq<Option<int>>) -> bool {
    &&& forall|p: int| #[trigger] order.contains(p) <==> 0 <= p < scores.len() && scores[p] is Some
    &&& order.no_duplicates()
    &&& sorted_by(order, no_later(scores))
}

proof fn lemma_no_later_total(scores: Seq<Option<int>>)
    ensures
        total_ordering(no_later(scores)),
{
}

proof fn lemma_candidates(scores: Seq<Option<int>>, n: nat)
    requires
        n <= scores.len(),
    ensures
        ({
            let found = Seq::new(n, |i: int| i).filter(|i: int| scores[i] is Some);
            &&& found.no_duplicates()
            &&& forall|p: int| #[trigger]
                found.contains(p) <==> 0 <= p < n && scores[p] is Some
        }),
    decreases n,
{
    reveal(Seq::filter);
    let pred = |i: int| scores[i] is Some;
    let all = Seq::new(n, |i: int| i);
    if n > 0 {
        let m = (n - 1) as nat;
        lemma_candidates(scores, m);
        let fewer = Seq::new(m, |i: int| i);
        assert(all.drop_last() =~= fewer);
        let found = fewer.filter(pred);
        if pred(m as int) {
            assert(all.filter(pred) == found.push(m as int));
            assert forall|p: int| #[trigger] found.push(m as int).contains(p) <==> 0 <= p < n
                && scores[p] is Some by {
                if found.contains(p) {
                    let k = found.index_of(p);
                    assert(found.push(m as int)[k] == p);
                }
                assert(found.push(m as int)[found.len() as int] == m);
            }
            assert(!found.contains(m as int));
        }
    }
}

/// [`ranked`] is a ranking, and the only one.
pub proof fn lemma_ranked(scores: Seq<Option<int>>)
    ensures
        is_ranking(ranked(scores), scores),
        forall|order: Seq<int>| is_ranking(order, scores) ==> order == ranked(scores),
{
    broadcast use group_to_multiset_ensures;

    let all = candidates(scores);
    let out = ranked(scores);
    lemma_candidates(scores, scores.len());
    lemma_no_later_total(scores);
    all.lemma_sort_by_ensures(no_later(scores));
    assert forall|p: int| #[trigger] out.contains(p) <==> all.contains(p) by {
        assert(all.to_multiset().count(p) == out.to_multiset().count(p));
    }
    all.lemma_multiset_has_no_duplicates();
    assert(out.no_duplicates()) by {
        assert forall|x: int| out.to_multiset().contains(x) implies out.to_multiset().count(x)
            == 1 by {
            assert(all.to_multiset().contains(x));
        }
        out.lemma_multiset_has_no_duplicates_conv();
    }
    assert forall|order: Seq<int>| is_ranking(order, scores) implies order == out by {
        order.lemma_multiset_has_no_duplicates();
        assert forall|p: int| order.to_multiset().count(p) == all.to_multiset().count(p) by {
            assert(order.contains(p) <==> all.contains(p));
        }
        assert(order.to_multiset() =~= all.to_multiset());
        lemma_sorted_unique(order, out, no_later(scores));
    }
}

/// The places of a list of machine indices.
pub open spec fn places(order: Seq<usize>) -> Seq<int> {
    order.map_values(|p: usize| p as int)
}

/// There is a first and a last candidate as soon as there is any; the first has
/// the lowest score and the last the highest.
pub proof fn lemma_extremes(scores: Seq<Option<int>>)
    ensures
        lowest(scores) is None <==> forall|i: int|
            0 <= i < scores.len() ==> #[trigger] scores[i] is None,
        highest(scores) is None <==> lowest(scores) is None,
        lowest(scores) matches Some(p) ==> {
            &&& 0 <= p < scores.len() && scores[p] is Some
            &&& forall|i: int|
                0 <= i < scores.len() && #[trigger] scores[i] is Some ==> no_later(scores)(p, i)
        },
        highest(scores) matches Some(p) ==> {
            &&& 0 <= p < scores.len() && scores[p] is Some
            &&& forall|i: int|
                0 <= i < scores.len() && #[trigger] scores[i] is Some ==> no_later(scores)(i, p)
        },
{
    lemma_ranked(scores);
    let order = ranked(scores);
    if order.len() > 0 {
        assert(order.contains(order.first()));
        assert(order.contains(order.last()));
    }
    assert forall|i: int| 0 <= i < scores.len() && #[trigger] scores[i] is Some implies order.len()
        > 0 && no_later(scores)(order.first(), i) && no_later(scores)(i, order.last()) by {
        assert(order.contains(i));
        let k = order.index_of(i);
        if k > 0 {
            assert(no_later(scores)(order[0], order[k]));
        }
        if k < order.len() - 1 {
            assert(no_later(scores)(order[k], order[order.len() - 1]));
        }
    }
}

/// The ranking lists every place with a score once, the lower scores before the
/// higher ones and equal scores in list order; the first and the last of it are
/// the extremes.
pub proof fn law_ranking_rises_with_the_score(scores: Seq<Option<int>>)
    ensures
        ({
            let order = ranked(scores);
            &&& order.no_duplicates()
            &&& forall|p: int| #[trigger]
                order.contains(p) <==> 0 <= p < scores.len() && scores[p] is Some
            &&& forall|r: int, s: int|
                0 <= r < s < order.len() ==> {
                    ||| scores[#[trigger] order[r]]->0 < scores[#[trigger] order[s]]->0
                    ||| scores[order[r]]->0 == scores[order[s]]->0 && order[r] < order[s]
                }
            &&& order.len() == 0 ==> lowest(scores) is None && highest(scores) is None
            &&& order.len() > 0 ==> lowest(scores) == Some(order[0]) && highest(scores) == Some(
                order[order.len() - 1],
            )
        }),
{
    lemma_ranked(scores);
    let order = ranked(scores);
    assert forall|r: int, s: int| 0 <= r < s < order.len() implies scores[#[trigger] order[r]]->0
        < scores[#[trigger] order[s]]->0 || (scores[order[r]]->0 == scores[order[s]]->0 && order[r]
        < order[s]) by {
        assert(no_later(scores)(order[r], order[s]));
    }
}

/// A place without a score changes no ranking.
proof fn lemma_skip(order: Seq<int>, scores: Seq<Option<int>>, i: int)
    requires
        0 <= i < scores.len(),
        scores[i] is None,
        is_ranking(order, scores.take(i)),
    ensures
        is_ranking(order, scores.take(i + 1)),
{
    let (seen, next) = (scores.take(i), scores.take(i + 1));
    assert forall|p: int| #[trigger] order.contains(p) <==> 0 <= p < next.len()
        && next[p] is Some by {
        if order.contains(p) {
            assert(seen[p] is Some);
        }
        if 0 <= p < i && next[p] is Some {
            assert(seen[p] is Some);
        }
    }
    lemma_still_sorted(order, scores, i);
}

proof fn lemma_still_sorted(order: Seq<int>, scores: Seq<Option<int>>, i: int)
    requires
        0 <= i < scores.len(),
        is_ranking(order, scores.take(i)),
    ensures
        sorted_by(order, no_later(scores.take(i + 1))),
        forall|k: int| 0 <= k < order.len() ==> 0 <= #[trigger] order[k] < i,
{
    let (seen, next) = (scores.take(i), scores.take(i + 1));
    assert forall|k: int| 0 <= k < order.len() implies 0 <= #[trigger] order[k] < i by {
        assert(order.contains(order[k]));
    }
    assert forall|j: int, k: int| 0 <= j < k < order.len() implies #[trigger] no_later(next)(
        order[j],
        order[k],
    ) by {
        assert(no_later(seen)(order[j], order[k]));
    }
}

/// A new last place joins the ranking behind all scores up to its own.
proof fn lemma_join(order: Seq<int>, scores: Seq<Option<int>>, i: int, at: int)
    requires
        0 <= i < scores.len(),
        scores[i] is Some,
        is_ranking(order, scores.take(i)),
        0 <= at <= order.len(),
        forall|k: int| 0 <= k < at ==> scores[#[trigger] order[k]]->0 <= scores[i]->0,
        forall|k: int| at <= k < order.len() ==> scores[i]->0 < scores[#[trigger] order[k]]->0,
    ensures
        is_ranking(order.insert(at, i), scores.take(i + 1)),
{
    let (seen, next) = (scores.take(i), scores.take(i + 1));
    let joined = order.insert(at, i);
    lemma_still_sorted(order, scores, i);
    assert forall|p: int| #[trigger] joined.contains(p) <==> 0 <= p < next.len()
        && next[p] is Some by {
        if joined.contains(p) {
            let k = joined.index_of(p);
            if k < at {
                assert(order[k] == p);
            } else if k > at {
                assert(order[k - 1] == p);
            }
            if k != at {
                assert(order.contains(p));
                assert(seen[p] is Some);
            }
        }
        if 0 <= p < i && next[p] is Some {
            assert(seen[p] is Some);
            assert(order.contains(p));
            let k = order.index_of(p);
            if k < at {
                assert(joined[k] == p);
            } else {
                assert(joined[k + 1] == p);
            }
        }
        assert(joined[at] == i);
    }
    assert forall|j: int, k: int| 0 <= j < k < joined.len() implies #[trigger] no_later(next)(
        joined[j],
        joined[k],
    ) && joined[j] != joined[k] by {
        let a = if j < at { j } else { j - 1 };
        let b = if k < at { k } else { k - 1 };
        if j != at && k != at {
            assert(no_later(next)(order[a], order[b]));
        } else if j == at {
            assert(joined[k] == order[b]);
        } else {
            assert(joined[j] == order[a]);
        }
    }
    assert forall|j: int, k: int|
        0 <= j < joined.len() && 0 <= k < joined.len() && j != k implies joined[j] != joined[k] by {
        if j < k {
            assert(no_later(next)(joined[j], joined[k]));
        } else {
            assert(no_later(next)(joined[k], joined[j]));
        }
    }
}

/// Scores every element of a list.
pub fn score_each<A, F: Fn(&A) -> Option<i64>>(list: &Vec<A>, score: F) -> (scores: Vec<
    Option<i64>,
>)
    requires
        forall|i: int| 0 <= i < list@.len() ==> call_requires(score, (&#[trigger] list@[i],)),
    ensures
        scores@.len() == list@.len(),
        forall|i: int|
            0 <= i < list@.len() ==> call_ensures(score, (&list@[i],), #[trigger] scores@[i]),
{
    let mut scores: Vec<Option<i64>> = Vec::new();
    let mut i: usize = 0;
    while i < list.len()
        invariant
            i <= list.len(),
            scores@.len() == i,
            forall|k: int| 0 <= k < list@.len() ==> call_requires(score, (&#[trigger] list@[k],)),
            forall|k: int| 0 <= k < i ==> call_ensures(score, (&list@[k],), #[trigger] scores@[k]),
        decreases list.len() - i,
    {
        scores.push(score(&list[i]));
        i = i + 1;
    }
    scores
}

/// Ranks the candidates.
pub fn rank(scores: &Vec<Option<i64>>) -> (order: Vec<usize>)
    ensures
        places(order@) == ranked(scores_view(scores@)),
        forall|k: int| 0 <= k < order@.len() ==> #[trigger] order@[k] < scores@.len(),
{
    let ghost all = scores_view(scores@);
    let mut order: Vec<usize> = Vec::new();
    let mut i: usize = 0;
    while i < scores.len()
        invariant
            i <= scores.len(),
            all == scores_view(scores@),
            is_ranking(places(order@), all.take(i as int)),
        decreases scores.len() - i,
    {
        let ghost so_far = places(order@);
        let ghost seen = all.take(i as int);
        proof {
            lemma_still_sorted(so_far, all, i as int);
            assert forall|k: int| 0 <= k < order@.len() implies #[trigger] order@[k] < i
                && scores@[order@[k] as int] is Some by {
                assert(so_far[k] == order@[k]);
                assert(so_far.contains(so_far[k]));
                assert(seen[so_far[k]] is Some);
            }
        }
        if let Some(score) = scores[i] {
            let mut at: usize = order.len();
            while at > 0 && scores[order[at - 1]].unwrap() > score
                invariant
                    i < scores.len(),
                    at <= order.len(),
                    forall|k: int|
                        at <= k < order@.len() ==> score < scores@[#[trigger] order@[k] as int]->0,
                    forall|k: int|
                        0 <= k < order@.len() ==> #[trigger] order@[k] < i
                            && scores@[order@[k] as int] is Some,
                decreases at,
            {
                at = at - 1;
            }
            proof {
                assert forall|k: int| 0 <= k < at implies all[#[trigger] so_far[k]]->0
                    <= all[i as int]->0 by {
                    if k < at - 1 {
                        assert(no_later(seen)(so_far[k], so_far[at - 1]));
                    }
                    assert(so_far[at - 1] == order@[at - 1]);
                }
                assert forall|k: int| at <= k < so_far.len() implies all[i as int]->0
                    < all[#[trigger] so_far[k]]->0 by {
                    assert(so_far[k] == order@[k]);
                }
                lemma_join(so_far, all, i as int, at as int);
            }
            order.insert(at, i);
            assert(places(order@) =~= so_far.insert(at as int, i as int));
        } else {
            proof {
                lemma_skip(so_far, all, i as int);
            }
        }
        i = i + 1;
    }
    proof {
        assert(all.take(all.len() as int) == all);
        lemma_ranked(all);
        let ranking = places(order@);
        assert forall|k: int| 0 <= k < order@.len() implies #[trigger] order@[k]
            < scores@.len() by {
            assert(ranking.contains(ranking[k]));
        }
    }
    order
}

/// Finds the first candidate in rank order.
pub fn find_lowest(scores: &Vec<Option<i64>>) -> (found: Option<usize>)
    ensures
        found is Some <==> lowest(scores_view(scores@)) is Some,
        found matches Some(p) ==> p < scores@.len() && lowest(scores_view(scores@)) == Some(p as int),
{
    let ghost all = scores_view(scores@);
    let mut found: Option<usize> = None;
    let mut i: usize = 0;
    while i < scores.len()
        invariant
            i <= scores.len(),
            all == scores_view(scores@),
            found is None ==> forall|k: int| 0 <= k < i ==> #[trigger] all[k] is None,
            found matches Some(p) ==> {
                &&& p < i && all[p as int] is Some
                &&& forall|k: int|
                    0 <= k < i && #[trigger] all[k] is Some ==> no_later(all)(p as int, k)
            },
        decreases scores.len() - i,
    {
        if let Some(score) = scores[i] {
            assert(all[i as int] == Some(score as int));
            match found {
                Some(p) => {
                    assert(all[p as int] == Some(scores@[p as int]->0 as int));
                    if score < scores[p].unwrap() {
                        found = Some(i);
                    }
                },
                None => {
                    found = Some(i);
                },
            }
        }
        i = i + 1;
    }
    proof {
        lemma_extremes(all);
    }
    found
}

/// Finds the last candidate in rank order.
pub fn find_highest(scores: &Vec<Option<i64>>) -> (found: Option<usize>)
    ensures
        found is Some <==> highest(scores_view(scores@)) is Some,
        found matches Some(p) ==> p < scores@.len() && highest(scores_view(scores@)) == Some(p as int),
{
    let ghost all = scores_view(scores@);
    let mut found: Option<usize> = None;
    let mut i: usize = 0;
    while i < scores.len()
        invariant
            i <= scores.len(),
            all == scores_view(scores@),
            found is None ==> forall|k: int| 0 <= k < i ==> #[trigger] all[k] is None,
            found matches Some(p) ==> {
                &&& p < i && all[p as int] is Some
                &&& forall|k: int|
                    0 <= k < i && #[trigger] all[k] is Some ==> no_later(all)(k, p as int)
            },
        decreases scores.len() - i,
    {
        if let Some(score) = scores[i] {
            assert(all[i as int] == Some(score as int));
            match found {
                Some(p) => {
                    assert(all[p as int] == Some(scores@[p as int]->0 as int));
                    if score >= scores[p].unwrap() {
                        found = Some(i);
                    }
                },
                None => {
                    found = Some(i);
                },
            }
        }
        i = i + 1;
    }
    proof {
        lemma_extremes(all);
    }
    found
}

} // verus!
