//! Work stealing: from the most utilized overloaded node to the others.

use crate::binary64::Binary64;
use crate::health::Health;
use crate::lists::lemma_distinct_places;
use crate::manager::{keys_view, FederationManager, FederationModel};
use crate::node::{ClusterNode, NodeModel};
use crate::ranking::{
    find_highest, highest, lemma_extremes, lemma_ranked, places, rank, ranked, score_each, score_view,
    scores_view,
};
use crate::sums::sum;
use crate::transfer::{
    lemma_deposit, lemma_deposit_supplies, lemma_place_of_key, lemma_put_sums, lemma_supplied_twice,
};
use vstd::prelude::*;

verus! {

/// The share of place `i` when `units` are split evenly over `shares` places:
/// the first places take one more each until the remainder is used up.
pub open spec fn even_share(units: int, shares: int, i: int) -> int {
    units / shares + (if i < units % shares {
        1int
    } else {
        0
    })
}

/// The utilization of a node that work can be stolen from: one that is healthy
/// and overloaded.
pub open spec fn donor_score(node: NodeModel, threshold: Binary64) -> Option<int> {
    if node.health.accepts_work() && node.is_overloaded(threshold) {
        Some(node.utilization().bits as int)
    } else {
        None
    }
}

/// The utilization of a node that can take stolen work: one that is healthy, not
/// overloaded and not the donor.
pub open spec fn recipient_score(
    node: NodeModel,
    donor_id: Seq<char>,
    threshold: Binary64,
) -> Option<int> {
    if node.id != donor_id && node.health.accepts_work() && !node.is_overloaded(threshold) {
        Some(node.utilization().bits as int)
    } else {
        None
    }
}

impl FederationModel {
    /// Scores the nodes that work can be stolen from by their utilization: those
    /// that are healthy and overloaded.
    pub open spec fn donor_scores(self) -> Seq<Option<int>> {
        self.nodes.map_values(|n: NodeModel| donor_score(n, self.overload_threshold))
    }

    /// The place of the most utilized node that work can be stolen from.
    pub open spec fn donor(self) -> Option<int> {
        highest(self.donor_scores())
    }

    /// Scores the nodes that can take stolen work by their utilization: those
    /// that are healthy, not overloaded and not the donor.
    pub open spec fn recipient_scores(self, donor_id: Seq<char>) -> Seq<Option<int>> {
        self.nodes.map_values(
            |n: NodeModel| recipient_score(n, donor_id, self.overload_threshold),
        )
    }

    /// The ids of the nodes that can take stolen work, least utilized first.
    pub open spec fn recipients(self, donor_id: Seq<char>) -> Seq<Seq<char>> {
        ranked(self.recipient_scores(donor_id)).map_values(|i: int| self.nodes[i].id)
    }

    /// Hands an even share of `units` to each of the first `k` recipients; gives
    /// the federation after that and what the recipients took.
    pub open spec fn spread(self, recipients: Seq<Seq<char>>, units: int, k: nat) -> (
        FederationModel,
        int,
    )
        decreases k,
    {
        if k == 0 {
            (self, 0)
        } else {
            let (fed, taken) = self.spread(recipients, units, (k - 1) as nat);
            let id = recipients[k - 1];
            let share = even_share(units, recipients.len() as int, k - 1);
            (fed.deposit(id, share), taken + fed.room(id, share))
        }
    }

    /// How much leaves the donor when `units` are to be stolen: no more than it
    /// has, and nothing where nobody can take it.
    pub open spec fn stolen(self, units: u32) -> u32 {
        match self.donor() {
            None => 0,
            Some(place) => {
                let donor_id = self.nodes[place].id;
                let held = self.nodes[self.place(donor_id)].allocated;
                if self.recipients(donor_id).len() == 0 {
                    0
                } else if units <= held {
                    units
                } else {
                    held
                }
            },
        }
    }

    /// Takes up to `units` from the donor and spreads them; gives the federation
    /// after that and what the recipients took.
    pub open spec fn steal(self, units: u32) -> (FederationModel, int) {
        match self.donor() {
            None => (self, 0),
            Some(place) => {
                let donor_id = self.nodes[place].id;
                let recipients = self.recipients(donor_id);
                if recipients.len() == 0 {
                    (self, 0)
                } else {
                    let donor = self.nodes[self.place(donor_id)];
                    self.put(donor_id, donor.release(self.stolen(units))).spread(
                        recipients,
                        self.stolen(units) as int,
                        recipients.len(),
                    )
                }
            },
        }
    }

    /// The donor can be found by its id, and the recipients can be counted in 32
    /// bits. The first holds in every federation that is filed by id.
    pub open spec fn can_steal(self) -> bool {
        self.donor() matches Some(place) ==> {
            &&& self.has(self.nodes[place].id)
            &&& self.recipients(self.nodes[place].id).len() <= u32::MAX
        }
    }
}

/// Even shares of the first `k` places.
pub open spec fn shared_out(units: int, shares: int, k: nat) -> int
    decreases k,
{
    if k == 0 {
        0
    } else {
        shared_out(units, shares, (k - 1) as nat) + even_share(units, shares, k - 1)
    }
}

proof fn lemma_shared_out(units: int, shares: int, k: nat)
    requires
        units >= 0,
        0 < shares,
        k <= shares,
    ensures
        shared_out(units, shares, k) == k * (units / shares) + (if k <= units % shares {
            k as int
        } else {
            units % shares
        }),
    decreases k,
{
    vstd::arithmetic::div_mod::lemma_mod_bound(units, shares);
    if k > 0 {
        lemma_shared_out(units, shares, (k - 1) as nat);
        let q = units / shares;
        assert(k * q == (k - 1) * q + q) by (nonlinear_arith);
    } else {
        assert(k * (units / shares) == 0) by (nonlinear_arith)
            requires
                k == 0,
        ;
    }
}

/// Even shares add up to what is split, and no part of them to more.
pub proof fn law_even_shares_add_up(units: int, shares: int, k: nat)
    requires
        units >= 0,
        0 < shares,
        k <= shares,
    ensures
        shared_out(units, shares, shares as nat) == units,
        0 <= shared_out(units, shares, k) <= units,
        forall|i: int| 0 <= i ==> 0 <= #[trigger] even_share(units, shares, i) <= units,
{
    vstd::arithmetic::div_mod::lemma_fundamental_div_mod(units, shares);
    lemma_shared_out(units, shares, k);
    lemma_shared_out(units, shares, shares as nat);
    let (q, r) = (units / shares, units % shares);
    assert(0 <= q) by (nonlinear_arith)
        requires
            units >= 0,
            shares > 0,
            q == units / shares,
    ;
    assert(0 <= k * q <= shares * q) by (nonlinear_arith)
        requires
            0 <= k <= shares,
            0 <= q,
    ;
    assert(q <= shares * q) by (nonlinear_arith)
        requires
            1 <= shares,
            0 <= q,
    ;
}

/// Spreading supplies recipients, hands out no more than the shares and moves
/// the total up by what was taken.
proof fn lemma_spread(fed: FederationModel, recipients: Seq<Seq<char>>, units: int, k: nat)
    requires
        fed.wf(),
        units >= 0,
        k <= recipients.len(),
        recipients.len() > 0,
    ensures
        fed.spread(recipients, units, k).0.wf(),
        fed.supplied(fed.spread(recipients, units, k).0, recipients.take(k as int)),
        fed.spread(recipients, units, k).0.total_allocated() == fed.total_allocated() + fed.spread(
            recipients,
            units,
            k,
        ).1,
        0 <= fed.spread(recipients, units, k).1 <= shared_out(units, recipients.len() as int, k),
    decreases k,
{
    if k > 0 {
        let m = (k - 1) as nat;
        lemma_spread(fed, recipients, units, m);
        let before = fed.spread(recipients, units, m).0;
        let after = fed.spread(recipients, units, k).0;
        let share = even_share(units, recipients.len() as int, m as int);
        law_even_shares_add_up(units, recipients.len() as int, k);
        lemma_deposit(before, recipients[m as int], share);
        lemma_deposit_supplies(before, recipients[m as int], share);
        lemma_supplied_twice(
            fed,
            before,
            after,
            recipients.take(m as int),
            seq![recipients[m as int]],
        );
        assert(recipients.take(k as int) =~= recipients.take(m as int) + seq![
            recipients[m as int],
        ]);
    }
}

/// What one of several distinct recipients takes does not depend on the others:
/// its share, up to its own available capacity.
proof fn lemma_spread_effect(
    fed: FederationModel,
    order: Seq<int>,
    recipients: Seq<Seq<char>>,
    units: int,
    k: nat,
)
    requires
        fed.wf(),
        units >= 0,
        k <= recipients.len(),
        recipients.len() > 0,
        order.len() == recipients.len(),
        order.no_duplicates(),
        forall|r: int|
            0 <= r < order.len() ==> 0 <= #[trigger] order[r] < fed.nodes.len() && recipients[r]
                == fed.keys[order[r]],
    ensures
        ({
            let after = fed.spread(recipients, units, k).0;
            &&& forall|r: int|
                0 <= r < k ==> after.nodes[#[trigger] order[r]].allocated
                    == fed.nodes[order[r]].allocated + share_taken(fed, order, units, r)
            &&& forall|r: int|
                k <= r < order.len() ==> after.nodes[#[trigger] order[r]] == fed.nodes[order[r]]
        }),
        fed.spread(recipients, units, k).1 == sum(
            Seq::new(k, |r: int| share_taken(fed, order, units, r)),
        ),
    decreases k,
{
    let taken = Seq::new(k, |r: int| share_taken(fed, order, units, r));
    if k > 0 {
        let m = (k - 1) as nat;
        lemma_spread_effect(fed, order, recipients, units, m);
        lemma_spread(fed, recipients, units, m);
        law_even_shares_add_up(units, recipients.len() as int, k);
        let before = fed.spread(recipients, units, m).0;
        let after = fed.spread(recipients, units, k).0;
        let share = even_share(units, recipients.len() as int, m as int);
        let id = recipients[m as int];
        let i = order[m as int];
        lemma_place_of_key(before, i);
        lemma_deposit(before, id, share);
        assert(before.nodes[i] == fed.nodes[i]);
        assert forall|r: int| 0 <= r < k implies after.nodes[#[trigger] order[r]].allocated
            == fed.nodes[order[r]].allocated + share_taken(fed, order, units, r) by {
            if r < m {
                assert(order[r] != i);
                assert(after.nodes[order[r]] == before.nodes[order[r]]);
            }
        }
        assert forall|r: int| k <= r < order.len() implies after.nodes[#[trigger] order[r]]
            == fed.nodes[order[r]] by {
            assert(order[r] != i);
            assert(after.nodes[order[r]] == before.nodes[order[r]]);
        }
        assert(taken.drop_last() =~= Seq::new(m, |r: int| share_taken(fed, order, units, r)));
    } else {
        assert(taken =~= Seq::empty());
    }
}

/// What the recipient of rank `r` takes of its even share of `units`: what it
/// has room for.
pub open spec fn share_taken(fed: FederationModel, order: Seq<int>, units: int, r: int) -> int {
    let share = even_share(units, order.len() as int, r);
    let room = fed.nodes[order[r]].available();
    if share <= room {
        share
    } else {
        room
    }
}

/// The donor is healthy and overloaded, and no other such node is more utilized;
/// there is a donor as soon as any node is healthy and overloaded.
pub proof fn law_donor_is_most_utilized(fed: FederationModel)
    ensures
        fed.donor() is None <==> forall|i: int|
            0 <= i < fed.nodes.len() ==> !((#[trigger] fed.nodes[i]).health.accepts_work()
                && fed.nodes[i].is_overloaded(fed.overload_threshold)),
        fed.donor() matches Some(d) ==> {
            &&& 0 <= d < fed.nodes.len()
            &&& fed.nodes[d].health.accepts_work()
            &&& fed.nodes[d].is_overloaded(fed.overload_threshold)
            &&& forall|i: int|
                0 <= i < fed.nodes.len() && (#[trigger] fed.nodes[i]).health.accepts_work()
                    && fed.nodes[i].is_overloaded(fed.overload_threshold)
                    ==> fed.nodes[i].utilization().bits <= fed.nodes[d].utilization().bits
        },
{
    let scores = fed.donor_scores();
    lemma_extremes(scores);
    assert forall|i: int| 0 <= i < fed.nodes.len() implies ((#[trigger] fed.nodes[i]
    ).health.accepts_work() && fed.nodes[i].is_overloaded(fed.overload_threshold) <==> scores[i]
        is Some) by {
    }
}

/// The recipients are exactly the healthy nodes, other than the donor, that are
/// not overloaded, each once, the less utilized before the more utilized.
pub proof fn law_recipients_least_utilized_first(fed: FederationModel, donor_id: Seq<char>)
    ensures
        ({
            let order = ranked(fed.recipient_scores(donor_id));
            &&& order.len() == fed.recipients(donor_id).len()
            &&& order.no_duplicates()
            &&& forall|i: int|
                #![trigger order.contains(i)]
                order.contains(i) <==> {
                    &&& 0 <= i < fed.nodes.len()
                    &&& fed.nodes[i].id != donor_id
                    &&& fed.nodes[i].health.accepts_work()
                    &&& !fed.nodes[i].is_overloaded(fed.overload_threshold)
                }
            &&& forall|r: int|
                0 <= r < order.len() ==> 0 <= #[trigger] order[r] < fed.nodes.len()
                    && fed.recipients(donor_id)[r] == fed.nodes[order[r]].id
            &&& forall|r: int, s: int|
                0 <= r < s < order.len() ==> fed.nodes[#[trigger] order[r]].utilization().bits
                    <= fed.nodes[#[trigger] order[s]].utilization().bits
        }),
{
    let scores = fed.recipient_scores(donor_id);
    let order = ranked(scores);
    lemma_ranked(scores);
    assert forall|r: int| 0 <= r < order.len() implies 0 <= #[trigger] order[r] < fed.nodes.len()
        && scores[order[r]] is Some by {
        assert(order.contains(order[r]));
    }
    assert forall|r: int, s: int| 0 <= r < s < order.len() implies fed.nodes[
        #[trigger] order[r]
    ].utilization().bits <= fed.nodes[#[trigger] order[s]].utilization().bits by {
        assert(crate::ranking::no_later(scores)(order[r], order[s]));
    }
}

/// In a federation that is filed by id, stealing is defined whenever the nodes
/// can be counted in 32 bits.
pub proof fn law_filed_by_id_can_steal(fed: FederationModel)
    requires
        fed.wf(),
        fed.filed_by_id(),
        fed.nodes.len() <= u32::MAX,
    ensures
        fed.can_steal(),
{
    law_donor_is_most_utilized(fed);
    if let Some(d) = fed.donor() {
        let donor_id = fed.nodes[d].id;
        lemma_place_of_key(fed, d);
        law_recipients_least_utilized_first(fed, donor_id);
        lemma_distinct_places(ranked(fed.recipient_scores(donor_id)), fed.nodes.len());
    }
}

/// Stealing moves work and creates none: what the recipients took is at most
/// what left the donor, which is at most what was asked for; the difference is
/// all that the total loses. Nothing but allocations changes, and no node is
/// taken over its capacity.
pub proof fn law_steal_accounts(fed: FederationModel, units: u32)
    requires
        fed.wf(),
        fed.can_steal(),
    ensures
        ({
            let (after, moved) = fed.steal(units);
            &&& after.wf()
            &&& fed.reallocated(after)
            &&& 0 <= moved <= fed.stolen(units) <= units
            &&& after.total_allocated() == fed.total_allocated() - fed.stolen(units) + moved
            &&& fed.grows_within_capacity(after)
            &&& fed.within_capacity() ==> after.within_capacity()
            &&& fed.filed_by_id() ==> after.filed_by_id()
        }),
{
    law_donor_is_most_utilized(fed);
    let after = fed.steal(units).0;
    if let Some(d) = fed.donor() {
        let donor_id = fed.nodes[d].id;
        let recipients = fed.recipients(donor_id);
        if recipients.len() > 0 {
            let i = fed.place(donor_id);
            assert(fed.keys[i] == donor_id);
            let stolen = fed.stolen(units);
            let released = fed.put(donor_id, fed.nodes[i].release(stolen));
            lemma_put_sums(fed, donor_id, fed.nodes[i].release(stolen));
            lemma_spread(released, recipients, stolen as int, recipients.len());
            law_even_shares_add_up(stolen as int, recipients.len() as int, recipients.len());
            assert forall|k: int| 0 <= k < fed.nodes.len() implies (#[trigger] after.nodes[k])
                == fed.nodes[k].holding(after.nodes[k].allocated as int) && (
            fed.nodes[k].within_capacity() ==> after.nodes[k].within_capacity()) by {
                assert(after.nodes[k] == released.nodes[k].holding(
                    after.nodes[k].allocated as int,
                ));
            }
        }
    }
    assert forall|k: int| 0 <= k < fed.nodes.len() && fed.filed_by_id() implies (
    #[trigger] after.nodes[k]).id == after.keys[k] by {
        assert(fed.nodes[k].id == fed.keys[k]);
    }
}

/// Stealing any number of times in a row creates no work and takes no node over
/// its capacity: the worst that comes of it is that less is allocated.
pub proof fn law_steal_repeatedly(fed: FederationModel, requests: Seq<u32>)
    requires
        fed.wf(),
        fed.filed_by_id(),
        fed.nodes.len() <= u32::MAX,
    ensures
        ({
            let after = steal_each(fed, requests);
            &&& after.wf()
            &&& after.filed_by_id()
            &&& fed.reallocated(after)
            &&& after.total_allocated() <= fed.total_allocated()
            &&& fed.grows_within_capacity(after)
            &&& fed.within_capacity() ==> after.within_capacity()
        }),
    decreases requests.len(),
{
    if requests.len() > 0 {
        law_steal_repeatedly(fed, requests.drop_last());
        let before = steal_each(fed, requests.drop_last());
        let after = steal_each(fed, requests);
        law_filed_by_id_can_steal(before);
        law_steal_accounts(before, requests.last());
        assert forall|i: int| 0 <= i < fed.nodes.len() implies (#[trigger] after.nodes[i])
            == fed.nodes[i].holding(after.nodes[i].allocated as int) by {
            assert(before.nodes[i] == fed.nodes[i].holding(before.nodes[i].allocated as int));
        }
    }
}

/// The federation after stealing for each of the requests in turn.
pub open spec fn steal_each(fed: FederationModel, requests: Seq<u32>) -> FederationModel
    decreases requests.len(),
{
    if requests.len() == 0 {
        fed
    } else {
        steal_each(fed, requests.drop_last()).steal(requests.last()).0
    }
}

/// Without a donor, or without a node that can take its work, stealing changes
/// nothing and moves nothing.
pub proof fn law_steal_without_takers(fed: FederationModel, units: u32)
    requires
        fed.donor() matches Some(d) ==> fed.recipients(fed.nodes[d].id).len() == 0,
    ensures
        fed.steal(units) == (fed, 0int),
{
}

/// In a federation that is filed by id, the donor gives up what is stolen, each
/// recipient takes its even share up to its available capacity, and every other
/// node stays as it is.
pub proof fn law_steal_effect(fed: FederationModel, units: u32, d: int)
    requires
        fed.wf(),
        fed.filed_by_id(),
        fed.can_steal(),
        fed.donor() == Some(d),
        fed.recipients(fed.nodes[d].id).len() > 0,
    ensures
        ({
            let (after, moved) = fed.steal(units);
            let stolen = fed.stolen(units);
            let order = ranked(fed.recipient_scores(fed.nodes[d].id));
            &&& stolen <= fed.nodes[d].allocated
            &&& stolen == units || stolen == fed.nodes[d].allocated
            &&& !order.contains(d)
            &&& after.nodes[d].allocated == fed.nodes[d].allocated - stolen
            &&& forall|r: int|
                0 <= r < order.len() ==> after.nodes[#[trigger] order[r]].allocated
                    == fed.nodes[order[r]].allocated + share_taken(fed, order, stolen as int, r)
            &&& forall|i: int|
                0 <= i < fed.nodes.len() && i != d && !order.contains(i) ==> (
                #[trigger] after.nodes[i]) == fed.nodes[i]
            &&& moved == sum(
                Seq::new(order.len(), |r: int| share_taken(fed, order, stolen as int, r)),
            )
        }),
{
    law_donor_is_most_utilized(fed);
    let donor_id = fed.nodes[d].id;
    let recipients = fed.recipients(donor_id);
    let order = ranked(fed.recipient_scores(donor_id));
    let stolen = fed.stolen(units);
    law_recipients_least_utilized_first(fed, donor_id);
    lemma_place_of_key(fed, d);
    let released = fed.put(donor_id, fed.nodes[d].release(stolen));
    assert forall|r: int| 0 <= r < order.len() implies 0 <= #[trigger] order[r]
        < released.nodes.len() && recipients[r] == released.keys[order[r]] && order[r] != d by {
        assert(order.contains(order[r]));
        assert(fed.nodes[order[r]].id == fed.keys[order[r]]);
    }
    let (after, moved) = fed.steal(units);
    lemma_spread_effect(released, order, recipients, stolen as int, order.len());
    lemma_spread(released, recipients, stolen as int, recipients.len());
    assert(Seq::new(order.len(), |r: int| share_taken(released, order, stolen as int, r))
        =~= Seq::new(order.len(), |r: int| share_taken(fed, order, stolen as int, r)));
    assert(recipients.take(recipients.len() as int) =~= recipients);
    assert forall|i: int| 0 <= i < fed.nodes.len() && !order.contains(i) implies (
    #[trigger] after.nodes[i]) == released.nodes[i] by {
        if recipients.contains(released.keys[i]) {
            let r = recipients.index_of(released.keys[i]);
            assert(released.keys[order[r]] == released.keys[i]);
            assert(order.contains(order[r]));
        }
    }
    assert forall|r: int| 0 <= r < order.len() implies after.nodes[#[trigger] order[r]].allocated
        == fed.nodes[order[r]].allocated + share_taken(fed, order, stolen as int, r) by {
        assert(released.nodes[order[r]] == fed.nodes[order[r]]);
    }
}

/// The last of the most utilized healthy and overloaded nodes is the donor.
proof fn lemma_donor_is(fed: FederationModel, d: int)
    requires
        0 <= d < fed.nodes.len(),
        fed.nodes[d].health == Health::Healthy,
        fed.nodes[d].is_overloaded(fed.overload_threshold),
        forall|i: int|
            0 <= i < fed.nodes.len() && (#[trigger] fed.nodes[i]).health == Health::Healthy
                && fed.nodes[i].is_overloaded(fed.overload_threshold) ==> {
                ||| fed.nodes[i].utilization().bits < fed.nodes[d].utilization().bits
                ||| fed.nodes[i].utilization().bits == fed.nodes[d].utilization().bits && i <= d
            },
    ensures
        fed.donor() == Some(d),
{
    let scores = fed.donor_scores();
    lemma_extremes(scores);
    assert(scores[d] is Some);
    let found = fed.donor()->0;
    assert(crate::ranking::no_later(scores)(d, found));
    assert(fed.nodes[found].health == Health::Healthy);
}

/// Eligible nodes by rising utilization, and by place where it is equal, are the
/// recipients in their order.
proof fn lemma_recipients_are(fed: FederationModel, donor_id: Seq<char>, order: Seq<int>)
    requires
        order.no_duplicates(),
        forall|i: int| #[trigger]
            order.contains(i) <==> {
                &&& 0 <= i < fed.nodes.len()
                &&& fed.nodes[i].id != donor_id
                &&& fed.nodes[i].health == Health::Healthy
                &&& !fed.nodes[i].is_overloaded(fed.overload_threshold)
            },
        forall|r: int, s: int|
            0 <= r < s < order.len() ==> {
                ||| fed.nodes[#[trigger] order[r]].utilization().bits < fed.nodes[
                    #[trigger] order[s]
                ].utilization().bits
                ||| fed.nodes[order[r]].utilization().bits == fed.nodes[order[s]].utilization().bits
                    && order[r] < order[s]
            },
    ensures
        ranked(fed.recipient_scores(donor_id)) == order,
{
    let scores = fed.recipient_scores(donor_id);
    lemma_ranked(scores);
    assert forall|p: int| #[trigger] order.contains(p) <==> 0 <= p < scores.len()
        && scores[p] is Some by {
    }
    assert forall|r: int, s: int| 0 <= r < s < order.len() implies #[trigger] crate::ranking::no_later(
        scores,
    )(order[r], order[s]) by {
        assert(order.contains(order[r]));
        assert(order.contains(order[s]));
    }
    assert(crate::ranking::is_ranking(order, scores));
}

/// Where no node is both healthy and overloaded, stealing changes nothing and
/// moves nothing.
pub proof fn law_steal_needs_an_overloaded_node(fed: FederationModel, units: u32)
    requires
        forall|i: int|
            0 <= i < fed.nodes.len() && (#[trigger] fed.nodes[i]).health == Health::Healthy
                ==> !fed.nodes[i].is_overloaded(fed.overload_threshold),
    ensures
        fed.steal(units) == (fed, 0int),
{
    law_donor_is_most_utilized(fed);
    if let Some(d) = fed.donor() {
        assert(fed.nodes[d].health == Health::Healthy);
    }
}

/// Where every healthy node is overloaded or has the id of the donor, stealing
/// changes nothing and moves nothing.
pub proof fn law_steal_needs_an_underloaded_node(fed: FederationModel, units: u32, d: int)
    requires
        0 <= d < fed.nodes.len(),
        fed.nodes[d].health == Health::Healthy,
        fed.nodes[d].is_overloaded(fed.overload_threshold),
        forall|i: int|
            0 <= i < fed.nodes.len() && (#[trigger] fed.nodes[i]).health == Health::Healthy
                && fed.nodes[i].is_overloaded(fed.overload_threshold) ==> {
                ||| fed.nodes[i].utilization().bits < fed.nodes[d].utilization().bits
                ||| fed.nodes[i].utilization().bits == fed.nodes[d].utilization().bits && i <= d
            },
        forall|i: int|
            0 <= i < fed.nodes.len() && (#[trigger] fed.nodes[i]).health == Health::Healthy
                && fed.nodes[i].id != fed.nodes[d].id ==> fed.nodes[i].is_overloaded(
                fed.overload_threshold,
            ),
    ensures
        fed.steal(units) == (fed, 0int),
{
    let donor_id = fed.nodes[d].id;
    let order = ranked(fed.recipient_scores(donor_id));
    lemma_donor_is(fed, d);
    law_recipients_least_utilized_first(fed, donor_id);
    if order.len() > 0 {
        assert(order.contains(order[0]));
        assert(fed.nodes[order[0]].health == Health::Healthy);
    }
}

/// Stealing goes step by step. The donor `d` is the most utilized node that is
/// healthy and overloaded; `order` lists the healthy nodes with another id that
/// are not overloaded, the less utilized first. First the node at place `t`,
/// which is filed under the id of the donor, gives up what is asked for, or all
/// it has. Then, for each of `order` in turn, the node that is filed under its id
/// takes an even share of that, one more for the first ones until the remainder
/// is used up, as far as it has room. No step changes anything else. The result
/// is what was taken in all.
pub proof fn law_steal_step_by_step(
    fed: FederationModel,
    units: u32,
    d: int,
    t: int,
    order: Seq<int>,
) -> (trace: (Seq<FederationModel>, Seq<int>))
    requires
        fed.wf(),
        0 <= d < fed.nodes.len(),
        fed.nodes[d].health == Health::Healthy,
        fed.nodes[d].is_overloaded(fed.overload_threshold),
        forall|i: int|
            0 <= i < fed.nodes.len() && (#[trigger] fed.nodes[i]).health == Health::Healthy
                && fed.nodes[i].is_overloaded(fed.overload_threshold) ==> {
                ||| fed.nodes[i].utilization().bits < fed.nodes[d].utilization().bits
                ||| fed.nodes[i].utilization().bits == fed.nodes[d].utilization().bits && i <= d
            },
        0 <= t < fed.keys.len(),
        fed.keys[t] == fed.nodes[d].id,
        0 < order.len() <= u32::MAX,
        order.no_duplicates(),
        forall|i: int| #[trigger]
            order.contains(i) <==> {
                &&& 0 <= i < fed.nodes.len()
                &&& fed.nodes[i].id != fed.nodes[d].id
                &&& fed.nodes[i].health == Health::Healthy
                &&& !fed.nodes[i].is_overloaded(fed.overload_threshold)
            },
        forall|r: int, s: int|
            0 <= r < s < order.len() ==> {
                ||| fed.nodes[#[trigger] order[r]].utilization().bits < fed.nodes[
                    #[trigger] order[s]
                ].utilization().bits
                ||| fed.nodes[order[r]].utilization().bits == fed.nodes[order[s]].utilization().bits
                    && order[r] < order[s]
            },
    ensures
        ({
            let (steps, taken) = trace;
            let held = fed.nodes[t].allocated as int;
            let stolen: int = if units <= held {
                units as int
            } else {
                held
            };
            let (q, rem) = (stolen / order.len() as int, stolen % order.len() as int);
            &&& steps.len() == order.len() + 1
            &&& taken.len() == order.len() + 1
            &&& steps[0] == (FederationModel {
                nodes: fed.nodes.update(
                    t,
                    NodeModel { allocated: (held - stolen) as u32, ..fed.nodes[t] },
                ),
                ..fed
            })
            &&& taken[0] == 0
            &&& forall|r: int, p: int|
                0 <= r < order.len() && 0 <= p < fed.keys.len() && #[trigger] fed.keys[p]
                    == fed.nodes[#[trigger] order[r]].id ==> {
                    let node = steps[r].nodes[p];
                    let share: int = q + (if r < rem {
                        1int
                    } else {
                        0
                    });
                    let room: int = if node.allocated <= node.capacity {
                        node.capacity - node.allocated
                    } else {
                        0
                    };
                    let fit: int = if share <= room {
                        share
                    } else {
                        room
                    };
                    &&& node.allocated + fit <= u32::MAX
                    &&& steps[r + 1] == (FederationModel {
                        nodes: steps[r].nodes.update(
                            p,
                            NodeModel { allocated: (node.allocated + fit) as u32, ..node },
                        ),
                        ..steps[r]
                    })
                    &&& taken[r + 1] == taken[r] + fit
                }
            &&& forall|r: int|
                0 <= r < order.len() && !fed.keys.contains(fed.nodes[#[trigger] order[r]].id)
                    ==> steps[r + 1] == steps[r] && taken[r + 1] == taken[r]
            &&& fed.steal(units) == (steps.last(), taken.last())
        }),
{
    let donor_id = fed.nodes[d].id;
    lemma_donor_is(fed, d);
    lemma_recipients_are(fed, donor_id, order);
    lemma_place_of_key(fed, t);
    let ids = fed.recipients(donor_id);
    let stolen = fed.stolen(units) as int;
    let start = fed.put(donor_id, fed.nodes[t].release(fed.stolen(units)));
    let steps = Seq::new(order.len() + 1, |k: int| start.spread(ids, stolen, k as nat).0);
    let taken = Seq::new(order.len() + 1, |k: int| start.spread(ids, stolen, k as nat).1);
    law_even_shares_add_up(stolen, order.len() as int, 0);
    assert forall|r: int| 0 <= r < order.len() implies #[trigger] ids[r] == fed.nodes[order[r]].id
        && steps[r].wf() && steps[r].keys == fed.keys && steps[r].nodes.len() == fed.nodes.len()
        && even_share(stolen, ids.len() as int, r) >= 0 && steps[r + 1] == steps[r].deposit(
        ids[r],
        even_share(stolen, ids.len() as int, r),
    ) && taken[r + 1] == taken[r] + steps[r].room(
        ids[r],
        even_share(stolen, ids.len() as int, r),
    ) by {
        lemma_spread(start, ids, stolen, r as nat);
    }
    assert forall|r: int, p: int|
        0 <= r < order.len() && 0 <= p < fed.keys.len() && #[trigger] fed.keys[p] == fed.nodes[
            #[trigger] order[r]
        ].id implies steps[r].has(ids[r]) && steps[r].place(ids[r]) == p by {
        assert(ids[r] == fed.nodes[order[r]].id);
        lemma_place_of_key(steps[r], p);
    }
    assert forall|r: int|
        0 <= r < order.len() && !fed.keys.contains(fed.nodes[#[trigger] order[r]].id) implies steps[r
        + 1] == steps[r] && taken[r + 1] == taken[r] by {
        assert(ids[r] == fed.nodes[order[r]].id);
    }
    (steps, taken)
}

/// In a federation that is filed by id, every recipient gets an even share of its
/// own, whatever room the others have. The donor `d` is the most utilized node
/// that is healthy and overloaded; `order` lists the healthy nodes that are not
/// overloaded, the less utilized first. The donor gives up what is asked for, or
/// all it has. Divided by the number of recipients, that is the share of each,
/// and one more for as many of the first ones as there is remainder. A recipient
/// takes its share up to its own capacity, so one that still has room after that
/// took all of it. Nothing else changes, and the result is what was taken in all.
pub proof fn law_steal_gives_even_shares(fed: FederationModel, units: u32, d: int, order: Seq<int>)
    requires
        fed.wf(),
        fed.filed_by_id(),
        0 <= d < fed.nodes.len(),
        fed.nodes[d].health == Health::Healthy,
        fed.nodes[d].is_overloaded(fed.overload_threshold),
        forall|i: int|
            0 <= i < fed.nodes.len() && (#[trigger] fed.nodes[i]).health == Health::Healthy
                && fed.nodes[i].is_overloaded(fed.overload_threshold) ==> {
                ||| fed.nodes[i].utilization().bits < fed.nodes[d].utilization().bits
                ||| fed.nodes[i].utilization().bits == fed.nodes[d].utilization().bits && i <= d
            },
        0 < order.len() <= u32::MAX,
        order.no_duplicates(),
        forall|i: int| #[trigger]
            order.contains(i) <==> {
                &&& 0 <= i < fed.nodes.len()
                &&& i != d
                &&& fed.nodes[i].health == Health::Healthy
                &&& !fed.nodes[i].is_overloaded(fed.overload_threshold)
            },
        forall|r: int, s: int|
            0 <= r < s < order.len() ==> {
                ||| fed.nodes[#[trigger] order[r]].utilization().bits < fed.nodes[
                    #[trigger] order[s]
                ].utilization().bits
                ||| fed.nodes[order[r]].utilization().bits == fed.nodes[order[s]].utilization().bits
                    && order[r] < order[s]
            },
    ensures
        ({
            let (after, moved) = fed.steal(units);
            let stolen: int = if units <= fed.nodes[d].allocated {
                units as int
            } else {
                fed.nodes[d].allocated as int
            };
            let (q, rem) = (stolen / order.len() as int, stolen % order.len() as int);
            &&& after.keys == fed.keys
            &&& after.gossip_log == fed.gossip_log
            &&& after.overload_threshold == fed.overload_threshold
            &&& after.nodes.len() == fed.nodes.len()
            &&& after.nodes[d].allocated == fed.nodes[d].allocated - stolen
            &&& forall|r: int|
                0 <= r < order.len() ==> {
                    let node = fed.nodes[#[trigger] order[r]];
                    let share: int = q + (if r < rem {
                        1int
                    } else {
                        0
                    });
                    let room: int = if node.allocated <= node.capacity {
                        node.capacity - node.allocated
                    } else {
                        0
                    };
                    &&& after.nodes[order[r]].allocated == node.allocated + (if share <= room {
                        share
                    } else {
                        room
                    })
                    &&& after.nodes[order[r]].allocated < node.capacity
                        ==> after.nodes[order[r]].allocated == node.allocated + share
                }
            &&& forall|i: int|
                0 <= i < fed.nodes.len() ==> {
                    &&& (#[trigger] after.nodes[i]).id == fed.nodes[i].id
                    &&& after.nodes[i].health == fed.nodes[i].health
                    &&& after.nodes[i].capacity == fed.nodes[i].capacity
                    &&& after.nodes[i].latency_ms == fed.nodes[i].latency_ms
                    &&& i != d && !order.contains(i) ==> after.nodes[i].allocated
                        == fed.nodes[i].allocated
                }
            &&& moved == sum(
                Seq::new(
                    order.len(),
                    |r: int| after.nodes[order[r]].allocated - fed.nodes[order[r]].allocated,
                ),
            )
        }),
{
    let donor_id = fed.nodes[d].id;
    let (after, moved) = fed.steal(units);
    let stolen = fed.stolen(units) as int;
    assert forall|i: int| 0 <= i < fed.nodes.len() implies ((#[trigger] fed.nodes[i]).id != donor_id
        <==> i != d) by {
        assert(fed.nodes[i].id == fed.keys[i]);
        assert(fed.nodes[d].id == fed.keys[d]);
    }
    lemma_donor_is(fed, d);
    lemma_recipients_are(fed, donor_id, order);
    lemma_place_of_key(fed, d);
    assert(fed.nodes[d].id == fed.keys[d]);
    law_steal_effect(fed, units, d);
    law_steal_accounts(fed, units);
    assert forall|i: int| 0 <= i < fed.nodes.len() implies (#[trigger] after.nodes[i])
        == fed.nodes[i].holding(after.nodes[i].allocated as int) by {
    }
    assert(Seq::new(order.len(), |r: int| share_taken(fed, order, stolen, r)) =~= Seq::new(
        order.len(),
        |r: int| after.nodes[order[r]].allocated - fed.nodes[order[r]].allocated,
    )) by {
        assert forall|r: int| 0 <= r < order.len() implies share_taken(fed, order, stolen, r)
            == after.nodes[#[trigger] order[r]].allocated - fed.nodes[order[r]].allocated by {
        }
    }
}

/// Where every recipient has room for its share, all that is stolen arrives and
/// the total stays the same.
pub proof fn law_steal_conserves_what_fits(fed: FederationModel, units: u32, d: int)
    requires
        fed.wf(),
        fed.filed_by_id(),
        fed.can_steal(),
        fed.donor() == Some(d),
        ({
            let order = ranked(fed.recipient_scores(fed.nodes[d].id));
            forall|r: int|
                0 <= r < order.len() ==> even_share(
                    fed.stolen(units) as int,
                    order.len() as int,
                    r,
                ) <= fed.nodes[#[trigger] order[r]].available()
        }),
    ensures
        fed.steal(units).1 == fed.stolen(units),
        fed.steal(units).0.total_allocated() == fed.total_allocated(),
{
    law_steal_accounts(fed, units);
    let order = ranked(fed.recipient_scores(fed.nodes[d].id));
    let stolen = fed.stolen(units) as int;
    law_recipients_least_utilized_first(fed, fed.nodes[d].id);
    if order.len() > 0 {
        law_steal_effect(fed, units, d);
        let taken = Seq::new(order.len(), |r: int| share_taken(fed, order, stolen, r));
        let shares = Seq::new(order.len(), |r: int| even_share(stolen, order.len() as int, r));
        assert forall|r: int| 0 <= r < order.len() implies taken[r] == shares[r] by {
            assert(0 <= order[r]);
        }
        assert(taken =~= shares);
        lemma_shares_sum(stolen, order.len() as int, order.len());
        law_even_shares_add_up(stolen, order.len() as int, order.len());
    }
}

proof fn lemma_shares_sum(units: int, shares: int, k: nat)
    ensures
        sum(Seq::new(k, |r: int| even_share(units, shares, r))) == shared_out(units, shares, k),
    decreases k,
{
    let all = Seq::new(k, |r: int| even_share(units, shares, r));
    if k > 0 {
        lemma_shares_sum(units, shares, (k - 1) as nat);
        assert(all.drop_last() =~= Seq::new(
            (k - 1) as nat,
            |r: int| even_share(units, shares, r),
        ));
    }
}

/// In a federation that is filed by id, stealing leaves nodes that are not
/// healthy exactly as they are.
pub proof fn law_steal_touches_only_healthy(fed: FederationModel, units: u32, i: int)
    requires
        fed.wf(),
        fed.filed_by_id(),
        fed.can_steal(),
        0 <= i < fed.nodes.len(),
        !fed.nodes[i].health.accepts_work(),
    ensures
        fed.steal(units).0.nodes[i] == fed.nodes[i],
{
    law_donor_is_most_utilized(fed);
    if let Some(d) = fed.donor() {
        law_recipients_least_utilized_first(fed, fed.nodes[d].id);
        let order = ranked(fed.recipient_scores(fed.nodes[d].id));
        assert(!order.contains(i));
        if order.len() > 0 {
            law_steal_effect(fed, units, d);
        }
    }
}

impl FederationManager {
    /// Scores the nodes that work can be stolen from.
    fn score_donors(&self) -> (scores: Vec<Option<i64>>)
        ensures
            scores_view(scores@) == self@.donor_scores(),
    {
        let threshold = self.overload_threshold;
        let score = |node: &ClusterNode| -> (score: Option<i64>)
            ensures
                score_view(score) == donor_score(node@, threshold),
            {
                if node.health.can_accept_work() && node.is_overloaded(threshold) {
                    Some(node.utilization().to_bits() as i64)
                } else {
                    None
                }
            };
        let scores = score_each(&self.nodes, score);
        assert(scores_view(scores@) =~= self@.donor_scores());
        scores
    }

    /// Scores the nodes that can take work stolen from the node `donor_id`.
    fn score_recipients(&self, donor_id: &String) -> (scores: Vec<Option<i64>>)
        ensures
            scores_view(scores@) == self@.recipient_scores(donor_id@),
    {
        let threshold = self.overload_threshold;
        let score = |node: &ClusterNode| -> (score: Option<i64>)
            ensures
                score_view(score) == recipient_score(node@, donor_id@, threshold),
            {
                if !(node.id == *donor_id) && node.health.can_accept_work()
                    && !node.is_overloaded(threshold) {
                    Some(node.utilization().to_bits() as i64)
                } else {
                    None
                }
            };
        let scores = score_each(&self.nodes, score);
        assert(scores_view(scores@) =~= self@.recipient_scores(donor_id@));
        scores
    }

    /// The ids of the nodes at the given places.
    pub(crate) fn ids_at(&self, order: &Vec<usize>) -> (ids: Vec<String>)
        requires
            forall|k: int| 0 <= k < order@.len() ==> #[trigger] order@[k] < self.nodes@.len(),
        ensures
            keys_view(ids@) == places(order@).map_values(
                |i: int| self@.nodes[i].id,
            ),
    {
        let mut ids: Vec<String> = Vec::new();
        let mut k: usize = 0;
        while k < order.len()
            invariant
                k <= order.len(),
                ids@.len() == k,
                forall|j: int| 0 <= j < order@.len() ==> #[trigger] order@[j] < self.nodes@.len(),
                forall|j: int|
                    0 <= j < k ==> (#[trigger] ids@[j])@ == self@.nodes[order@[j] as int].id,
            decreases order.len() - k,
        {
            ids.push(self.nodes[order[k]].id.clone());
            k = k + 1;
        }
        assert(keys_view(ids@) =~= places(order@).map_values(
            |i: int| self@.nodes[i].id,
        ));
        ids
    }

    /// Steal work from the most overloaded node and redistribute to
    /// underloaded nodes. Returns the number of units redistributed.
    ///
    /// By [`law_filed_by_id_can_steal`], up to 2^32 - 1 nodes that are filed by
    /// id meet the condition.
    pub fn steal_work(&mut self, units: u32) -> (distributed: u32)
        requires
            old(self)@.wf(),
            old(self)@.can_steal(),
        ensures
            final(self)@.wf(),
            final(self)@ == old(self)@.steal(units).0,
            distributed == old(self)@.steal(units).1,
            old(self)@.filed_by_id() ==> final(self)@.filed_by_id(),
    {
        let ghost before = self@;
        proof {
            law_steal_accounts(before, units);
        }
        // Find the most overloaded healthy node.
        let donors = self.score_donors();
        let donor_id: String = match find_highest(&donors) {
            Some(place) => self.nodes[place].id.clone(),
            None => {
                return 0;
            },
        };
        // Find recipients: healthy and underloaded, sorted by lowest utilization.
        let scores = self.score_recipients(&donor_id);
        let order = rank(&scores);
        let recipients = self.ids_at(&order);
        let ghost ids = keys_view(recipients@);
        assert(ids == before.recipients(donor_id@));
        if recipients.len() == 0 {
            return 0;
        }
        // Release from donor.
        let mut stolen: u32 = 0;
        if let Some(i) = self.find(&donor_id) {
            stolen = if units <= self.nodes[i].allocated {
                units
            } else {
                self.nodes[i].allocated
            };
            self.nodes[i].release(stolen);
        }
        let ghost start = before.put(
            donor_id@,
            before.nodes[before.place(donor_id@)].release(stolen),
        );
        assert(self@.nodes =~= start.nodes);
        assert(self@.keys =~= start.keys);
        // Distribute evenly across recipients.
        let shares: u32 = recipients.len() as u32;
        let per_recipient: u32 = stolen / shares;
        let remainder: u32 = stolen % shares;
        let mut distributed: u32 = 0;
        let mut k: usize = 0;
        while k < recipients.len()
            invariant
                k <= recipients@.len(),
                ids == keys_view(recipients@),
                0 < shares == recipients@.len(),
                per_recipient == stolen as int / shares as int,
                remainder == stolen as int % shares as int,
                start.wf(),
                self@.wf(),
                self@ == start.spread(ids, stolen as int, k as nat).0,
                distributed == start.spread(ids, stolen as int, k as nat).1,
            decreases recipients.len() - k,
        {
            proof {
                law_even_shares_add_up(stolen as int, shares as int, (k + 1) as nat);
                lemma_spread(start, ids, stolen as int, (k + 1) as nat);
                assert(ids[k as int] == recipients@[k as int]@);
            }
            let share: u32 = if (k as u32) < remainder {
                per_recipient + 1
            } else {
                per_recipient
            };
            let fit: u32 = self.deposit(&recipients[k], share);
            distributed = distributed + fit;
            k = k + 1;
        }
        distributed
    }
}

} // verus!
