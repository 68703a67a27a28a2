//! Graceful degradation: the work of nodes that go down moves to healthy ones.

use crate::health::Health;
use crate::lists::{lemma_filter_places, lemma_filter_step};
use crate::manager::{keys_view, FederationManager, FederationModel};
use crate::node::{ClusterNode, NodeModel};
use crate::ranking::{lemma_ranked, rank, ranked, score_each, score_view, scores_view};
use crate::sums::{lemma_sum_bounds, lemma_sum_over_places, sum};
use crate::transfer::{
    lemma_deposit, lemma_deposit_supplies, lemma_place_of_key, lemma_put_sums, lemma_supplied_twice,
};
use vstd::prelude::*;

verus! {

/// The available capacity, negated, of a node that can take over the work of the
/// node `id`: a healthy one with another id.
pub open spec fn heir_score(node: NodeModel, id: Seq<char>) -> Option<int> {
    if node.id != id && node.health.accepts_work() {
        Some(-node.available())
    } else {
        None
    }
}

/// A node is stranded if it is offline and still holds work.
pub open spec fn is_stranded(node: NodeModel) -> bool {
    node.health == Health::Offline && node.allocated > 0
}

impl FederationModel {
    /// Scores the nodes that can take over the work of the node `id`, so that
    /// more available capacity ranks first.
    pub open spec fn heir_scores(self, id: Seq<char>) -> Seq<Option<int>> {
        self.nodes.map_values(|n: NodeModel| heir_score(n, id))
    }

    /// The ids of the nodes that can take over the work of the node `id`, most
    /// available capacity first.
    pub open spec fn heirs(self, id: Seq<char>) -> Seq<Seq<char>> {
        ranked(self.heir_scores(id)).map_values(|i: int| self.nodes[i].id)
    }

    /// Hands `units` to the first `k` heirs, each taking all it has room for
    /// before the next is asked; gives the federation after that and how much
    /// was placed.
    pub open spec fn fill(self, heirs: Seq<Seq<char>>, units: int, k: nat) -> (FederationModel, int)
        decreases k,
    {
        if k == 0 {
            (self, 0)
        } else {
            let (fed, placed) = self.fill(heirs, units, (k - 1) as nat);
            let id = heirs[k - 1];
            (fed.deposit(id, units - placed), placed + fed.room(id, units - placed))
        }
    }

    /// The federation with the node filed under `id` offline and without work.
    pub open spec fn take_down(self, id: Seq<char>) -> FederationModel {
        match self.get(id) {
            Some(node) => self.put(
                id,
                NodeModel { health: Health::Offline, allocated: 0, ..node },
            ),
            None => self,
        }
    }

    /// Takes the node filed under `id` down and hands its work to its heirs;
    /// gives the federation after that and how much was placed.
    pub open spec fn degrade(self, id: Seq<char>) -> (FederationModel, int) {
        match self.get(id) {
            Some(node) => {
                let down = self.take_down(id);
                let heirs = down.heirs(id);
                down.fill(heirs, node.allocated as int, heirs.len())
            },
            None => (self, 0),
        }
    }

    /// The ids of the stranded nodes.
    pub open spec fn stranded(self) -> Seq<Seq<char>> {
        self.nodes.filter(|n: NodeModel| is_stranded(n)).map_values(|n: NodeModel| n.id)
    }

    /// Degrades the first `k` of the given nodes, one after the other.
    pub open spec fn degrade_each(self, ids: Seq<Seq<char>>, k: nat) -> (FederationModel, int)
        decreases k,
    {
        if k == 0 {
            (self, 0)
        } else {
            let (fed, placed) = self.degrade_each(ids, (k - 1) as nat);
            (fed.degrade(ids[k - 1]).0, placed + fed.degrade(ids[k - 1]).1)
        }
    }

    /// All work that offline nodes hold.
    pub open spec fn stranded_work(self) -> int {
        sum(
            self.nodes.map_values(
                |n: NodeModel|
                    if n.health == Health::Offline {
                        n.allocated as int
                    } else {
                        0
                    },
            ),
        )
    }

    /// Degrades all nodes that are offline and still hold work.
    pub open spec fn degrade_stranded(self) -> (FederationModel, int) {
        self.degrade_each(self.stranded(), self.stranded().len())
    }
}

/// Filling supplies heirs, places no more than there is and moves the total up
/// by what was placed.
proof fn lemma_fill(fed: FederationModel, heirs: Seq<Seq<char>>, units: int, k: nat)
    requires
        fed.wf(),
        units >= 0,
        k <= heirs.len(),
    ensures
        fed.fill(heirs, units, k).0.wf(),
        fed.supplied(fed.fill(heirs, units, k).0, heirs.take(k as int)),
        fed.fill(heirs, units, k).0.total_allocated() == fed.total_allocated() + fed.fill(
            heirs,
            units,
            k,
        ).1,
        0 <= fed.fill(heirs, units, k).1 <= units,
    decreases k,
{
    if k > 0 {
        let m = (k - 1) as nat;
        lemma_fill(fed, heirs, units, m);
        let (before, placed) = fed.fill(heirs, units, m);
        let after = fed.fill(heirs, units, k).0;
        lemma_deposit(before, heirs[m as int], units - placed);
        lemma_deposit_supplies(before, heirs[m as int], units - placed);
        lemma_supplied_twice(fed, before, after, heirs.take(m as int), seq![heirs[m as int]]);
        assert(heirs.take(k as int) =~= heirs.take(m as int) + seq![heirs[m as int]]);
    }
}

/// Once everything is placed, further heirs get nothing.
proof fn lemma_fill_done(fed: FederationModel, heirs: Seq<Seq<char>>, units: int, k: nat, n: nat)
    requires
        fed.wf(),
        units >= 0,
        k <= n <= heirs.len(),
        fed.fill(heirs, units, k).1 == units,
    ensures
        fed.fill(heirs, units, n) == fed.fill(heirs, units, k),
    decreases n,
{
    if k < n {
        let m = (n - 1) as nat;
        lemma_fill_done(fed, heirs, units, k, m);
        lemma_fill(fed, heirs, units, m);
        let before = fed.fill(heirs, units, m).0;
        lemma_deposit(before, heirs[m as int], 0);
        assert(before.deposit(heirs[m as int], 0).nodes =~= before.nodes);
    }
}

/// Taking a node down keeps the federation well-formed.
proof fn lemma_take_down(fed: FederationModel, id: Seq<char>)
    requires
        fed.wf(),
    ensures
        fed.take_down(id).wf(),
        fed.take_down(id).keys == fed.keys,
        fed.take_down(id).nodes.len() == fed.nodes.len(),
        fed.has(id) ==> 0 <= fed.place(id) < fed.nodes.len() && fed.keys[fed.place(id)] == id,
{
}

/// Degrading keeps the federation well-formed and places no more than the node
/// held.
proof fn lemma_degrade(fed: FederationModel, id: Seq<char>)
    requires
        fed.wf(),
    ensures
        fed.degrade(id).0.wf(),
        fed.degrade(id).0.keys == fed.keys,
        fed.degrade(id).0.nodes.len() == fed.nodes.len(),
        0 <= fed.degrade(id).1,
        fed.has(id) ==> fed.degrade(id).1 <= fed.nodes[fed.place(id)].allocated,
{
    lemma_take_down(fed, id);
    if fed.has(id) {
        let down = fed.take_down(id);
        let units = fed.nodes[fed.place(id)].allocated as int;
        lemma_fill(down, down.heirs(id), units, down.heirs(id).len());
    }
}

/// Degrading several nodes keeps the federation well-formed, and every further
/// node adds to what is placed.
proof fn lemma_degrade_each(fed: FederationModel, ids: Seq<Seq<char>>, k: nat, n: nat)
    requires
        fed.wf(),
        k <= n <= ids.len(),
    ensures
        fed.degrade_each(ids, n).0.wf(),
        fed.degrade_each(ids, n).0.keys == fed.keys,
        fed.degrade_each(ids, n).0.nodes.len() == fed.nodes.len(),
        0 <= fed.degrade_each(ids, k).1 <= fed.degrade_each(ids, n).1,
    decreases n,
{
    if n > 0 {
        let m = (n - 1) as nat;
        lemma_degrade_each(fed, ids, if k < n { k } else { m }, m);
        lemma_degrade(fed.degrade_each(ids, m).0, ids[m as int]);
    }
}

/// The capacity that is available on the first `r` places of `order`.
pub open spec fn room_before(fed: FederationModel, order: Seq<int>, r: nat) -> int {
    sum(Seq::new(r, |q: int| fed.nodes[order[q]].available()))
}

/// What the heir of rank `r` takes of `units`: what the heirs before it leave
/// over, up to its own available capacity.
pub open spec fn inherited(fed: FederationModel, order: Seq<int>, units: int, r: int) -> int {
    let left = units - room_before(fed, order, r as nat);
    let room = fed.nodes[order[r]].available();
    if left <= 0 {
        0
    } else if left <= room {
        left
    } else {
        room
    }
}

/// Distinct heirs are filled up one after the other.
proof fn lemma_fill_effect(
    fed: FederationModel,
    order: Seq<int>,
    heirs: Seq<Seq<char>>,
    units: int,
    k: nat,
)
    requires
        fed.wf(),
        units >= 0,
        k <= heirs.len(),
        order.len() == heirs.len(),
        order.no_duplicates(),
        forall|r: int|
            0 <= r < order.len() ==> 0 <= #[trigger] order[r] < fed.nodes.len() && heirs[r]
                == fed.keys[order[r]],
    ensures
        ({
            let (after, placed) = fed.fill(heirs, units, k);
            &&& forall|r: int|
                0 <= r < k ==> after.nodes[#[trigger] order[r]].allocated
                    == fed.nodes[order[r]].allocated + inherited(fed, order, units, r)
            &&& forall|r: int|
                k <= r < order.len() ==> after.nodes[#[trigger] order[r]] == fed.nodes[order[r]]
            &&& placed == (if units <= room_before(fed, order, k) {
                units
            } else {
                room_before(fed, order, k)
            })
        }),
        room_before(fed, order, k) >= 0,
    decreases k,
{
    let rooms = Seq::new(k, |q: int| fed.nodes[order[q]].available());
    if k > 0 {
        let m = (k - 1) as nat;
        lemma_fill_effect(fed, order, heirs, units, m);
        lemma_fill(fed, heirs, units, m);
        let (before, placed) = fed.fill(heirs, units, m);
        let after = fed.fill(heirs, units, k).0;
        let id = heirs[m as int];
        let i = order[m as int];
        lemma_place_of_key(before, i);
        lemma_deposit(before, id, units - placed);
        assert(before.nodes[i] == fed.nodes[i]);
        assert(rooms.drop_last() =~= Seq::new(m, |q: int| fed.nodes[order[q]].available()));
        assert forall|r: int| 0 <= r < k implies after.nodes[#[trigger] order[r]].allocated
            == fed.nodes[order[r]].allocated + inherited(fed, order, units, r) by {
            if r < m {
                assert(order[r] != i);
                assert(after.nodes[order[r]] == before.nodes[order[r]]);
            }
        }
        assert forall|r: int| k <= r < order.len() implies after.nodes[#[trigger] order[r]]
            == fed.nodes[order[r]] by {
            assert(order[r] != i);
            assert(after.nodes[order[r]] == before.nodes[order[r]]);
        }
    } else {
        assert(rooms =~= Seq::empty());
    }
}

/// The heirs are exactly the healthy nodes with another id, each once, those
/// with more available capacity before those with less.
pub proof fn law_heirs_most_available_first(fed: FederationModel, id: Seq<char>)
    ensures
        ({
            let order = ranked(fed.heir_scores(id));
            &&& order.len() == fed.heirs(id).len()
            &&& order.no_duplicates()
            &&& forall|i: int|
                #![trigger order.contains(i)]
                order.contains(i) <==> 0 <= i < fed.nodes.len() && fed.nodes[i].id != id
                    && fed.nodes[i].health.accepts_work()
            &&& forall|r: int|
                0 <= r < order.len() ==> 0 <= #[trigger] order[r] < fed.nodes.len() && fed.heirs(
                    id,
                )[r] == fed.nodes[order[r]].id
            &&& forall|r: int, s: int|
                0 <= r < s < order.len() ==> fed.nodes[#[trigger] order[r]].available()
                    >= fed.nodes[#[trigger] order[s]].available()
            &&& !fed.heirs(id).contains(id)
        }),
{
    let scores = fed.heir_scores(id);
    let order = ranked(scores);
    lemma_ranked(scores);
    assert forall|r: int| 0 <= r < order.len() implies 0 <= #[trigger] order[r] < fed.nodes.len()
        && scores[order[r]] is Some by {
        assert(order.contains(order[r]));
    }
    assert forall|r: int, s: int| 0 <= r < s < order.len() implies fed.nodes[
        #[trigger] order[r]
    ].available() >= fed.nodes[#[trigger] order[s]].available() by {
        assert(crate::ranking::no_later(scores)(order[r], order[s]));
    }
    if fed.heirs(id).contains(id) {
        let r = fed.heirs(id).index_of(id);
        assert(scores[order[r]] is Some);
    }
}

/// A degraded node is offline and holds no work; what else is known of it stays.
pub proof fn law_degraded_node_is_empty(fed: FederationModel, id: Seq<char>)
    requires
        fed.wf(),
        fed.has(id),
    ensures
        fed.degrade(id).0.get(id) == Some(
            NodeModel { health: Health::Offline, allocated: 0, ..fed.nodes[fed.place(id)] },
        ),
{
    let down = fed.take_down(id);
    let heirs = down.heirs(id);
    let i = fed.place(id);
    lemma_take_down(fed, id);
    law_heirs_most_available_first(down, id);
    lemma_fill(down, heirs, fed.nodes[i].allocated as int, heirs.len());
    assert(heirs.take(heirs.len() as int) =~= heirs);
    assert(fed.degrade(id).0.nodes[i] == down.nodes[i]);
}

/// Degrading moves work and creates none: of what the node held, the total loses
/// exactly what found no place. No other node changes in anything but its
/// allocation, none is taken over its capacity, and none loses work.
pub proof fn law_degrade_accounts(fed: FederationModel, id: Seq<char>)
    requires
        fed.wf(),
        fed.has(id),
    ensures
        ({
            let (after, moved) = fed.degrade(id);
            let held = fed.nodes[fed.place(id)].allocated;
            &&& after.wf()
            &&& 0 <= moved <= held
            &&& after.total_allocated() == fed.total_allocated() - held + moved
            &&& fed.take_down(id).reallocated(after)
            &&& forall|i: int|
                0 <= i < fed.nodes.len() && i != fed.place(id) ==> fed.nodes[i].allocated <= (
                #[trigger] after.nodes[i]).allocated
            &&& fed.grows_within_capacity(after)
            &&& fed.within_capacity() ==> after.within_capacity()
            &&& fed.filed_by_id() ==> after.filed_by_id()
        }),
{
    let down = fed.take_down(id);
    let heirs = down.heirs(id);
    let place = fed.place(id);
    let held = fed.nodes[place].allocated;
    lemma_take_down(fed, id);
    lemma_put_sums(fed, id, NodeModel { health: Health::Offline, allocated: 0, ..fed.nodes[place] });
    lemma_fill(down, heirs, held as int, heirs.len());
    let after = fed.degrade(id).0;
    assert forall|i: int| 0 <= i < fed.nodes.len() implies (fed.nodes[i].within_capacity()
        ==> (#[trigger] after.nodes[i]).within_capacity()) && (fed.nodes[i].id == fed.keys[i]
        ==> after.nodes[i].id == after.keys[i]) by {
        assert(after.nodes[i] == down.nodes[i].holding(after.nodes[i].allocated as int));
    }
    if fed.filed_by_id() {
        assert forall|i: int| 0 <= i < fed.nodes.len() implies (#[trigger] after.nodes[i]).id
            == after.keys[i] by {
            assert(fed.nodes[i].id == fed.keys[i]);
        }
    }
}

/// Degrading an id under which nothing is filed changes nothing.
pub proof fn law_degrade_unknown(fed: FederationModel, id: Seq<char>)
    requires
        !fed.has(id),
    ensures
        fed.degrade(id) == (fed, 0int),
{
}

/// In a federation that is filed by id, each heir takes what the heirs with more
/// available capacity leave over, every other node stays as it was when the node
/// went down, and all work is placed as long as there is spare capacity on
/// healthy nodes.
pub proof fn law_degrade_effect(fed: FederationModel, id: Seq<char>)
    requires
        fed.wf(),
        fed.filed_by_id(),
        fed.has(id),
    ensures
        ({
            let (after, moved) = fed.degrade(id);
            let held = fed.nodes[fed.place(id)].allocated as int;
            let down = fed.take_down(id);
            let order = ranked(down.heir_scores(id));
            &&& forall|r: int|
                0 <= r < order.len() ==> after.nodes[#[trigger] order[r]].allocated
                    == down.nodes[order[r]].allocated + inherited(down, order, held, r)
            &&& forall|i: int|
                0 <= i < fed.nodes.len() && !order.contains(i) ==> (#[trigger] after.nodes[i])
                    == down.nodes[i]
            &&& moved == (if held <= down.spare() {
                held
            } else {
                down.spare()
            })
            &&& after.spare() == down.spare() - moved
            &&& down.spare() >= 0
        }),
{
    let down = fed.take_down(id);
    let heirs = down.heirs(id);
    let order = ranked(down.heir_scores(id));
    let place = fed.place(id);
    let held = fed.nodes[place].allocated as int;
    lemma_take_down(fed, id);
    law_heirs_most_available_first(down, id);
    assert forall|i: int| 0 <= i < down.nodes.len() implies (#[trigger] down.nodes[i]).id
        == down.keys[i] by {
        assert(fed.nodes[i].id == fed.keys[i]);
    }
    assert forall|r: int| 0 <= r < order.len() implies 0 <= #[trigger] order[r] < down.nodes.len()
        && heirs[r] == down.keys[order[r]] && down.nodes[order[r]].health.accepts_work() by {
        assert(down.nodes[order[r]].id == down.keys[order[r]]);
        assert(order.contains(order[r]));
    }
    lemma_fill_effect(down, order, heirs, held, order.len());
    lemma_fill(down, heirs, held, heirs.len());
    let (after, moved) = fed.degrade(id);
    assert forall|i: int| 0 <= i < fed.nodes.len() && !order.contains(i) implies (
    #[trigger] after.nodes[i]) == down.nodes[i] by {
        assert(heirs.take(heirs.len() as int) =~= heirs);
        if heirs.contains(down.keys[i]) {
            let r = heirs.index_of(down.keys[i]);
            assert(down.keys[order[r]] == down.keys[i]);
            assert(order.contains(order[r]));
        }
    }
    let rooms = down.nodes.map_values(
        |n: NodeModel|
            if n.health.accepts_work() {
                n.available()
            } else {
                0
            },
    );
    assert forall|i: int| 0 <= i < rooms.len() && !order.contains(i) implies #[trigger] rooms[i]
        == 0 by {
        if down.nodes[i].id == id {
            assert(down.keys[i] == down.keys[place]);
        }
    }
    assert forall|r: int| 0 <= r < order.len() implies rooms[order[r]] == down.nodes[
        #[trigger] order[r]
    ].available() by {
        assert(down.nodes[order[r]].health.accepts_work());
    }
    lemma_sum_over_places(rooms, order);
    assert(Seq::new(order.len(), |r: int| rooms[order[r]]) =~= Seq::new(
        order.len(),
        |q: int| down.nodes[order[q]].available(),
    ));
    lemma_fill_spends_spare(down, order, heirs, held, order.len());
}

/// What is placed on healthy heirs is gone from the spare capacity.
proof fn lemma_fill_spends_spare(
    fed: FederationModel,
    order: Seq<int>,
    heirs: Seq<Seq<char>>,
    units: int,
    k: nat,
)
    requires
        fed.wf(),
        units >= 0,
        k <= heirs.len(),
        order.len() == heirs.len(),
        forall|r: int|
            0 <= r < order.len() ==> 0 <= #[trigger] order[r] < fed.nodes.len() && heirs[r]
                == fed.keys[order[r]] && fed.nodes[order[r]].health.accepts_work(),
    ensures
        fed.fill(heirs, units, k).0.spare() == fed.spare() - fed.fill(heirs, units, k).1,
    decreases k,
{
    if k > 0 {
        let m = (k - 1) as nat;
        lemma_fill_spends_spare(fed, order, heirs, units, m);
        lemma_fill(fed, heirs, units, m);
        let (before, placed) = fed.fill(heirs, units, m);
        let i = order[m as int];
        lemma_place_of_key(before, i);
        assert(before.nodes[i] == fed.nodes[i].holding(before.nodes[i].allocated as int));
        lemma_deposit_supplies(before, heirs[m as int], units - placed);
    }
}

/// In a federation that is filed by id, only healthy nodes take over work: nodes
/// that are not healthy stay as they are.
pub proof fn law_degrade_supplies_only_healthy(fed: FederationModel, id: Seq<char>, i: int)
    requires
        fed.wf(),
        fed.filed_by_id(),
        0 <= i < fed.nodes.len(),
        fed.keys[i] != id,
        !fed.nodes[i].health.accepts_work(),
    ensures
        fed.degrade(id).0.nodes[i] == fed.nodes[i],
{
    if fed.has(id) {
        law_degrade_effect(fed, id);
        law_heirs_most_available_first(fed.take_down(id), id);
        lemma_place_of_key(fed, i);
        assert(fed.take_down(id).nodes[i] == fed.nodes[i]);
    }
}

/// Heirs are filled up in their order: one takes work only when all before it
/// have no capacity left.
pub proof fn law_degrade_fills_in_order(fed: FederationModel, id: Seq<char>, r: int, s: int)
    requires
        fed.wf(),
        fed.filed_by_id(),
        fed.has(id),
        0 <= r < s < fed.take_down(id).heirs(id).len(),
        ({
            let order = ranked(fed.take_down(id).heir_scores(id));
            fed.degrade(id).0.nodes[order[s]] != fed.nodes[order[s]]
        }),
    ensures
        ({
            let order = ranked(fed.take_down(id).heir_scores(id));
            fed.degrade(id).0.nodes[order[r]].available() == 0
        }),
{
    let down = fed.take_down(id);
    let order = ranked(down.heir_scores(id));
    let held = fed.nodes[fed.place(id)].allocated as int;
    let after = fed.degrade(id).0;
    law_degrade_effect(fed, id);
    law_degrade_accounts(fed, id);
    law_heirs_most_available_first(down, id);
    lemma_take_down(fed, id);
    assert(order.contains(order[s]));
    assert(order.contains(order[r]));
    assert(order[s] != fed.place(id)) by {
        assert(down.nodes[fed.place(id)].health == Health::Offline);
    }
    assert(after.nodes[order[s]] == down.nodes[order[s]].holding(
        after.nodes[order[s]].allocated as int,
    ));
    assert(after.nodes[order[r]] == down.nodes[order[r]].holding(
        after.nodes[order[r]].allocated as int,
    ));
    assert(inherited(down, order, held, s) > 0);
    let rooms = |k: nat| Seq::new(k, |q: int| down.nodes[order[q]].available());
    lemma_rooms_monotone(down, order, (r + 1) as nat, s as nat);
    assert(rooms((r + 1) as nat).drop_last() =~= rooms(r as nat));
    assert(room_before(down, order, (r + 1) as nat) == room_before(down, order, r as nat)
        + down.nodes[order[r]].available());
}

proof fn lemma_rooms_monotone(fed: FederationModel, order: Seq<int>, k: nat, n: nat)
    requires
        k <= n,
    ensures
        room_before(fed, order, k) <= room_before(fed, order, n),
    decreases n,
{
    if k < n {
        let m = (n - 1) as nat;
        lemma_rooms_monotone(fed, order, k, m);
        let all = Seq::new(n, |q: int| fed.nodes[order[q]].available());
        assert(all.drop_last() =~= Seq::new(m, |q: int| fed.nodes[order[q]].available()));
    }
}

/// Healthy nodes with another id by falling available capacity, and by place
/// where it is equal, are the heirs in their order.
proof fn lemma_heirs_are(down: FederationModel, id: Seq<char>, order: Seq<int>)
    requires
        order.no_duplicates(),
        forall|i: int| #[trigger]
            order.contains(i) <==> 0 <= i < down.nodes.len() && down.nodes[i].id != id
                && down.nodes[i].health == Health::Healthy,
        forall|r: int, s: int|
            0 <= r < s < order.len() ==> {
                ||| down.nodes[#[trigger] order[r]].available() > down.nodes[
                    #[trigger] order[s]
                ].available()
                ||| down.nodes[order[r]].available() == down.nodes[order[s]].available() && order[r]
                    < order[s]
            },
    ensures
        ranked(down.heir_scores(id)) == order,
{
    let scores = down.heir_scores(id);
    lemma_ranked(scores);
    assert forall|p: int| #[trigger] order.contains(p) <==> 0 <= p < scores.len()
        && scores[p] is Some by {
    }
    assert forall|r: int, s: int| 0 <= r < s < order.len() implies #[trigger] crate::ranking::no_later(
        scores,
    )(order[r], order[s]) by {
        assert(order.contains(order[r]));
        assert(order.contains(order[s]));
    }
    assert(crate::ranking::is_ranking(order, scores));
}

/// Degrading goes step by step. First the node at place `p` goes offline and
/// loses its work. `order` lists the healthy nodes with an id other than the key
/// of that place, those with more available capacity first. For each of them in
/// turn, the node that is filed under its id takes of the work that is left what
/// it has room for. No step changes anything else. The result is what is no
/// longer left in the end.
pub proof fn law_degrade_step_by_step(fed: FederationModel, p: int, order: Seq<int>) -> (trace: (
    Seq<FederationModel>,
    Seq<int>,
))
    requires
        fed.wf(),
        0 <= p < fed.keys.len(),
        order.no_duplicates(),
        forall|i: int| #[trigger]
            order.contains(i) <==> 0 <= i < fed.nodes.len() && i != p && fed.nodes[i].id != fed.keys[p]
                && fed.nodes[i].health == Health::Healthy,
        forall|r: int, s: int|
            0 <= r < s < order.len() ==> {
                ||| fed.nodes[#[trigger] order[r]].available() > fed.nodes[
                    #[trigger] order[s]
                ].available()
                ||| fed.nodes[order[r]].available() == fed.nodes[order[s]].available() && order[r]
                    < order[s]
            },
    ensures
        ({
            let (steps, left) = trace;
            let held = fed.nodes[p].allocated as int;
            &&& steps.len() == order.len() + 1
            &&& left.len() == order.len() + 1
            &&& steps[0] == (FederationModel {
                nodes: fed.nodes.update(
                    p,
                    NodeModel { health: Health::Offline, allocated: 0, ..fed.nodes[p] },
                ),
                ..fed
            })
            &&& left[0] == held
            &&& forall|r: int, t: int|
                0 <= r < order.len() && 0 <= t < fed.keys.len() && #[trigger] fed.keys[t]
                    == fed.nodes[#[trigger] order[r]].id ==> {
                    let node = steps[r].nodes[t];
                    let room: int = if node.allocated <= node.capacity {
                        node.capacity - node.allocated
                    } else {
                        0
                    };
                    let fit: int = if left[r] <= room {
                        left[r]
                    } else {
                        room
                    };
                    &&& 0 <= left[r]
                    &&& node.allocated + fit <= u32::MAX
                    &&& steps[r + 1] == (FederationModel {
                        nodes: steps[r].nodes.update(
                            t,
                            NodeModel { allocated: (node.allocated + fit) as u32, ..node },
                        ),
                        ..steps[r]
                    })
                    &&& left[r + 1] == left[r] - fit
                }
            &&& forall|r: int|
                0 <= r < order.len() && !fed.keys.contains(fed.nodes[#[trigger] order[r]].id)
                    ==> steps[r + 1] == steps[r] && left[r + 1] == left[r]
            &&& fed.degrade(fed.keys[p]) == (steps.last(), held - left.last())
        }),
{
    let id = fed.keys[p];
    let down = fed.take_down(id);
    let held = fed.nodes[p].allocated as int;
    lemma_place_of_key(fed, p);
    lemma_take_down(fed, id);
    assert forall|i: int| 0 <= i < fed.nodes.len() && i != p implies (#[trigger] down.nodes[i])
        == fed.nodes[i] by {
    }
    assert forall|i: int| #[trigger] order.contains(i) <==> 0 <= i < down.nodes.len()
        && down.nodes[i].id != id && down.nodes[i].health == Health::Healthy by {
        if i == p {
            assert(down.nodes[p].health == Health::Offline);
        }
    }
    assert forall|r: int| 0 <= r < order.len() implies 0 <= #[trigger] order[r] < fed.nodes.len()
        && order[r] != p by {
        assert(order.contains(order[r]));
    }
    lemma_heirs_are(down, id, order);
    let ids = down.heirs(id);
    let steps = Seq::new(order.len() + 1, |k: int| down.fill(ids, held, k as nat).0);
    let left = Seq::new(order.len() + 1, |k: int| held - down.fill(ids, held, k as nat).1);
    assert forall|r: int| 0 <= r < order.len() implies #[trigger] ids[r] == fed.nodes[order[r]].id
        && steps[r].wf() && steps[r].keys == fed.keys && steps[r].nodes.len() == fed.nodes.len()
        && left[r] >= 0 && steps[r + 1] == steps[r].deposit(ids[r], left[r]) && left[r + 1]
        == left[r] - steps[r].room(ids[r], left[r]) by {
        lemma_fill(down, ids, held, r as nat);
        assert(down.nodes[order[r]] == fed.nodes[order[r]]);
    }
    assert forall|r: int, t: int|
        0 <= r < order.len() && 0 <= t < fed.keys.len() && #[trigger] fed.keys[t] == fed.nodes[
            #[trigger] order[r]
        ].id implies steps[r].has(ids[r]) && steps[r].place(ids[r]) == t by {
        assert(ids[r] == fed.nodes[order[r]].id);
        lemma_place_of_key(steps[r], t);
    }
    assert forall|r: int|
        0 <= r < order.len() && !fed.keys.contains(fed.nodes[#[trigger] order[r]].id) implies steps[r
        + 1] == steps[r] && left[r + 1] == left[r] by {
        assert(ids[r] == fed.nodes[order[r]].id);
    }
    (steps, left)
}

/// In a federation that is filed by id, the work of a degraded node fills up the
/// healthy nodes in the order of their available capacity, most first, as `order`
/// lists them: each takes what is left after the capacity available before it,
/// up to its own. The degraded node ends up offline and without work, nothing
/// else changes, and the result is what was taken in all: the smaller of the work
/// and the available capacity of the healthy nodes.
pub proof fn law_degrade_fills_the_most_available_first(
    fed: FederationModel,
    p: int,
    order: Seq<int>,
)
    requires
        fed.wf(),
        fed.filed_by_id(),
        0 <= p < fed.keys.len(),
        order.no_duplicates(),
        forall|i: int| #[trigger]
            order.contains(i) <==> 0 <= i < fed.nodes.len() && i != p
                && fed.nodes[i].health == Health::Healthy,
        forall|r: int, s: int|
            0 <= r < s < order.len() ==> {
                ||| fed.nodes[#[trigger] order[r]].available() > fed.nodes[
                    #[trigger] order[s]
                ].available()
                ||| fed.nodes[order[r]].available() == fed.nodes[order[s]].available() && order[r]
                    < order[s]
            },
    ensures
        ({
            let (after, moved) = fed.degrade(fed.keys[p]);
            let held = fed.nodes[p].allocated as int;
            let all = sum(Seq::new(order.len(), |s: int| fed.nodes[order[s]].available()));
            &&& after.keys == fed.keys
            &&& after.gossip_log == fed.gossip_log
            &&& after.overload_threshold == fed.overload_threshold
            &&& after.nodes.len() == fed.nodes.len()
            &&& after.nodes[p].health == Health::Offline
            &&& after.nodes[p].allocated == 0
            &&& forall|r: int|
                0 <= r < order.len() ==> {
                    let node = fed.nodes[#[trigger] order[r]];
                    let left = held - sum(
                        Seq::new(r as nat, |s: int| fed.nodes[order[s]].available()),
                    );
                    let room: int = if node.allocated <= node.capacity {
                        node.capacity - node.allocated
                    } else {
                        0
                    };
                    after.nodes[order[r]].allocated == node.allocated + (if left <= 0 {
                        0
                    } else if left <= room {
                        left
                    } else {
                        room
                    })
                }
            &&& forall|i: int|
                0 <= i < fed.nodes.len() ==> {
                    &&& (#[trigger] after.nodes[i]).id == fed.nodes[i].id
                    &&& after.nodes[i].capacity == fed.nodes[i].capacity
                    &&& after.nodes[i].latency_ms == fed.nodes[i].latency_ms
                    &&& i != p ==> after.nodes[i].health == fed.nodes[i].health
                    &&& i != p && !order.contains(i) ==> after.nodes[i].allocated
                        == fed.nodes[i].allocated
                }
            &&& moved == (if held <= all {
                held
            } else {
                all
            })
        }),
{
    let id = fed.keys[p];
    let down = fed.take_down(id);
    let (after, moved) = fed.degrade(id);
    let held = fed.nodes[p].allocated as int;
    lemma_place_of_key(fed, p);
    lemma_take_down(fed, id);
    assert forall|i: int| 0 <= i < fed.nodes.len() && i != p implies (#[trigger] down.nodes[i])
        == fed.nodes[i] && down.nodes[i].id != id && down.nodes[i].id == down.keys[i] by {
        assert(fed.nodes[i].id == fed.keys[i]);
    }
    assert forall|i: int| #[trigger] order.contains(i) <==> 0 <= i < down.nodes.len()
        && down.nodes[i].id != id && down.nodes[i].health == Health::Healthy by {
        if i == p {
            assert(down.nodes[p].health == Health::Offline);
        }
    }
    assert forall|r: int| 0 <= r < order.len() implies 0 <= #[trigger] order[r] < fed.nodes.len()
        && order[r] != p && down.nodes[order[r]] == fed.nodes[order[r]] by {
        assert(order.contains(order[r]));
    }
    lemma_heirs_are(down, id, order);
    law_degrade_effect(fed, id);
    law_degrade_accounts(fed, id);
    law_degraded_node_is_empty(fed, id);
    lemma_place_of_key(after, p);
    assert forall|i: int| 0 <= i < fed.nodes.len() implies (#[trigger] after.nodes[i])
        == down.nodes[i].holding(after.nodes[i].allocated as int) by {
    }
    assert forall|r: int| 0 <= r <= order.len() implies #[trigger] room_before(down, order, r as nat)
        == sum(Seq::new(r as nat, |s: int| fed.nodes[order[s]].available())) by {
        assert(Seq::new(r as nat, |s: int| down.nodes[order[s]].available()) =~= Seq::new(
            r as nat,
            |s: int| fed.nodes[order[s]].available(),
        ));
    }
    let heirs = down.heirs(id);
    assert forall|r: int| 0 <= r < order.len() implies 0 <= #[trigger] order[r] < down.nodes.len()
        && heirs[r] == down.keys[order[r]] by {
        assert(down.nodes[order[r]].id == down.keys[order[r]]);
    }
    lemma_fill_effect(down, order, heirs, held, order.len());
    assert(Seq::new(order.len(), |s: int| down.nodes[order[s]].available()) =~= Seq::new(
        order.len(),
        |s: int| fed.nodes[order[s]].available(),
    ));
}

/// In a federation that is filed by id, a healthy node takes over work of the
/// node at place `p` only if every healthy node that had more available capacity
/// has none left.
pub proof fn law_degrade_prefers_more_available(fed: FederationModel, p: int, i: int, j: int)
    requires
        fed.wf(),
        fed.filed_by_id(),
        0 <= p < fed.nodes.len(),
        0 <= i < fed.nodes.len(),
        0 <= j < fed.nodes.len(),
        j != p,
        fed.nodes[j].health == Health::Healthy,
        fed.nodes[j].available() > fed.nodes[i].available(),
        fed.degrade(fed.keys[p]).0.nodes[i].allocated > fed.nodes[i].allocated,
    ensures
        i != p,
        fed.nodes[i].health == Health::Healthy,
        fed.degrade(fed.keys[p]).0.nodes[j].allocated >= fed.nodes[j].capacity,
{
    let id = fed.keys[p];
    let down = fed.take_down(id);
    let order = ranked(down.heir_scores(id));
    let after = fed.degrade(id).0;
    lemma_place_of_key(fed, p);
    lemma_place_of_key(fed, i);
    lemma_place_of_key(fed, j);
    lemma_take_down(fed, id);
    law_degrade_effect(fed, id);
    law_degrade_accounts(fed, id);
    law_degraded_node_is_empty(fed, id);
    lemma_place_of_key(after, p);
    law_heirs_most_available_first(down, id);
    assert(fed.nodes[j].id == fed.keys[j]);
    assert(down.nodes[j] == fed.nodes[j]);
    assert(down.nodes[i] == fed.nodes[i]);
    assert(after.nodes[i] == down.nodes[i].holding(after.nodes[i].allocated as int));
    assert(after.nodes[j] == down.nodes[j].holding(after.nodes[j].allocated as int));
    assert(order.contains(i));
    assert(order.contains(j));
    let (r, s) = (order.index_of(j), order.index_of(i));
    assert(order[r] == j && order[s] == i);
    if s < r {
        assert(down.nodes[order[s]].available() >= down.nodes[order[r]].available());
    }
    law_degrade_fills_in_order(fed, id, r, s);
}

/// Degrading a node that is offline already takes its work and hands out of it
/// what fits; it changes no node's health.
proof fn lemma_degrade_offline(fed: FederationModel, i: int)
    requires
        fed.wf(),
        fed.filed_by_id(),
        0 <= i < fed.nodes.len(),
        fed.nodes[i].health == Health::Offline,
    ensures
        ({
            let (after, moved) = fed.degrade(fed.keys[i]);
            &&& after.wf()
            &&& after.filed_by_id()
            &&& fed.reallocated(after)
            &&& after.nodes[i].allocated == 0
            &&& forall|k: int|
                0 <= k < fed.nodes.len() && k != i && !fed.nodes[k].health.accepts_work() ==> (
                #[trigger] after.nodes[k]) == fed.nodes[k]
            &&& forall|k: int|
                0 <= k < fed.nodes.len() && k != i ==> fed.nodes[k].allocated <= (
                #[trigger] after.nodes[k]).allocated
            &&& moved == (if fed.nodes[i].allocated <= fed.spare() {
                fed.nodes[i].allocated as int
            } else {
                fed.spare()
            })
            &&& after.spare() == fed.spare() - moved
            &&& after.total_allocated() == fed.total_allocated() - fed.nodes[i].allocated + moved
            &&& fed.grows_within_capacity(after)
            &&& fed.within_capacity() ==> after.within_capacity()
            &&& fed.spare() >= 0
        }),
{
    let id = fed.keys[i];
    lemma_place_of_key(fed, i);
    law_degrade_effect(fed, id);
    law_degrade_accounts(fed, id);
    law_degraded_node_is_empty(fed, id);
    let down = fed.take_down(id);
    let after = fed.degrade(id).0;
    lemma_put_sums(fed, id, NodeModel { health: Health::Offline, allocated: 0, ..fed.nodes[i] });
    lemma_place_of_key(after, i);
    assert forall|k: int| 0 <= k < fed.nodes.len() implies (#[trigger] after.nodes[k])
        == fed.nodes[k].holding(after.nodes[k].allocated as int) by {
        assert(after.nodes[k] == down.nodes[k].holding(after.nodes[k].allocated as int));
    }
    assert forall|k: int|
        0 <= k < fed.nodes.len() && k != i && !fed.nodes[k].health.accepts_work() implies (
    #[trigger] after.nodes[k]) == fed.nodes[k] by {
        law_degrade_supplies_only_healthy(fed, id, k);
    }
}

/// The state after degrading the first `k` of the offline nodes at `found`.
proof fn lemma_degrade_offline_each(
    fed: FederationModel,
    found: Seq<int>,
    ids: Seq<Seq<char>>,
    k: nat,
)
    requires
        fed.wf(),
        fed.filed_by_id(),
        found.no_duplicates(),
        ids.len() == found.len(),
        k <= found.len(),
        forall|j: int|
            0 <= j < found.len() ==> 0 <= #[trigger] found[j] < fed.nodes.len()
                && fed.nodes[found[j]].health == Health::Offline && ids[j] == fed.keys[found[j]],
    ensures
        ({
            let (after, moved) = fed.degrade_each(ids, k);
            let work = sum(Seq::new(k, |j: int| fed.nodes[found[j]].allocated as int));
            &&& after.wf()
            &&& after.filed_by_id()
            &&& fed.reallocated(after)
            &&& forall|j: int| 0 <= j < k ==> after.nodes[#[trigger] found[j]].allocated == 0
            &&& forall|j: int|
                k <= j < found.len() ==> after.nodes[#[trigger] found[j]] == fed.nodes[found[j]]
            &&& forall|i: int|
                0 <= i < fed.nodes.len() && !found.contains(i)
                    && !fed.nodes[i].health.accepts_work() ==> (#[trigger] after.nodes[i])
                    == fed.nodes[i]
            &&& forall|i: int|
                0 <= i < fed.nodes.len() && fed.nodes[i].health.accepts_work()
                    ==> fed.nodes[i].allocated <= (#[trigger] after.nodes[i]).allocated
            &&& moved == (if work <= fed.spare() {
                work
            } else {
                fed.spare()
            })
            &&& after.spare() == fed.spare() - moved
            &&& after.total_allocated() == fed.total_allocated() - work + moved
            &&& fed.grows_within_capacity(after)
            &&& fed.within_capacity() ==> after.within_capacity()
            &&& work >= 0
            &&& fed.spare() >= 0
        }),
    decreases k,
{
    let works = Seq::new(k, |j: int| fed.nodes[found[j]].allocated as int);
    if k > 0 {
        let m = (k - 1) as nat;
        lemma_degrade_offline_each(fed, found, ids, m);
        let before = fed.degrade_each(ids, m).0;
        let after = fed.degrade_each(ids, k).0;
        let i = found[m as int];
        assert(before.nodes[i] == fed.nodes[i]);
        lemma_degrade_offline(before, i);
        assert(works.drop_last() =~= Seq::new(
            m,
            |j: int| fed.nodes[found[j]].allocated as int,
        ));
        assert forall|n: int| 0 <= n < fed.nodes.len() implies (#[trigger] after.nodes[n])
            == fed.nodes[n].holding(after.nodes[n].allocated as int) by {
            assert(before.nodes[n] == fed.nodes[n].holding(before.nodes[n].allocated as int));
            assert(after.nodes[n] == before.nodes[n].holding(after.nodes[n].allocated as int));
        }
        assert forall|j: int| 0 <= j < k implies after.nodes[#[trigger] found[j]].allocated
            == 0 by {
            if j < m {
                assert(found[j] != i);
                assert(before.nodes[found[j]] == fed.nodes[found[j]].holding(
                    before.nodes[found[j]].allocated as int,
                ));
                assert(after.nodes[found[j]] == before.nodes[found[j]]);
            }
        }
        assert forall|j: int| k <= j < found.len() implies after.nodes[#[trigger] found[j]]
            == fed.nodes[found[j]] by {
            assert(found[j] != i);
            assert(before.nodes[found[j]] == fed.nodes[found[j]]);
        }
        assert forall|n: int|
            0 <= n < fed.nodes.len() && !found.contains(n)
                && !fed.nodes[n].health.accepts_work() implies (#[trigger] after.nodes[n])
            == fed.nodes[n] by {
            assert(found.contains(i));
            assert(before.nodes[n] == fed.nodes[n]);
        }
        assert forall|n: int|
            0 <= n < fed.nodes.len() && fed.nodes[n].health.accepts_work() implies
            fed.nodes[n].allocated <= (#[trigger] after.nodes[n]).allocated by {
            assert(before.nodes[n].allocated >= fed.nodes[n].allocated);
        }
    } else {
        assert(works =~= Seq::empty());
        let rooms = fed.nodes.map_values(
            |n: NodeModel|
                if n.health.accepts_work() {
                    n.available()
                } else {
                    0
                },
        );
        lemma_sum_bounds(rooms);
    }
}

/// In a federation that is filed by id, graceful degradation leaves no work on
/// any offline node. Of the stranded work it places as much as healthy nodes
/// have spare capacity for; the total loses exactly the rest. No node changes in
/// anything but its allocation, nodes that are recovering do not change at all,
/// healthy nodes lose no work, and no node is taken over its capacity.
pub proof fn law_degradation_clears_offline_nodes(fed: FederationModel)
    requires
        fed.wf(),
        fed.filed_by_id(),
    ensures
        ({
            let (after, moved) = fed.degrade_stranded();
            &&& after.wf()
            &&& after.filed_by_id()
            &&& fed.reallocated(after)
            &&& forall|i: int|
                0 <= i < after.nodes.len() && (#[trigger] after.nodes[i]).health
                    == Health::Offline ==> after.nodes[i].allocated == 0
            &&& forall|i: int|
                0 <= i < fed.nodes.len() && fed.nodes[i].health == Health::Recovering ==> (
                #[trigger] after.nodes[i]) == fed.nodes[i]
            &&& forall|i: int|
                0 <= i < fed.nodes.len() && fed.nodes[i].health.accepts_work()
                    ==> fed.nodes[i].allocated <= (#[trigger] after.nodes[i]).allocated
            &&& moved == (if fed.stranded_work() <= fed.spare() {
                fed.stranded_work()
            } else {
                fed.spare()
            })
            &&& after.total_allocated() == fed.total_allocated() - fed.stranded_work() + moved
            &&& after.spare() == fed.spare() - moved
            &&& fed.grows_within_capacity(after)
            &&& fed.within_capacity() ==> after.within_capacity()
        }),
{
    let pred = |n: NodeModel| is_stranded(n);
    let found = lemma_filter_places(fed.nodes, pred);
    let ids = fed.stranded();
    assert forall|j: int| 0 <= j < found.len() implies 0 <= #[trigger] found[j] < fed.nodes.len()
        && fed.nodes[found[j]].health == Health::Offline && ids[j] == fed.keys[found[j]] by {
        assert(fed.nodes[found[j]].id == fed.keys[found[j]]);
    }
    lemma_degrade_offline_each(fed, found, ids, found.len());
    let after = fed.degrade_stranded().0;
    let works = fed.nodes.map_values(
        |n: NodeModel|
            if n.health == Health::Offline {
                n.allocated as int
            } else {
                0
            },
    );
    assert forall|i: int| 0 <= i < works.len() && !found.contains(i) implies #[trigger] works[i]
        == 0 by {
        assert(!pred(fed.nodes[i]));
    }
    lemma_sum_over_places(works, found);
    assert(Seq::new(found.len(), |j: int| works[found[j]]) =~= Seq::new(
        found.len(),
        |j: int| fed.nodes[found[j]].allocated as int,
    ));
    assert forall|i: int| 0 <= i < after.nodes.len() && (#[trigger] after.nodes[i]).health
        == Health::Offline implies after.nodes[i].allocated == 0 by {
        if found.contains(i) {
            let j = found.index_of(i);
            assert(found[j] == i);
        } else {
            assert(!pred(fed.nodes[i]));
            assert(after.nodes[i] == fed.nodes[i]);
        }
    }
    assert forall|i: int|
        0 <= i < fed.nodes.len() && fed.nodes[i].health == Health::Recovering implies (
    #[trigger] after.nodes[i]) == fed.nodes[i] by {
        if found.contains(i) {
            let j = found.index_of(i);
            assert(fed.nodes[found[j]].health == Health::Offline);
        }
    }
}

/// Where no offline node holds work, graceful degradation changes nothing and
/// moves nothing.
pub proof fn law_degradation_without_stranded_work(fed: FederationModel)
    requires
        forall|i: int|
            0 <= i < fed.nodes.len() && (#[trigger] fed.nodes[i]).health == Health::Offline
                ==> fed.nodes[i].allocated == 0,
    ensures
        fed.degrade_stranded() == (fed, 0int),
{
    let found = lemma_filter_places(fed.nodes, |n: NodeModel| is_stranded(n));
    if found.len() > 0 {
        assert(fed.nodes[found[0]].health == Health::Offline);
    }
}

/// Where a single offline node holds work, graceful degradation is degrading
/// that node: the same federation and the same count come out.
pub proof fn law_degradation_of_one_node(fed: FederationModel, p: int)
    requires
        0 <= p < fed.nodes.len(),
        fed.nodes[p].health == Health::Offline,
        fed.nodes[p].allocated > 0,
        forall|i: int|
            0 <= i < fed.nodes.len() && i != p && (#[trigger] fed.nodes[i]).health
                == Health::Offline ==> fed.nodes[i].allocated == 0,
    ensures
        fed.degrade_stranded() == fed.degrade(fed.nodes[p].id),
{
    let pred = |n: NodeModel| is_stranded(n);
    let found = lemma_filter_places(fed.nodes, pred);
    assert(pred(fed.nodes[p]));
    assert(found.contains(p));
    assert forall|k: int| 0 <= k < found.len() implies #[trigger] found[k] == p by {
        assert(fed.nodes[found[k]].health == Health::Offline);
    }
    assert(found.len() == 1) by {
        if found.len() > 1 {
            assert(found[0] != found[1]);
        }
    }
    assert(fed.stranded()[0] == fed.nodes[found[0]].id);
    reveal_with_fuel(FederationModel::degrade_each, 2);
}

/// Graceful degradation goes node by node: `found` are the places of the offline
/// nodes that hold work, in the order of the places; each is degraded by its id,
/// one after the other, and the counts add up to the result. In a federation that
/// is filed by id, at every step a node takes over work only if every healthy
/// node that had more available capacity before that step has none left after it.
pub proof fn law_degradation_node_by_node(fed: FederationModel) -> (trace: (
    Seq<int>,
    Seq<FederationModel>,
    Seq<int>,
))
    ensures
        ({
            let (found, steps, placed) = trace;
            &&& forall|i: int| #[trigger]
                found.contains(i) <==> 0 <= i < fed.nodes.len() && fed.nodes[i].health
                    == Health::Offline && fed.nodes[i].allocated > 0
            &&& forall|j: int, k: int|
                0 <= j < k < found.len() ==> #[trigger] found[j] < #[trigger] found[k]
            &&& steps.len() == found.len() + 1
            &&& placed.len() == found.len() + 1
            &&& steps[0] == fed
            &&& placed[0] == 0
            &&& forall|k: int|
                0 <= k < found.len() ==> {
                    let (after, moved) = steps[k].degrade(fed.nodes[#[trigger] found[k]].id);
                    steps[k + 1] == after && placed[k + 1] == placed[k] + moved
                }
            &&& fed.degrade_stranded() == (steps.last(), placed.last())
            &&& fed.wf() && fed.filed_by_id() ==> forall|k: int, i: int, j: int|
                #![trigger steps[k].nodes[i], steps[k].nodes[j]]
                {
                    &&& 0 <= k < found.len()
                    &&& 0 <= i < fed.nodes.len()
                    &&& 0 <= j < fed.nodes.len()
                    &&& fed.nodes[j].health == Health::Healthy
                    &&& steps[k + 1].nodes[i].allocated > steps[k].nodes[i].allocated
                    &&& steps[k].nodes[j].available() > steps[k].nodes[i].available()
                } ==> {
                    &&& fed.nodes[i].health == Health::Healthy
                    &&& steps[k + 1].nodes[j].allocated >= fed.nodes[j].capacity
                }
        }),
{
    let pred = |n: NodeModel| is_stranded(n);
    let found = lemma_filter_places(fed.nodes, pred);
    let ids = fed.stranded();
    let steps = Seq::new(found.len() + 1, |k: int| fed.degrade_each(ids, k as nat).0);
    let placed = Seq::new(found.len() + 1, |k: int| fed.degrade_each(ids, k as nat).1);
    assert forall|i: int| #[trigger] found.contains(i) <==> 0 <= i < fed.nodes.len()
        && fed.nodes[i].health == Health::Offline && fed.nodes[i].allocated > 0 by {
        if found.contains(i) {
            let k = found.index_of(i);
            assert(found[k] == i);
        }
        if 0 <= i < fed.nodes.len() && is_stranded(fed.nodes[i]) {
            assert(pred(fed.nodes[i]));
        }
    }
    assert(ids.len() == found.len());
    assert(fed.degrade_stranded() == (steps.last(), placed.last()));
    assert forall|k: int| 0 <= k < found.len() implies ids[k] == fed.nodes[#[trigger] found[k]].id
        && steps[k + 1] == steps[k].degrade(ids[k]).0 && placed[k + 1] == placed[k] + steps[k].degrade(
        ids[k],
    ).1 by {
    }
    if fed.wf() && fed.filed_by_id() {
        assert forall|k: int| 0 <= k < found.len() implies 0 <= #[trigger] found[k]
            < fed.nodes.len() && fed.nodes[found[k]].health == Health::Offline && ids[k]
            == fed.keys[found[k]] by {
            assert(found.contains(found[k]));
            assert(fed.nodes[found[k]].id == fed.keys[found[k]]);
        }
        assert forall|k: int, i: int, j: int|
            #![trigger steps[k].nodes[i], steps[k].nodes[j]]
            {
                &&& 0 <= k < found.len()
                &&& 0 <= i < fed.nodes.len()
                &&& 0 <= j < fed.nodes.len()
                &&& fed.nodes[j].health == Health::Healthy
                &&& steps[k + 1].nodes[i].allocated > steps[k].nodes[i].allocated
                &&& steps[k].nodes[j].available() > steps[k].nodes[i].available()
            } implies fed.nodes[i].health == Health::Healthy && steps[k + 1].nodes[j].allocated
            >= fed.nodes[j].capacity by {
            let before = steps[k];
            lemma_degrade_offline_each(fed, found, ids, k as nat);
            assert(before.nodes[i] == fed.nodes[i].holding(before.nodes[i].allocated as int));
            assert(before.nodes[j] == fed.nodes[j].holding(before.nodes[j].allocated as int));
            assert(before.keys[found[k]] == ids[k]);
            law_degrade_prefers_more_available(before, found[k], i, j);
        }
    }
    (found, steps, placed)
}

/// Degrading a node once more moves nothing and changes nothing.
pub proof fn law_degrade_idempotent(fed: FederationModel, id: Seq<char>)
    requires
        fed.wf(),
    ensures
        ({
            let after = fed.degrade(id).0;
            after.degrade(id) == (after, 0int)
        }),
{
    if fed.has(id) {
        let after = fed.degrade(id).0;
        lemma_degrade(fed, id);
        law_degraded_node_is_empty(fed, id);
        lemma_take_down(after, id);
        assert(after.take_down(id).nodes =~= after.nodes);
        lemma_fill_done(after, after.heirs(id), 0, 0, after.heirs(id).len());
    }
}

/// In a federation that is filed by id, graceful degradation takes no work from
/// a healthy node.
pub proof fn law_degradation_keeps_healthy_work(fed: FederationModel, i: int)
    requires
        fed.wf(),
        fed.filed_by_id(),
        0 <= i < fed.nodes.len(),
        fed.nodes[i].health.accepts_work(),
    ensures
        fed.degrade_stranded().0.nodes[i].health == fed.nodes[i].health,
        fed.nodes[i].allocated <= fed.degrade_stranded().0.nodes[i].allocated,
{
    law_degradation_clears_offline_nodes(fed);
    let after = fed.degrade_stranded().0;
    assert(after.nodes[i] == fed.nodes[i].holding(after.nodes[i].allocated as int));
}

/// Graceful degradation has nothing left to do after it was done.
pub proof fn law_degradation_idempotent(fed: FederationModel)
    requires
        fed.wf(),
        fed.filed_by_id(),
    ensures
        ({
            let after = fed.degrade_stranded().0;
            after.degrade_stranded() == (after, 0int)
        }),
{
    law_degradation_clears_offline_nodes(fed);
    let after = fed.degrade_stranded().0;
    let pred = |n: NodeModel| is_stranded(n);
    let found = lemma_filter_places(after.nodes, pred);
    if found.len() > 0 {
        assert(pred(after.nodes[found[0]]));
    }
}

impl FederationManager {
    /// Scores the nodes that can take over the work of the node `id`.
    fn score_heirs(&self, id: &String) -> (scores: Vec<Option<i64>>)
        ensures
            scores_view(scores@) == self@.heir_scores(id@),
    {
        let score = |node: &ClusterNode| -> (score: Option<i64>)
            ensures
                score_view(score) == heir_score(node@, id@),
            {
                if !(node.id == *id) && node.health.can_accept_work() {
                    let available: i64 = node.available() as i64;
                    Some(-available)
                } else {
                    None
                }
            };
        let scores = score_each(&self.nodes, score);
        assert(scores_view(scores@) =~= self@.heir_scores(id@));
        scores
    }

    /// Mark a node offline and redistribute its allocated work to
    /// remaining healthy nodes. Returns units redistributed.
    pub fn degrade_node(&mut self, node_id: &str) -> (redistributed: u32)
        requires
            old(self)@.wf(),
        ensures
            final(self)@.wf(),
            final(self)@ == old(self)@.degrade(node_id@).0,
            redistributed == old(self)@.degrade(node_id@).1,
            old(self)@.filed_by_id() ==> final(self)@.filed_by_id(),
    {
        let ghost before = self@;
        proof {
            if before.has(node_id@) {
                law_degrade_accounts(before, node_id@);
            }
        }
        let id: String = node_id.to_owned();
        let work: u32 = match self.find(&id) {
            Some(i) => {
                let work: u32 = self.nodes[i].allocated;
                self.nodes[i].health = Health::Offline;
                self.nodes[i].allocated = 0;
                assert(self@.nodes =~= before.take_down(id@).nodes);
                work
            },
            None => {
                return 0;
            },
        };
        let ghost down = before.take_down(id@);
        proof {
            lemma_take_down(before, id@);
            assert(self@ == down);
        }
        // Distribute to healthy nodes sorted by available capacity (most first).
        let scores = self.score_heirs(&id);
        let order = rank(&scores);
        let heirs = self.ids_at(&order);
        let ghost ids = keys_view(heirs@);
        assert(ids == down.heirs(id@));
        let mut remaining: u32 = work;
        let mut k: usize = 0;
        while k < heirs.len() && remaining > 0
            invariant
                k <= heirs@.len(),
                ids == keys_view(heirs@),
                down.wf(),
                self@.wf(),
                remaining <= work,
                self@ == down.fill(ids, work as int, k as nat).0,
                work - remaining == down.fill(ids, work as int, k as nat).1,
            decreases heirs.len() - k,
        {
            proof {
                lemma_fill(down, ids, work as int, (k + 1) as nat);
                assert(ids[k as int] == heirs@[k as int]@);
                lemma_deposit(self@, ids[k as int], remaining as int);
            }
            let fit: u32 = self.deposit(&heirs[k], remaining);
            remaining = remaining - fit;
            k = k + 1;
        }
        proof {
            if remaining == 0 {
                lemma_fill_done(down, ids, work as int, k as nat, ids.len());
            }
        }
        work - remaining
    }

    /// Graceful degradation: move all nodes with health == Offline to
    /// have zero allocation, redistributing their work.
    ///
    /// What is redistributed must be countable in 32 bits. By
    /// [`law_degradation_clears_offline_nodes`] it is the smaller of the
    /// stranded work and the spare capacity.
    pub fn graceful_degradation(&mut self) -> (redistributed: u32)
        requires
            old(self)@.wf(),
            old(self)@.degrade_stranded().1 <= u32::MAX,
        ensures
            final(self)@.wf(),
            final(self)@ == old(self)@.degrade_stranded().0,
            redistributed == old(self)@.degrade_stranded().1,
            old(self)@.filed_by_id() ==> final(self)@.filed_by_id(),
    {
        let ghost before = self@;
        proof {
            if before.filed_by_id() {
                law_degradation_clears_offline_nodes(before);
            }
        }
        let ghost pred = |n: NodeModel| is_stranded(n);
        let mut offline_ids: Vec<String> = Vec::new();
        let mut i: usize = 0;
        assert(keys_view(offline_ids@) =~= before.nodes.take(0).filter(pred).map_values(
            |n: NodeModel| n.id,
        )) by {
            reveal(Seq::filter);
        }
        while i < self.nodes.len()
            invariant
                i <= self.nodes.len(),
                self@ == before,
                pred == (|n: NodeModel| is_stranded(n)),
                keys_view(offline_ids@) == before.nodes.take(i as int).filter(pred).map_values(
                    |n: NodeModel| n.id,
                ),
            decreases self.nodes.len() - i,
        {
            let ghost so_far = keys_view(offline_ids@);
            let node = &self.nodes[i];
            assert(before.nodes[i as int] == node@);
            proof {
                lemma_filter_step(before.nodes, pred, i as int);
            }
            if node.health == Health::Offline && node.allocated > 0 {
                offline_ids.push(node.id.clone());
                assert(keys_view(offline_ids@) =~= so_far.push(node@.id));
                assert(before.nodes.take(i + 1).filter(pred).map_values(|n: NodeModel| n.id)
                    =~= so_far.push(node@.id));
            }
            i = i + 1;
        }
        let ghost ids = keys_view(offline_ids@);
        assert(before.nodes.take(i as int) =~= before.nodes);
        assert(ids == before.stranded());
        let mut total: u32 = 0;
        let mut k: usize = 0;
        while k < offline_ids.len()
            invariant
                k <= offline_ids@.len(),
                ids == keys_view(offline_ids@),
                before.wf(),
                self@.wf(),
                self@ == before.degrade_each(ids, k as nat).0,
                total == before.degrade_each(ids, k as nat).1,
                before.degrade_each(ids, ids.len()).1 <= u32::MAX,
            decreases offline_ids.len() - k,
        {
            proof {
                lemma_degrade_each(before, ids, (k + 1) as nat, ids.len());
                assert(ids[k as int] == offline_ids@[k as int]@);
            }
            let moved: u32 = self.degrade_node(offline_ids[k].as_str());
            total = total + moved;
            k = k + 1;
        }
        total
    }
}

} // verus!
