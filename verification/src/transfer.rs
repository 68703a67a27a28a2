//! Handing work to a node, up to the room it has.

use crate::manager::{FederationManager, FederationModel};
use crate::node::NodeModel;
use crate::sums::{lemma_sum_update, sum};
use vstd::prelude::*;

verus! {

impl FederationModel {
    /// How much of `units` the node filed under `id` has room for.
    pub open spec fn room(self, id: Seq<char>, units: int) -> int {
        match self.get(id) {
            Some(node) => if units <= node.available() {
                units
            } else {
                node.available()
            },
            None => 0,
        }
    }

    /// Hands `units` to the node filed under `id`, which takes what it has room
    /// for.
    pub open spec fn deposit(self, id: Seq<char>, units: int) -> FederationModel {
        match self.get(id) {
            Some(node) => self.put(id, node.holding(node.allocated + self.room(id, units))),
            None => self,
        }
    }

    /// All work that is allocated anywhere in the federation.
    pub open spec fn total_allocated(self) -> int {
        sum(self.nodes.map_values(|n: NodeModel| n.allocated as int))
    }

    /// All capacity that is available on healthy nodes.
    pub open spec fn spare(self) -> int {
        sum(
            self.nodes.map_values(
                |n: NodeModel|
                    if n.health.accepts_work() {
                        n.available()
                    } else {
                        0
                    },
            ),
        )
    }

    /// No node has more allocated than it has capacity.
    pub open spec fn within_capacity(self) -> bool {
        forall|i: int| 0 <= i < self.nodes.len() ==> (#[trigger] self.nodes[i]).within_capacity()
    }

    /// `after` differs from the federation in nothing but how much work the
    /// nodes hold.
    pub open spec fn reallocated(self, after: FederationModel) -> bool {
        &&& after.keys == self.keys
        &&& after.gossip_log == self.gossip_log
        &&& after.overload_threshold == self.overload_threshold
        &&& after.nodes.len() == self.nodes.len()
        &&& forall|i: int|
            0 <= i < self.nodes.len() ==> (#[trigger] after.nodes[i]) == self.nodes[i].holding(
                after.nodes[i].allocated as int,
            )
    }

    /// Each node that holds more work in `after` holds no more than its capacity
    /// there, whatever the other nodes hold.
    pub open spec fn grows_within_capacity(self, after: FederationModel) -> bool {
        forall|i: int|
            0 <= i < self.nodes.len() && self.nodes[i].allocated < (
            #[trigger] after.nodes[i]).allocated ==> after.nodes[i].within_capacity()
    }

    /// In `after`, nodes filed under one of `ids` may hold more work, up to
    /// their capacity; nothing else differs.
    pub open spec fn supplied(self, after: FederationModel, ids: Seq<Seq<char>>) -> bool {
        &&& self.reallocated(after)
        &&& forall|i: int|
            0 <= i < self.nodes.len() ==> {
                ||| (#[trigger] after.nodes[i]) == self.nodes[i]
                ||| self.nodes[i].allocated < after.nodes[i].allocated
                    <= self.nodes[i].capacity && ids.contains(self.keys[i])
            }
    }
}

/// The node at a place is filed under the key of that place and no other.
pub proof fn lemma_place_of_key(fed: FederationModel, i: int)
    requires
        fed.wf(),
        0 <= i < fed.nodes.len(),
    ensures
        fed.has(fed.keys[i]),
        fed.place(fed.keys[i]) == i,
{
    let j = fed.place(fed.keys[i]);
    assert(fed.keys.contains(fed.keys[i]));
    assert(fed.keys[j] == fed.keys[i]);
}

/// Putting another amount of work on one node changes the total by the
/// difference, and likewise the spare capacity.
pub proof fn lemma_put_sums(fed: FederationModel, id: Seq<char>, node: NodeModel)
    requires
        fed.wf(),
        fed.has(id),
    ensures
        fed.put(id, node).total_allocated() == fed.total_allocated() - fed.nodes[fed.place(
            id,
        )].allocated + node.allocated,
        fed.put(id, node).spare() == fed.spare() - (if fed.nodes[fed.place(
            id,
        )].health.accepts_work() {
            fed.nodes[fed.place(id)].available()
        } else {
            0
        }) + (if node.health.accepts_work() {
            node.available()
        } else {
            0
        }),
{
    let i = fed.place(id);
    assert(fed.keys[i] == id);
    let after = fed.put(id, node);
    let work = |n: NodeModel| n.allocated as int;
    let room = |n: NodeModel|
        if n.health.accepts_work() {
            n.available()
        } else {
            0
        };
    assert(after.nodes.map_values(work) =~= fed.nodes.map_values(work).update(i, work(node)));
    assert(after.nodes.map_values(room) =~= fed.nodes.map_values(room).update(i, room(node)));
    lemma_sum_update(fed.nodes.map_values(work), i, work(node));
    lemma_sum_update(fed.nodes.map_values(room), i, room(node));
}

/// A deposit supplies the one node it goes to, moves the total up by what was
/// taken and, on a healthy node, the spare capacity down by it.
pub proof fn lemma_deposit_supplies(fed: FederationModel, id: Seq<char>, units: int)
    requires
        fed.wf(),
        units >= 0,
    ensures
        fed.supplied(fed.deposit(id, units), seq![id]),
        fed.deposit(id, units).total_allocated() == fed.total_allocated() + fed.room(id, units),
        fed.deposit(id, units).spare() == fed.spare() - (if fed.has(id)
            && fed.nodes[fed.place(id)].health.accepts_work() {
            fed.room(id, units)
        } else {
            0
        }),
{
    lemma_deposit(fed, id, units);
    let after = fed.deposit(id, units);
    assert(seq![id][0] == id);
    if fed.has(id) {
        let i = fed.place(id);
        let node = fed.nodes[i].holding(fed.nodes[i].allocated + fed.room(id, units));
        lemma_put_sums(fed, id, node);
        assert forall|k: int| 0 <= k < fed.nodes.len() implies (#[trigger] after.nodes[k])
            == fed.nodes[k].holding(after.nodes[k].allocated as int) && (after.nodes[k]
            == fed.nodes[k] || (fed.nodes[k].allocated < after.nodes[k].allocated
            <= fed.nodes[k].capacity && seq![id].contains(fed.keys[k]))) by {
            if k != i {
                assert(after.nodes[k] == fed.nodes[k]);
            }
        }
    } else {
        assert(after == fed);
    }
}

/// Supplying in two steps supplies.
pub proof fn lemma_supplied_twice(
    a: FederationModel,
    b: FederationModel,
    c: FederationModel,
    ids: Seq<Seq<char>>,
    more: Seq<Seq<char>>,
)
    requires
        a.wf(),
        a.supplied(b, ids),
        b.supplied(c, more),
    ensures
        a.supplied(c, ids + more),
{
    let both = ids + more;
    assert forall|i: int| 0 <= i < a.nodes.len() implies (#[trigger] c.nodes[i])
        == a.nodes[i].holding(c.nodes[i].allocated as int) && (c.nodes[i] == a.nodes[i] || (
    a.nodes[i].allocated < c.nodes[i].allocated <= a.nodes[i].capacity && both.contains(
        a.keys[i],
    ))) by {
        assert(b.nodes[i] == a.nodes[i].holding(b.nodes[i].allocated as int));
        if ids.contains(a.keys[i]) {
            let k = ids.index_of(a.keys[i]);
            assert(both[k] == a.keys[i]);
        }
        if more.contains(a.keys[i]) {
            let k = more.index_of(a.keys[i]);
            assert(both[ids.len() + k] == a.keys[i]);
        }
    }
}

/// A deposit adds what fits to one node and touches nothing else.
pub proof fn lemma_deposit(fed: FederationModel, id: Seq<char>, units: int)
    requires
        fed.wf(),
        units >= 0,
    ensures
        fed.deposit(id, units).wf(),
        fed.deposit(id, units).keys == fed.keys,
        fed.deposit(id, units).nodes.len() == fed.nodes.len(),
        fed.deposit(id, units).gossip_log == fed.gossip_log,
        fed.deposit(id, units).overload_threshold == fed.overload_threshold,
        0 <= fed.room(id, units) <= units,
        fed.has(id) ==> 0 <= fed.place(id) < fed.nodes.len(),
        forall|i: int|
            0 <= i < fed.nodes.len() && !(fed.has(id) && i == fed.place(id)) ==> #[trigger] fed.deposit(
                id,
                units,
            ).nodes[i] == fed.nodes[i],
        fed.has(id) ==> fed.deposit(id, units).nodes[fed.place(id)]
            == fed.nodes[fed.place(id)].holding(
            fed.nodes[fed.place(id)].allocated + fed.room(id, units),
        ),
        fed.has(id) ==> fed.nodes[fed.place(id)].allocated + fed.room(id, units) <= u32::MAX,
{
    if fed.has(id) {
        let i = fed.place(id);
        assert(fed.keys[i] == id);
    }
}

impl FederationManager {
    /// Hands `units` to the node filed under `id`; returns what it took.
    pub(crate) fn deposit(&mut self, id: &String, units: u32) -> (taken: u32)
        requires
            old(self)@.wf(),
        ensures
            final(self)@.wf(),
            final(self)@ == old(self)@.deposit(id@, units as int),
            taken == old(self)@.room(id@, units as int),
    {
        let ghost before = self@;
        match self.find(id) {
            Some(i) => {
                let room: u32 = self.nodes[i].available();
                let fit: u32 = if units <= room {
                    units
                } else {
                    room
                };
                self.nodes[i].allocate(fit);
                assert(self@.nodes =~= before.deposit(id@, units as int).nodes);
                fit
            },
            None => 0,
        }
    }
}

} // verus!
