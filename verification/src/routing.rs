//! Routing of new work to the least utilized node.

use crate::health::Health;
use crate::manager::{FederationManager, FederationModel};
use crate::node::{ClusterNode, NodeModel};
use crate::ranking::{find_lowest, lemma_extremes, lowest, score_each, score_view, scores_view};
use crate::transfer::{lemma_place_of_key, lemma_put_sums};
use vstd::prelude::*;

verus! {

/// The utilization of a node that can take `units` of new work: one that is
/// healthy and has that much available.
pub open spec fn route_score(node: NodeModel, units: u32) -> Option<int> {
    if node.health.accepts_work() && node.available() >= units {
        Some(node.utilization().bits as int)
    } else {
        None
    }
}

impl FederationModel {
    /// Scores the nodes that can take `units` of new work by their utilization:
    /// those that are healthy and have that much available.
    pub open spec fn route_scores(self, units: u32) -> Seq<Option<int>> {
        self.nodes.map_values(|n: NodeModel| route_score(n, units))
    }

    /// The place of the least utilized node that can take `units` of new work.
    pub open spec fn best_place(self, units: u32) -> Option<int> {
        lowest(self.route_scores(units))
    }

    /// Allocates `units` on the best node; gives the federation after that and
    /// the id of the node.
    pub open spec fn route(self, units: u32) -> (FederationModel, Option<Seq<char>>) {
        match self.best_place(units) {
            Some(place) => {
                let id = self.nodes[place].id;
                let fed = match self.get(id) {
                    Some(node) => self.put(id, node.allocate(units)),
                    None => self,
                };
                (fed, Some(id))
            },
            None => (self, None),
        }
    }
}

/// The chosen node is healthy, has the capacity available, and no other such
/// node is less utilized; one is chosen as soon as any healthy node has the
/// capacity available.
pub proof fn law_best_is_least_utilized(fed: FederationModel, units: u32)
    ensures
        fed.best_place(units) is None <==> forall|i: int|
            0 <= i < fed.nodes.len() ==> !((#[trigger] fed.nodes[i]).health.accepts_work()
                && fed.nodes[i].available() >= units),
        fed.best_place(units) matches Some(b) ==> {
            &&& 0 <= b < fed.nodes.len()
            &&& fed.nodes[b].health.accepts_work()
            &&& fed.nodes[b].available() >= units
            &&& forall|i: int|
                0 <= i < fed.nodes.len() && (#[trigger] fed.nodes[i]).health.accepts_work()
                    && fed.nodes[i].available() >= units ==> fed.nodes[b].utilization().bits
                    <= fed.nodes[i].utilization().bits
        },
        fed.route(units).1 is None <==> fed.best_place(units) is None,
{
    let scores = fed.route_scores(units);
    lemma_extremes(scores);
    assert forall|i: int| 0 <= i < fed.nodes.len() implies ((#[trigger] fed.nodes[i]
    ).health.accepts_work() && fed.nodes[i].available() >= units <==> scores[i] is Some) by {
    }
}

/// Work that no node can take is routed nowhere and changes nothing.
pub proof fn law_unroutable_work_changes_nothing(fed: FederationModel, units: u32)
    requires
        fed.best_place(units) is None,
    ensures
        fed.route(units) == (fed, None::<Seq<char>>),
{
}

/// Work that fits on no healthy node is routed nowhere: no id is given, and
/// nothing changes.
pub proof fn law_work_that_fits_nowhere_stays_out(fed: FederationModel, units: u32)
    requires
        forall|i: int|
            0 <= i < fed.nodes.len() && (#[trigger] fed.nodes[i]).health == Health::Healthy
                ==> units > 0 && fed.nodes[i].allocated + units > fed.nodes[i].capacity,
    ensures
        fed.route(units) == (fed, None::<Seq<char>>),
{
    law_best_is_least_utilized(fed, units);
    if let Some(b) = fed.best_place(units) {
        assert(fed.nodes[b].health == Health::Healthy);
    }
}

/// Of the healthy nodes on which the work fits, the least utilized is chosen, the
/// first of several that are equally utilized. The node that is filed under its
/// id takes all of the work, if it fits there, and nothing else changes. In a
/// federation that is filed by id, that is the chosen node.
pub proof fn law_route_goes_to_the_least_utilized(fed: FederationModel, units: u32, b: int)
    requires
        fed.wf(),
        0 <= b < fed.nodes.len(),
        fed.nodes[b].health == Health::Healthy,
        units == 0 || fed.nodes[b].allocated + units <= fed.nodes[b].capacity,
        forall|i: int|
            0 <= i < fed.nodes.len() && (#[trigger] fed.nodes[i]).health == Health::Healthy && (units
                == 0 || fed.nodes[i].allocated + units <= fed.nodes[i].capacity) ==> {
                ||| fed.nodes[b].utilization().bits < fed.nodes[i].utilization().bits
                ||| fed.nodes[b].utilization().bits == fed.nodes[i].utilization().bits && b <= i
            },
    ensures
        fed.route(units).1 == Some(fed.nodes[b].id),
        !fed.keys.contains(fed.nodes[b].id) ==> fed.route(units).0 == fed,
        forall|p: int|
            0 <= p < fed.keys.len() && #[trigger] fed.keys[p] == fed.nodes[b].id ==> ({
                let after = fed.route(units).0;
                let node = fed.nodes[p];
                let taken: int = if node.allocated + units <= node.capacity {
                    units as int
                } else {
                    0
                };
                &&& after.keys == fed.keys
                &&& after.gossip_log == fed.gossip_log
                &&& after.overload_threshold == fed.overload_threshold
                &&& after.nodes == fed.nodes.update(p, after.nodes[p])
                &&& after.nodes[p].allocated == node.allocated + taken
                &&& after.nodes[p].id == node.id
                &&& after.nodes[p].health == node.health
                &&& after.nodes[p].capacity == node.capacity
                &&& after.nodes[p].latency_ms == node.latency_ms
            }),
        fed.filed_by_id() ==> fed.keys[b] == fed.nodes[b].id,
{
    let scores = fed.route_scores(units);
    lemma_extremes(scores);
    assert(scores[b] is Some);
    let best = fed.best_place(units)->0;
    assert(crate::ranking::no_later(scores)(best, b));
    assert(fed.nodes[best].health == Health::Healthy);
    assert(best == b);
    assert forall|p: int|
        0 <= p < fed.keys.len() && #[trigger] fed.keys[p] == fed.nodes[b].id implies fed.route(
        units,
    ).0 == fed.put(fed.keys[p], fed.nodes[p].allocate(units)) && fed.place(fed.keys[p]) == p
        && fed.has(fed.keys[p]) && fed.route(units).0.nodes =~= fed.nodes.update(
        p,
        fed.route(units).0.nodes[p],
    ) by {
        lemma_place_of_key(fed, p);
    }
}

/// In a federation that is filed by id, routed work arrives in full on the
/// chosen node and nowhere else, and takes no node over its capacity.
pub proof fn law_routed_work_arrives(fed: FederationModel, units: u32, b: int)
    requires
        fed.wf(),
        fed.filed_by_id(),
        fed.best_place(units) == Some(b),
    ensures
        ({
            let (after, chosen) = fed.route(units);
            &&& after.wf()
            &&& after.filed_by_id()
            &&& chosen == Some(fed.keys[b])
            &&& fed.reallocated(after)
            &&& after.nodes[b].allocated == fed.nodes[b].allocated + units
            &&& forall|i: int|
                0 <= i < fed.nodes.len() && i != b ==> (#[trigger] after.nodes[i]) == fed.nodes[i]
            &&& after.total_allocated() == fed.total_allocated() + units
            &&& fed.grows_within_capacity(after)
            &&& fed.within_capacity() ==> after.within_capacity()
        }),
{
    law_best_is_least_utilized(fed, units);
    lemma_place_of_key(fed, b);
    assert(fed.nodes[b].id == fed.keys[b]);
    lemma_put_sums(fed, fed.keys[b], fed.nodes[b].allocate(units));
    let after = fed.route(units).0;
    assert forall|i: int| 0 <= i < fed.nodes.len() implies (#[trigger] after.nodes[i])
        == fed.nodes[i].holding(after.nodes[i].allocated as int) && after.nodes[i].id
        == after.keys[i] by {
        assert(fed.nodes[i].id == fed.keys[i]);
    }
    assert forall|i: int|
        0 <= i < fed.nodes.len() && fed.within_capacity() implies (
    #[trigger] after.nodes[i]).within_capacity() by {
        assert(fed.nodes[i].within_capacity());
    }
}

impl FederationManager {
    /// Scores the nodes that can take `units` of new work.
    fn score_routes(&self, units: u32) -> (scores: Vec<Option<i64>>)
        ensures
            scores_view(scores@) == self@.route_scores(units),
    {
        let score = |node: &ClusterNode| -> (score: Option<i64>)
            ensures
                score_view(score) == route_score(node@, units),
            {
                if node.health.can_accept_work() && node.available() >= units {
                    Some(node.utilization().to_bits() as i64)
                } else {
                    None
                }
            };
        let scores = score_each(&self.nodes, score);
        assert(scores_view(scores@) =~= self@.route_scores(units));
        scores
    }

    /// Route `units` of work to the best available node (lowest utilization
    /// among healthy nodes). Returns the node id chosen, or None.
    pub fn route_work(&mut self, units: u32) -> (chosen: Option<String>)
        requires
            old(self)@.wf(),
        ensures
            final(self)@.wf(),
            final(self)@ == old(self)@.route(units).0,
            chosen is Some <==> old(self)@.route(units).1 is Some,
            chosen matches Some(id) ==> old(self)@.route(units).1 == Some(id@),
            old(self)@.filed_by_id() ==> final(self)@.filed_by_id(),
    {
        let ghost before = self@;
        proof {
            if before.filed_by_id() {
                if let Some(place) = before.best_place(units) {
                    law_routed_work_arrives(before, units, place);
                }
            }
        }
        let scores = self.score_routes(units);
        let best_id: String = match find_lowest(&scores) {
            Some(place) => self.nodes[place].id.clone(),
            None => {
                return None;
            },
        };
        if let Some(i) = self.find(&best_id) {
            self.nodes[i].allocate(units);
            assert(self@.nodes =~= before.route(units).0.nodes);
        }
        Some(best_id)
    }
}

} // verus!
