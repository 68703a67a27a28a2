//! Quorum votes.

use crate::health::Health;
use crate::manager::{count_in, lemma_count_step, FederationManager, FederationModel};
use crate::node::NodeModel;
use vstd::prelude::*;

verus! {

/// Result of a quorum vote.
#[derive(Debug, PartialEq, Eq, Structural)]
pub enum QuorumResult {
    /// Quorum reached with the given count of +1 (healthy) votes.
    Approved { healthy_votes: usize, total_voters: usize },
    /// Quorum not reached.
    Rejected { healthy_votes: usize, total_voters: usize },
    /// Not enough voters to form a quorum.
    InsufficientVoters { total: usize },
}

impl Clone for QuorumResult {
    fn clone(&self) -> (copy: Self)
        ensures
            copy == *self,
    {
        match self {
            QuorumResult::Approved { healthy_votes, total_voters } => QuorumResult::Approved {
                healthy_votes: *healthy_votes,
                total_voters: *total_voters,
            },
            QuorumResult::Rejected { healthy_votes, total_voters } => QuorumResult::Rejected {
                healthy_votes: *healthy_votes,
                total_voters: *total_voters,
            },
            QuorumResult::InsufficientVoters { total } => QuorumResult::InsufficientVoters {
                total: *total,
            },
        }
    }
}

impl FederationModel {
    /// The number of nodes that vote: those that are not offline.
    pub open spec fn voters(self) -> int {
        self.nodes.len() - self.count(Health::Offline)
    }

    /// The vote: a strict majority of the voters must be healthy.
    pub open spec fn quorum(self) -> QuorumResult {
        let healthy_votes = self.count(Health::Healthy) as usize;
        let total_voters = self.voters() as usize;
        if self.voters() == 0 {
            QuorumResult::InsufficientVoters { total: self.nodes.len() as usize }
        } else if 2 * self.count(Health::Healthy) > self.voters() {
            QuorumResult::Approved { healthy_votes, total_voters }
        } else {
            QuorumResult::Rejected { healthy_votes, total_voters }
        }
    }
}

/// Every node is in exactly one state: the counts add up to the number of nodes.
pub proof fn law_counts_add_up(fed: FederationModel)
    ensures
        fed.count(Health::Healthy) + fed.count(Health::Recovering) + fed.count(Health::Offline)
            == fed.nodes.len(),
        fed.voters() == fed.count(Health::Healthy) + fed.count(Health::Recovering),
{
    lemma_counts_add_up(fed.nodes, fed.nodes.len());
    assert(fed.nodes.take(fed.nodes.len() as int) =~= fed.nodes);
}

proof fn lemma_counts_add_up(nodes: Seq<NodeModel>, k: nat)
    requires
        k <= nodes.len(),
    ensures
        count_in(nodes.take(k as int), Health::Healthy) + count_in(
            nodes.take(k as int),
            Health::Recovering,
        ) + count_in(nodes.take(k as int), Health::Offline) == k,
    decreases k,
{
    if k == 0 {
        reveal(Seq::filter);
    } else {
        lemma_counts_add_up(nodes, (k - 1) as nat);
        lemma_count_step(nodes, Health::Healthy, k - 1);
        lemma_count_step(nodes, Health::Recovering, k - 1);
        lemma_count_step(nodes, Health::Offline, k - 1);
    }
}

/// The vote is approved exactly when healthy nodes outnumber recovering ones, and
/// cannot be held exactly when every node is offline.
pub proof fn law_quorum_is_a_majority(fed: FederationModel)
    ensures
        fed.quorum() is Approved <==> fed.count(Health::Healthy) > fed.count(Health::Recovering),
        fed.quorum() is InsufficientVoters <==> fed.count(Health::Offline) == fed.nodes.len(),
        fed.quorum() is Rejected <==> 0 < fed.count(Health::Recovering) && fed.count(
            Health::Healthy,
        ) <= fed.count(Health::Recovering),
{
    law_counts_add_up(fed);
}

/// Whatever is decided, the tallies are true: the healthy votes are the number
/// of healthy nodes, the voters the nodes that are not offline. Approval takes
/// more than half of the voters, refusal at least one voter and no such
/// majority; without a voter, the total is the number of nodes.
pub proof fn law_quorum_tallies(fed: FederationModel)
    requires
        fed.nodes.len() <= usize::MAX,
    ensures
        ({
            let healthy = fed.nodes.filter(|n: NodeModel| n.health == Health::Healthy).len();
            let offline = fed.nodes.filter(|n: NodeModel| n.health == Health::Offline).len();
            match fed.quorum() {
                QuorumResult::Approved { healthy_votes, total_voters } => {
                    &&& healthy_votes == healthy
                    &&& total_voters == fed.nodes.len() - offline
                    &&& 2 * healthy > fed.nodes.len() - offline
                },
                QuorumResult::Rejected { healthy_votes, total_voters } => {
                    &&& healthy_votes == healthy
                    &&& total_voters == fed.nodes.len() - offline
                    &&& 2 * healthy <= fed.nodes.len() - offline
                    &&& offline < fed.nodes.len()
                },
                QuorumResult::InsufficientVoters { total } => {
                    &&& total == fed.nodes.len()
                    &&& offline == fed.nodes.len()
                },
            }
        }),
{
    law_counts_add_up(fed);
}

/// Offline nodes have no vote: as long as anyone votes, registering a further
/// offline node leaves the decision as it is.
pub proof fn law_offline_nodes_do_not_vote(fed: FederationModel, id: Seq<char>, node: NodeModel)
    requires
        fed.wf(),
        !fed.has(id),
        node.health == Health::Offline,
        fed.voters() > 0,
    ensures
        fed.put(id, node).quorum() == fed.quorum(),
{
    let more = fed.put(id, node);
    let n = fed.nodes.len() as int;
    assert(more.nodes.take(n) =~= fed.nodes);
    assert(more.nodes.take(n + 1) =~= more.nodes);
    lemma_count_step(more.nodes, Health::Healthy, n);
    lemma_count_step(more.nodes, Health::Offline, n);
}

impl FederationManager {
    /// Run a quorum decision: requires majority of +1 (healthy) votes
    /// among non-offline nodes.
    pub fn quorum_decision(&self) -> (decision: QuorumResult)
        requires
            self@.wf(),
        ensures
            decision == self@.quorum(),
            ({
                let healthy = self@.nodes.filter(|n: NodeModel| n.health == Health::Healthy).len();
                let offline = self@.nodes.filter(|n: NodeModel| n.health == Health::Offline).len();
                match decision {
                    QuorumResult::Approved { healthy_votes, total_voters } => {
                        &&& healthy_votes == healthy
                        &&& total_voters == self@.nodes.len() - offline
                        &&& 2 * healthy > self@.nodes.len() - offline
                    },
                    QuorumResult::Rejected { healthy_votes, total_voters } => {
                        &&& healthy_votes == healthy
                        &&& total_voters == self@.nodes.len() - offline
                        &&& 2 * healthy <= self@.nodes.len() - offline
                        &&& offline < self@.nodes.len()
                    },
                    QuorumResult::InsufficientVoters { total } => {
                        &&& total == self@.nodes.len()
                        &&& offline == self@.nodes.len()
                    },
                }
            }),
    {
        let total: usize = self.nodes.len();
        if total == 0 {
            proof {
                law_counts_add_up(self@);
            }
            return QuorumResult::InsufficientVoters { total: 0 };
        }
        let (healthy_votes, _, offline): (usize, usize, usize) = self.health_counts();
        proof {
            law_counts_add_up(self@);
        }
        let active: usize = total - offline;
        if active == 0 {
            return QuorumResult::InsufficientVoters { total };
        }
        // Majority of active nodes must be healthy.
        let needed: usize = active / 2 + 1;
        if healthy_votes >= needed {
            QuorumResult::Approved { healthy_votes, total_voters: active }
        } else {
            QuorumResult::Rejected { healthy_votes, total_voters: active }
        }
    }
}

} // verus!
