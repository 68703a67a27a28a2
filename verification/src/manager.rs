//! The federation manager and its registry of nodes.

use crate::binary64::Binary64;
use crate::gossip::{GossipMessage, MessageModel};
use crate::health::Health;
use crate::lists::lemma_filter_step;
use crate::node::{ClusterNode, NodeModel};
use vstd::prelude::*;
use vstd::std_specs::iter::IteratorSpec;

verus! {

/// The federation manager tracks cluster state and routes work.
///
/// Nodes are filed under the ids they were registered with and are walked in
/// the order of registration.
#[derive(Debug)]
pub struct FederationManager {
    pub(crate) keys: Vec<String>,
    pub(crate) nodes: Vec<ClusterNode>,
    pub(crate) gossip_log: Vec<GossipMessage>,
    pub(crate) overload_threshold: Binary64,
}

/// What a [`FederationManager`] holds: `nodes[i]` is filed under `keys[i]`.
pub struct FederationModel {
    pub keys: Seq<Seq<char>>,
    pub nodes: Seq<NodeModel>,
    pub gossip_log: Seq<MessageModel>,
    pub overload_threshold: Binary64,
}

impl FederationModel {
    /// Every key files one node, and no key occurs twice.
    pub open spec fn wf(self) -> bool {
        &&& self.keys.len() == self.nodes.len()
        &&& self.keys.no_duplicates()
    }

    /// Every node is filed under its own id. Registration sees to that; only a
    /// caller who rewrites an id through [`FederationManager::get_node_mut`]
    /// can change it.
    pub open spec fn filed_by_id(self) -> bool {
        forall|i: int| 0 <= i < self.nodes.len() ==> (#[trigger] self.nodes[i]).id == self.keys[i]
    }

    /// Whether a node is filed under `id`.
    pub open spec fn has(self, id: Seq<char>) -> bool {
        self.keys.contains(id)
    }

    /// The place of the node that is filed under `id`.
    pub open spec fn place(self, id: Seq<char>) -> int {
        self.keys.index_of(id)
    }

    /// The node that is filed under `id`.
    pub open spec fn get(self, id: Seq<char>) -> Option<NodeModel> {
        if self.has(id) {
            Some(self.nodes[self.place(id)])
        } else {
            None
        }
    }

    /// Files `node` under `id`: in place of the node that is filed there, or at
    /// the end.
    pub open spec fn put(self, id: Seq<char>, node: NodeModel) -> FederationModel {
        if self.has(id) {
            FederationModel { nodes: self.nodes.update(self.place(id), node), ..self }
        } else {
            FederationModel { keys: self.keys.push(id), nodes: self.nodes.push(node), ..self }
        }
    }

    /// Takes out what is filed under `id`.
    pub open spec fn remove(self, id: Seq<char>) -> FederationModel {
        if self.has(id) {
            FederationModel {
                keys: self.keys.remove(self.place(id)),
                nodes: self.nodes.remove(self.place(id)),
                ..self
            }
        } else {
            self
        }
    }

    /// The number of nodes in state `health`.
    pub open spec fn count(self, health: Health) -> nat {
        count_in(self.nodes, health)
    }
}

/// The number of nodes in state `health` in a list.
pub open spec fn count_in(nodes: Seq<NodeModel>, health: Health) -> nat {
    nodes.filter(|n: NodeModel| n.health == health).len()
}

/// One more node adds itself to the count of its state.
pub proof fn lemma_count_step(nodes: Seq<NodeModel>, health: Health, i: int)
    requires
        0 <= i < nodes.len(),
    ensures
        count_in(nodes.take(i + 1), health) == count_in(nodes.take(i), health) + (if nodes[i].health
            == health {
            1nat
        } else {
            0
        }),
{
    lemma_filter_step(nodes, |n: NodeModel| n.health == health, i);
}

/// The node at the place of a key is what is found under that key; under an id
/// that is no key, nothing is found.
pub proof fn law_get_finds_by_key(fed: FederationModel, id: Seq<char>)
    requires
        fed.wf(),
    ensures
        forall|p: int|
            0 <= p < fed.keys.len() && #[trigger] fed.keys[p] == id ==> fed.get(id) == Some(
                fed.nodes[p],
            ),
        !fed.keys.contains(id) ==> fed.get(id) is None,
        fed.has(id) <==> fed.keys.contains(id),
        fed.get(id) is Some <==> fed.keys.contains(id),
{
    assert forall|p: int| 0 <= p < fed.keys.len() && #[trigger] fed.keys[p] == id implies fed.get(
        id,
    ) == Some(fed.nodes[p]) by {
        assert(fed.keys[fed.place(id)] == id);
    }
}

/// Registration puts the node in the place of the one that is filed under the
/// same id, or at the end where there is none, and touches nothing else.
pub proof fn law_register_changes_one_place(fed: FederationModel, id: Seq<char>, node: NodeModel)
    requires
        fed.wf(),
    ensures
        forall|p: int|
            0 <= p < fed.keys.len() && #[trigger] fed.keys[p] == id ==> fed.put(id, node).keys
                == fed.keys && fed.put(id, node).nodes == fed.nodes.update(p, node),
        !fed.keys.contains(id) ==> fed.put(id, node).keys == fed.keys.push(id) && fed.put(
            id,
            node,
        ).nodes == fed.nodes.push(node),
        fed.put(id, node).gossip_log == fed.gossip_log,
        fed.put(id, node).overload_threshold == fed.overload_threshold,
{
    assert forall|p: int| 0 <= p < fed.keys.len() && #[trigger] fed.keys[p] == id implies fed.has(id)
        && fed.place(id) == p by {
        assert(fed.keys[fed.place(id)] == id);
    }
}

/// Removal takes out the key and the node at its place and touches nothing else;
/// without the key, it changes nothing.
pub proof fn law_remove_takes_out_one_place(fed: FederationModel, id: Seq<char>)
    requires
        fed.wf(),
    ensures
        forall|p: int|
            0 <= p < fed.keys.len() && #[trigger] fed.keys[p] == id ==> fed.remove(id).keys
                == fed.keys.remove(p) && fed.remove(id).nodes == fed.nodes.remove(p),
        !fed.keys.contains(id) ==> fed.remove(id) == fed,
        fed.remove(id).gossip_log == fed.gossip_log,
        fed.remove(id).overload_threshold == fed.overload_threshold,
{
    assert forall|p: int| 0 <= p < fed.keys.len() && #[trigger] fed.keys[p] == id implies fed.has(id)
        && fed.place(id) == p by {
        assert(fed.keys[fed.place(id)] == id);
    }
}

/// After registration a node is found under its id, and under every other id
/// what was found before.
pub proof fn law_register_then_get(
    fed: FederationModel,
    id: Seq<char>,
    node: NodeModel,
    other: Seq<char>,
)
    requires
        fed.wf(),
    ensures
        fed.put(id, node).wf(),
        fed.put(id, node).get(id) == Some(node),
        other != id ==> fed.put(id, node).get(other) == fed.get(other),
        fed.filed_by_id() && node.id == id ==> fed.put(id, node).filed_by_id(),
        fed.within_capacity() && node.within_capacity() ==> fed.put(id, node).within_capacity(),
{
    let after = fed.put(id, node);
    if fed.has(id) {
        assert(fed.keys[fed.place(id)] == id);
        if fed.has(other) {
            assert(fed.keys[fed.place(other)] == other);
        }
    } else {
        let n = fed.keys.len() as int;
        assert(after.keys[n] == id);
        assert(after.keys[after.place(id)] == id);
        if after.has(other) && other != id {
            assert(after.keys[after.place(other)] == other);
            assert(fed.keys[after.place(other)] == other);
        }
        if fed.has(other) {
            assert(fed.keys[fed.place(other)] == other);
            assert(after.keys[fed.place(other)] == other);
        }
        assert forall|i: int, j: int|
            0 <= i < after.keys.len() && 0 <= j < after.keys.len() && i != j implies after.keys[i]
            != after.keys[j] by {
            if i == n {
                assert(fed.keys.contains(fed.keys[j]));
            } else if j == n {
                assert(fed.keys.contains(fed.keys[i]));
            }
        }
    }
    if fed.filed_by_id() && node.id == id {
        assert forall|i: int| 0 <= i < after.nodes.len() implies (#[trigger] after.nodes[i]).id
            == after.keys[i] by {
            if i < fed.nodes.len() {
                assert(fed.nodes[i].id == fed.keys[i]);
            }
        }
    }
    if fed.within_capacity() && node.within_capacity() {
        assert forall|i: int| 0 <= i < after.nodes.len() implies (
        #[trigger] after.nodes[i]).within_capacity() by {
            if i < fed.nodes.len() {
                assert(fed.nodes[i].within_capacity());
            }
        }
    }
}

/// Registering a node anew replaces the one with the same id.
pub proof fn law_register_replaces(
    fed: FederationModel,
    id: Seq<char>,
    first: NodeModel,
    second: NodeModel,
)
    requires
        fed.wf(),
    ensures
        fed.put(id, first).put(id, second) == fed.put(id, second),
        fed.put(id, first).nodes.len() == fed.nodes.len() + (if fed.has(id) {
            0int
        } else {
            1
        }),
{
    law_register_then_get(fed, id, first, id);
    let (a, b) = (fed.put(id, first).put(id, second), fed.put(id, second));
    let i = fed.put(id, first).place(id);
    assert(fed.put(id, first).keys[i] == id);
    if fed.has(id) {
        assert(fed.keys[fed.place(id)] == id);
    } else {
        assert(i == fed.keys.len()) by {
            if i < fed.keys.len() {
                assert(fed.keys.contains(fed.keys[i]));
            }
        }
    }
    assert(a.nodes =~= b.nodes);
    assert(a.keys =~= b.keys);
}

/// After removal nothing is found under the id, and under every other id what
/// was found before.
pub proof fn law_remove_then_get(fed: FederationModel, id: Seq<char>, other: Seq<char>)
    requires
        fed.wf(),
    ensures
        fed.remove(id).wf(),
        fed.remove(id).get(id) is None,
        other != id ==> fed.remove(id).get(other) == fed.get(other),
        fed.filed_by_id() ==> fed.remove(id).filed_by_id(),
        fed.within_capacity() ==> fed.remove(id).within_capacity(),
{
    if fed.has(id) {
        let after = fed.remove(id);
        let p = fed.place(id);
        assert(fed.keys[p] == id);
        let old_place = |i: int|
            if i < p {
                i
            } else {
                i + 1
            };
        assert forall|i: int| 0 <= i < after.keys.len() implies #[trigger] after.keys[i]
            == fed.keys[old_place(i)] && after.nodes[i] == fed.nodes[old_place(i)] by {
        }
        assert forall|i: int, j: int|
            0 <= i < after.keys.len() && 0 <= j < after.keys.len() && i != j implies after.keys[i]
            != after.keys[j] by {
            assert(old_place(i) != old_place(j));
        }
        if after.has(id) {
            let i = after.place(id);
            assert(after.keys[i] == id);
            assert(old_place(i) != p);
        }
        if after.has(other) {
            let i = after.place(other);
            assert(after.keys[i] == other);
            assert(fed.keys[old_place(i)] == other);
            assert(fed.keys[fed.place(other)] == other);
        }
        if fed.has(other) && other != id {
            let k = fed.place(other);
            assert(fed.keys[k] == other);
            let i = if k < p {
                k
            } else {
                k - 1
            };
            assert(after.keys[i] == other);
        }
        if fed.filed_by_id() {
            assert forall|i: int| 0 <= i < after.nodes.len() implies (#[trigger] after.nodes[i]).id
                == after.keys[i] by {
                assert(after.keys[i] == fed.keys[old_place(i)]);
                assert(fed.nodes[old_place(i)].id == fed.keys[old_place(i)]);
            }
        }
        if fed.within_capacity() {
            assert forall|i: int| 0 <= i < after.nodes.len() implies (
            #[trigger] after.nodes[i]).within_capacity() by {
                assert(after.keys[i] == fed.keys[old_place(i)]);
                assert(fed.nodes[old_place(i)].within_capacity());
            }
        }
    }
}

/// Removing a node that was registered under a new id gives the federation back
/// as it was.
pub proof fn law_remove_undoes_register(fed: FederationModel, id: Seq<char>, node: NodeModel)
    requires
        fed.wf(),
        !fed.has(id),
    ensures
        fed.put(id, node).remove(id) == fed,
{
    law_register_then_get(fed, id, node, id);
    let added = fed.put(id, node);
    let i = added.place(id);
    assert(added.has(id));
    assert(added.keys[i] == id);
    if i < fed.keys.len() {
        assert(fed.keys.contains(fed.keys[i]));
    }
    assert(added.remove(id).keys =~= fed.keys);
    assert(added.remove(id).nodes =~= fed.nodes);
}

/// What a list of keys says.
pub open spec fn keys_view(keys: Seq<String>) -> Seq<Seq<char>> {
    keys.map_values(|k: String| k@)
}

/// What a list of nodes holds.
pub open spec fn nodes_view(nodes: Seq<ClusterNode>) -> Seq<NodeModel> {
    nodes.map_values(|n: ClusterNode| n@)
}

/// The views of lists show every element as it is, in the order of the list.
pub proof fn law_list_views_show_the_elements(keys: Seq<String>, nodes: Seq<ClusterNode>)
    ensures
        keys_view(keys).len() == keys.len(),
        forall|i: int| 0 <= i < keys.len() ==> #[trigger] keys_view(keys)[i] == keys[i]@,
        nodes_view(nodes).len() == nodes.len(),
        forall|i: int| 0 <= i < nodes.len() ==> #[trigger] nodes_view(nodes)[i] == nodes[i]@,
{
}

impl Clone for FederationManager {
    fn clone(&self) -> (copy: Self)
        ensures
            copy@ == self@,
    {
        let copy = FederationManager {
            keys: self.keys.clone(),
            nodes: self.nodes.clone(),
            gossip_log: self.gossip_log.clone(),
            overload_threshold: self.overload_threshold,
        };
        assert(copy@.keys =~= self@.keys);
        assert(copy@.nodes =~= self@.nodes);
        assert(copy@.gossip_log =~= self@.gossip_log);
        copy
    }
}

impl FederationManager {
    /// What the manager holds.
    pub open(crate) spec fn view(&self) -> FederationModel {
        FederationModel {
            keys: keys_view(self.keys@),
            nodes: nodes_view(self.nodes@),
            gossip_log: crate::gossip::messages_view(self.gossip_log@),
            overload_threshold: self.overload_threshold,
        }
    }

    /// A manager without nodes.
    pub fn new(overload_threshold: Binary64) -> (manager: Self)
        ensures
            manager@.wf(),
            manager@.filed_by_id(),
            manager@ == (FederationModel {
                keys: Seq::empty(),
                nodes: Seq::empty(),
                gossip_log: Seq::empty(),
                overload_threshold,
            }),
    {
        let manager = Self {
            keys: Vec::new(),
            nodes: Vec::new(),
            gossip_log: Vec::new(),
            overload_threshold,
        };
        assert(manager@.keys =~= Seq::empty());
        assert(manager@.nodes =~= Seq::empty());
        assert(manager@.gossip_log =~= Seq::empty());
        manager
    }

    /// Finds the place of the node that is filed under `id`.
    pub(crate) fn find(&self, id: &String) -> (found: Option<usize>)
        requires
            self@.wf(),
        ensures
            found is Some <==> self@.has(id@),
            found matches Some(i) ==> i < self.nodes@.len() && i == self@.place(id@)
                && self.keys@[i as int]@ == id@,
    {
        let mut i: usize = 0;
        while i < self.keys.len()
            invariant
                self@.wf(),
                i <= self.keys.len(),
                forall|k: int| 0 <= k < i ==> #[trigger] self@.keys[k] != id@,
            decreases self.keys.len() - i,
        {
            if self.keys[i] == *id {
                assert(self@.keys[i as int] == id@);
                return Some(i);
            }
            i = i + 1;
        }
        None
    }

    /// Register a node with the federation.
    pub fn register_node(&mut self, node: ClusterNode)
        requires
            old(self)@.wf(),
        ensures
            final(self)@.wf(),
            final(self)@ == old(self)@.put(node@.id, node@),
            final(self)@.get(node@.id) == Some(node@),
            old(self)@.filed_by_id() ==> final(self)@.filed_by_id(),
    {
        let ghost before = self@;
        proof {
            law_register_then_get(before, node@.id, node@, node@.id);
        }
        match self.find(&node.id) {
            Some(i) => {
                self.nodes[i] = node;
                assert(self@.nodes =~= before.nodes.update(i as int, node@));
            },
            None => {
                let key: String = node.id.clone();
                self.keys.push(key);
                self.nodes.push(node);
                assert(self@.keys =~= before.keys.push(node@.id));
                assert(self@.nodes =~= before.nodes.push(node@));
            },
        }
    }

    /// Remove a node from the federation.
    pub fn remove_node(&mut self, id: &str) -> (removed: Option<ClusterNode>)
        requires
            old(self)@.wf(),
        ensures
            final(self)@.wf(),
            final(self)@ == old(self)@.remove(id@),
            removed is Some <==> old(self)@.has(id@),
            removed matches Some(node) ==> old(self)@.get(id@) == Some(node@),
            !final(self)@.has(id@),
            old(self)@.filed_by_id() ==> final(self)@.filed_by_id(),
    {
        let ghost before = self@;
        proof {
            law_remove_then_get(before, id@, id@);
        }
        let key: String = id.to_owned();
        match self.find(&key) {
            Some(i) => {
                self.keys.remove(i);
                let node = self.nodes.remove(i);
                assert(self@.keys =~= before.keys.remove(i as int));
                assert(self@.nodes =~= before.nodes.remove(i as int));
                Some(node)
            },
            None => None,
        }
    }

    /// Get a node by id.
    pub fn get_node(&self, id: &str) -> (found: Option<&ClusterNode>)
        requires
            self@.wf(),
        ensures
            found is Some <==> self@.has(id@),
            found matches Some(node) ==> self@.get(id@) == Some(node@),
    {
        let key: String = id.to_owned();
        match self.find(&key) {
            Some(i) => Some(&self.nodes[i]),
            None => None,
        }
    }

    /// Get a mutable reference to a node.
    pub fn get_node_mut(&mut self, id: &str) -> (found: Option<&mut ClusterNode>)
        requires
            old(self)@.wf(),
        ensures
            final(self)@.wf(),
            found is Some <==> old(self)@.has(id@),
            found matches Some(node) ==> {
                &&& old(self)@.get(id@) == Some(node@)
                &&& final(self)@ == old(self)@.put(id@, final(node)@)
                &&& old(self)@.filed_by_id() && final(node)@.id == id@
                    ==> final(self)@.filed_by_id()
            },
            found is None ==> final(self)@ == old(self)@,
    {
        let key: String = id.to_owned();
        match self.find(&key) {
            Some(i) => {
                proof {
                    let all = self.nodes@;
                    assert forall|node: ClusterNode| nodes_view(
                        #[trigger] all.update(i as int, node),
                    ) == nodes_view(all).update(i as int, node@) by {
                        assert(nodes_view(all.update(i as int, node)) =~= nodes_view(all).update(
                            i as int,
                            node@,
                        ));
                        if self@.filed_by_id() && node@.id == id@ {
                            law_register_then_get(self@, id@, node@, id@);
                        }
                    }
                }
                Some(&mut self.nodes[i])
            },
            None => None,
        }
    }

    /// All registered nodes.
    pub fn nodes(&self) -> (walk: core::slice::Iter<'_, ClusterNode>)
        requires
            self@.wf(),
        ensures
            nodes_view(walk.remaining().unref()) == self@.nodes,
            IteratorSpec::decrease(&walk) is Some,
            IteratorSpec::initial_value_relation(&walk, &walk),
    {
        self.nodes.iter()
    }

    /// Nodes that can accept work (healthy).
    pub fn healthy_nodes(&self) -> (healthy: Vec<&ClusterNode>)
        requires
            self@.wf(),
        ensures
            nodes_view(healthy@.unref()) == self@.nodes.filter(
                |n: NodeModel| n.health.accepts_work(),
            ),
            nodes_view(healthy@.unref()) == self@.nodes.filter(
                |n: NodeModel| n.health == Health::Healthy,
            ),
    {
        let mut healthy: Vec<&ClusterNode> = Vec::new();
        let mut i: usize = 0;
        let ghost pred = |n: NodeModel| n.health.accepts_work();
        assert(nodes_view(healthy@.unref()) =~= self@.nodes.take(0).filter(pred)) by {
            reveal(Seq::filter);
        }
        while i < self.nodes.len()
            invariant
                i <= self.nodes.len(),
                pred == (|n: NodeModel| n.health.accepts_work()),
                nodes_view(healthy@.unref()) == self@.nodes.take(i as int).filter(pred),
            decreases self.nodes.len() - i,
        {
            let ghost found = nodes_view(healthy@.unref());
            if self.nodes[i].health.can_accept_work() {
                healthy.push(&self.nodes[i]);
                assert(nodes_view(healthy@.unref()) =~= found.push(self@.nodes[i as int]));
            }
            proof {
                lemma_filter_step(self@.nodes, pred, i as int);
            }
            i = i + 1;
        }
        assert(self@.nodes.take(i as int) =~= self@.nodes);
        assert(pred =~= (|n: NodeModel| n.health == Health::Healthy));
        healthy
    }

    /// Count nodes by health state.
    pub fn health_counts(&self) -> (counts: (usize, usize, usize))
        requires
            self@.wf(),
        ensures
            counts.0 == self@.count(Health::Healthy),
            counts.1 == self@.count(Health::Recovering),
            counts.2 == self@.count(Health::Offline),
            counts.0 == self@.nodes.filter(|n: NodeModel| n.health == Health::Healthy).len(),
            counts.1 == self@.nodes.filter(|n: NodeModel| n.health == Health::Recovering).len(),
            counts.2 == self@.nodes.filter(|n: NodeModel| n.health == Health::Offline).len(),
    {
        let mut healthy: usize = 0;
        let mut recovering: usize = 0;
        let mut offline: usize = 0;
        let mut i: usize = 0;
        proof {
            reveal(Seq::filter);
        }
        while i < self.nodes.len()
            invariant
                i <= self.nodes.len(),
                healthy <= i,
                recovering <= i,
                offline <= i,
                healthy == count_in(self@.nodes.take(i as int), Health::Healthy),
                recovering == count_in(self@.nodes.take(i as int), Health::Recovering),
                offline == count_in(self@.nodes.take(i as int), Health::Offline),
            decreases self.nodes.len() - i,
        {
            proof {
                lemma_count_step(self@.nodes, Health::Healthy, i as int);
                lemma_count_step(self@.nodes, Health::Recovering, i as int);
                lemma_count_step(self@.nodes, Health::Offline, i as int);
            }
            match self.nodes[i].health {
                Health::Healthy => healthy = healthy + 1,
                Health::Recovering => recovering = recovering + 1,
                Health::Offline => offline = offline + 1,
            }
            i = i + 1;
        }
        assert(self@.nodes.take(i as int) =~= self@.nodes);
        (healthy, recovering, offline)
    }
}

} // verus!
