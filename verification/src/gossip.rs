//! Gossip: every node tells every other node its health.

use crate::health::Health;
use crate::lists::{lemma_all_places_but_one, lemma_filter_places, lemma_filter_step};
use crate::manager::{FederationManager, FederationModel};
use vstd::prelude::*;

verus! {

/// A gossip message propagating health information.
#[derive(Debug)]
pub struct GossipMessage {
    pub source: String,
    pub target: String,
    pub health: Health,
    /// Round / TTL for gossip propagation.
    pub round: u32,
}

/// What a [`GossipMessage`] says.
pub struct MessageModel {
    pub source: Seq<char>,
    pub target: Seq<char>,
    pub health: Health,
    pub round: u32,
}

impl View for GossipMessage {
    type V = MessageModel;

    open spec fn view(&self) -> MessageModel {
        MessageModel {
            source: self.source@,
            target: self.target@,
            health: self.health,
            round: self.round,
        }
    }
}

impl MessageModel {
    /// The message with its round number replaced.
    pub open spec fn in_round(self, round: u32) -> MessageModel {
        MessageModel { round, ..self }
    }
}

impl Clone for GossipMessage {
    fn clone(&self) -> (copy: Self)
        ensures
            copy@ == self@,
    {
        GossipMessage {
            source: self.source.clone(),
            target: self.target.clone(),
            health: self.health,
            round: self.round,
        }
    }
}

/// What a list of messages says.
pub open spec fn messages_view(messages: Seq<GossipMessage>) -> Seq<MessageModel> {
    messages.map_values(|m: GossipMessage| m@)
}

impl FederationModel {
    /// The message by which the node at place `i` tells the node filed under
    /// `target` its health.
    pub open spec fn announcement(self, i: int, target: Seq<char>) -> MessageModel {
        MessageModel {
            source: self.nodes[i].id,
            target,
            health: self.nodes[i].health,
            round: 1,
        }
    }

    /// The messages of the node at place `i`: one to every key but its own id.
    pub open spec fn announcements(self, i: int) -> Seq<MessageModel> {
        self.keys.filter(|key: Seq<char>| key != self.nodes[i].id).map_values(
            |key: Seq<char>| self.announcement(i, key),
        )
    }

    /// The messages of the first `k` nodes.
    pub open spec fn announced(self, k: nat) -> Seq<MessageModel>
        decreases k,
    {
        if k == 0 {
            Seq::empty()
        } else {
            self.announced((k - 1) as nat) + self.announcements(k - 1)
        }
    }

    /// The messages of one round.
    pub open spec fn gossip(self) -> Seq<MessageModel> {
        self.announced(self.nodes.len())
    }

    /// The messages of `n` rounds, each with the number of its round.
    pub open spec fn gossip_rounds(self, n: nat) -> Seq<MessageModel>
        decreases n,
    {
        if n == 0 {
            Seq::empty()
        } else {
            self.gossip_rounds((n - 1) as nat) + self.gossip().map_values(
                |m: MessageModel| m.in_round(n as u32),
            )
        }
    }

    /// The federation with the messages of `n` rounds in its log, where every
    /// one stands as a message of round 1.
    pub open spec fn after_rounds(self, n: nat) -> FederationModel
        decreases n,
    {
        if n == 0 {
            self
        } else {
            let fed = self.after_rounds((n - 1) as nat);
            FederationModel { gossip_log: fed.gossip_log + self.gossip(), ..fed }
        }
    }
}

/// The view of a message shows each of its fields as it is.
pub proof fn law_message_view_shows_the_fields(message: GossipMessage)
    ensures
        message@.source == message.source@,
        message@.target == message.target@,
        message@.health == message.health,
        message@.round == message.round,
{
}

/// The view of a list of messages shows every message as it is, in their order.
pub proof fn law_messages_view_shows_the_messages(messages: Seq<GossipMessage>)
    ensures
        messages_view(messages).len() == messages.len(),
        forall|k: int|
            0 <= k < messages.len() ==> #[trigger] messages_view(messages)[k] == messages[k]@,
{
}

/// Gossip reads nodes and keys and leaves both alone.
pub proof fn law_gossip_leaves_nodes_alone(fed: FederationModel, n: nat)
    ensures
        fed.after_rounds(n).keys == fed.keys,
        fed.after_rounds(n).nodes == fed.nodes,
        fed.after_rounds(n).overload_threshold == fed.overload_threshold,
        fed.after_rounds(n).gossip() == fed.gossip(),
    decreases n,
{
    if n > 0 {
        law_gossip_leaves_nodes_alone(fed, (n - 1) as nat);
    }
    lemma_same_announced(fed.after_rounds(n), fed, fed.nodes.len());
}

proof fn lemma_same_announced(a: FederationModel, b: FederationModel, k: nat)
    requires
        a.keys == b.keys,
        a.nodes == b.nodes,
    ensures
        a.announced(k) == b.announced(k),
    decreases k,
{
    if k > 0 {
        lemma_same_announced(a, b, (k - 1) as nat);
        assert(a.announcements(k - 1) =~= b.announcements(k - 1));
    }
}

/// The messages of one node go to exactly the other keys, each once.
proof fn lemma_announcements(fed: FederationModel, i: int)
    requires
        fed.wf(),
        0 <= i < fed.nodes.len(),
    ensures
        forall|x: MessageModel| #[trigger]
            fed.announcements(i).contains(x) <==> exists|j: int|
                0 <= j < fed.keys.len() && #[trigger] fed.keys[j] != fed.nodes[i].id && x
                    == fed.announcement(i, fed.keys[j]),
        fed.announcements(i).no_duplicates(),
        fed.filed_by_id() ==> fed.announcements(i).len() == fed.nodes.len() - 1,
{
    let others = |key: Seq<char>| key != fed.nodes[i].id;
    let found = lemma_filter_places(fed.keys, others);
    let sent = fed.announcements(i);
    assert forall|x: MessageModel| #[trigger] sent.contains(x) <==> exists|j: int|
        0 <= j < fed.keys.len() && #[trigger] fed.keys[j] != fed.nodes[i].id && x
            == fed.announcement(i, fed.keys[j]) by {
        if sent.contains(x) {
            let k = sent.index_of(x);
            assert(sent[k] == x);
            let j = found[k];
            assert(fed.keys[j] != fed.nodes[i].id && x == fed.announcement(i, fed.keys[j]));
        }
        if exists|j: int|
            0 <= j < fed.keys.len() && #[trigger] fed.keys[j] != fed.nodes[i].id && x
                == fed.announcement(i, fed.keys[j]) {
            let j = choose|j: int|
                0 <= j < fed.keys.len() && #[trigger] fed.keys[j] != fed.nodes[i].id && x
                    == fed.announcement(i, fed.keys[j]);
            assert(others(fed.keys[j]));
            assert(found.contains(j));
            let k = found.index_of(j);
            assert(sent[k] == x);
        }
    }
    assert forall|a: int, b: int|
        0 <= a < sent.len() && 0 <= b < sent.len() && a != b implies sent[a] != sent[b] by {
        assert(found[a] != found[b]);
        assert(fed.keys[found[a]] != fed.keys[found[b]]);
    }
    if fed.filed_by_id() {
        assert(fed.nodes[i].id == fed.keys[i]);
        assert forall|j: int| #[trigger] found.contains(j) <==> 0 <= j < fed.nodes.len()
            && j != i by {
            if found.contains(j) {
                let k = found.index_of(j);
                assert(found[k] == j);
            }
            if 0 <= j < fed.nodes.len() && j != i {
                assert(others(fed.keys[j]));
            }
        }
        lemma_all_places_but_one(found, fed.nodes.len(), i);
    }
}

proof fn lemma_announced(fed: FederationModel, k: nat)
    requires
        fed.wf(),
        k <= fed.nodes.len(),
    ensures
        forall|x: MessageModel| #[trigger]
            fed.announced(k).contains(x) <==> exists|i: int|
                0 <= i < k && #[trigger] fed.announcements(i).contains(x),
        fed.filed_by_id() ==> fed.announced(k).no_duplicates(),
        fed.filed_by_id() ==> fed.announced(k).len() == k * (fed.nodes.len() - 1),
    decreases k,
{
    if k == 0 {
        assert(0 * (fed.nodes.len() - 1) == 0) by (nonlinear_arith);
    } else {
        let m = (k - 1) as nat;
        lemma_announced(fed, m);
        lemma_announcements(fed, m as int);
        let (old, new, all) = (fed.announced(m), fed.announcements(m as int), fed.announced(k));
        assert forall|x: MessageModel| #[trigger] all.contains(x) <==> exists|i: int|
            0 <= i < k && #[trigger] fed.announcements(i).contains(x) by {
            if all.contains(x) {
                let p = all.index_of(x);
                if p < old.len() {
                    assert(old[p] == x);
                    assert(old.contains(x));
                } else {
                    assert(new[p - old.len()] == x);
                    assert(fed.announcements(m as int).contains(x));
                }
            }
            if exists|i: int| 0 <= i < k && #[trigger] fed.announcements(i).contains(x) {
                let i = choose|i: int| 0 <= i < k && #[trigger] fed.announcements(i).contains(x);
                if i < m {
                    assert(old.contains(x));
                    let p = old.index_of(x);
                    assert(all[p] == x);
                } else {
                    let p = new.index_of(x);
                    assert(all[old.len() + p] == x);
                }
            }
        }
        if fed.filed_by_id() {
            let n = fed.nodes.len() - 1;
            assert(k * n == m * n + n) by (nonlinear_arith)
                requires
                    k == m + 1,
            ;
            assert forall|a: int, b: int|
                0 <= a < old.len() && 0 <= b < new.len() implies old[a] != new[b] by {
                assert(old.contains(old[a]));
                let i = choose|i: int|
                    0 <= i < m && #[trigger] fed.announcements(i).contains(old[a]);
                lemma_announcements(fed, i);
                assert(new.contains(new[b]));
                assert(old[a].source == fed.nodes[i].id);
                assert(new[b].source == fed.nodes[m as int].id);
                assert(fed.nodes[i].id == fed.keys[i]);
                assert(fed.nodes[m as int].id == fed.keys[m as int]);
            }
            assert forall|a: int, b: int|
                0 <= a < all.len() && 0 <= b < all.len() && a != b implies all[a] != all[b] by {
                if a < old.len() && b >= old.len() {
                    assert(old[a] != new[b - old.len()]);
                } else if b < old.len() && a >= old.len() {
                    assert(old[b] != new[a - old.len()]);
                } else if a < old.len() {
                    assert(old[a] != old[b]);
                } else {
                    assert(new[a - old.len()] != new[b - old.len()]);
                }
            }
        }
    }
}

/// The messages of a round are exactly one from every node to every key other
/// than its own id, each telling the sender's health.
pub proof fn law_gossip_tells_every_peer(fed: FederationModel, x: MessageModel)
    requires
        fed.wf(),
    ensures
        fed.gossip().contains(x) <==> exists|i: int, j: int|
            0 <= i < fed.nodes.len() && 0 <= j < fed.keys.len() && fed.keys[j] != fed.nodes[i].id
                && x == #[trigger] fed.announcement(i, fed.keys[j]),
{
    lemma_announced(fed, fed.nodes.len());
    assert forall|i: int| 0 <= i < fed.nodes.len() implies (#[trigger] fed.announcements(
        i,
    ).contains(x) <==> exists|j: int|
        0 <= j < fed.keys.len() && #[trigger] fed.keys[j] != fed.nodes[i].id && x
            == fed.announcement(i, fed.keys[j])) by {
        lemma_announcements(fed, i);
    }
    if fed.gossip().contains(x) {
        let i = choose|i: int|
            0 <= i < fed.nodes.len() && #[trigger] fed.announcements(i).contains(x);
        let j = choose|j: int|
            0 <= j < fed.keys.len() && #[trigger] fed.keys[j] != fed.nodes[i].id && x
                == fed.announcement(i, fed.keys[j]);
        assert(x == fed.announcement(i, fed.keys[j]));
    }
    if exists|i: int, j: int|
        0 <= i < fed.nodes.len() && 0 <= j < fed.keys.len() && fed.keys[j] != fed.nodes[i].id && x
            == #[trigger] fed.announcement(i, fed.keys[j]) {
        let (i, j) = choose|i: int, j: int|
            0 <= i < fed.nodes.len() && 0 <= j < fed.keys.len() && fed.keys[j] != fed.nodes[i].id
                && x == #[trigger] fed.announcement(i, fed.keys[j]);
        assert(fed.keys[j] != fed.nodes[i].id);
        assert(fed.announcements(i).contains(x));
    }
}

proof fn lemma_announced_prefix(fed: FederationModel, k: nat, n: nat)
    requires
        k <= n,
    ensures
        fed.announced(k).len() <= fed.announced(n).len(),
        fed.announced(n).take(fed.announced(k).len() as int) == fed.announced(k),
    decreases n,
{
    if k < n {
        lemma_announced_prefix(fed, k, (n - 1) as nat);
        assert(fed.announced(n).take(fed.announced(k).len() as int) =~= fed.announced(
            (n - 1) as nat,
        ).take(fed.announced(k).len() as int));
    } else {
        assert(fed.announced(n).take(fed.announced(k).len() as int) =~= fed.announced(k));
    }
}

/// A round is the messages of one sender after those of the other: from place
/// `starts[i]` on, the node at place `i` tells its health to every key other than
/// its own id, in the order of the keys.
pub proof fn law_gossip_sender_by_sender(fed: FederationModel) -> (starts: Seq<int>)
    ensures
        starts.len() == fed.nodes.len() + 1,
        starts[0] == 0,
        starts[fed.nodes.len() as int] == fed.gossip().len(),
        forall|i: int|
            #![trigger fed.nodes[i]]
            0 <= i < fed.nodes.len() ==> {
                &&& 0 <= starts[i] <= starts[i + 1] <= fed.gossip().len()
                &&& fed.gossip().subrange(starts[i], starts[i + 1]) == fed.keys.filter(
                    |key: Seq<char>| key != fed.nodes[i].id,
                ).map_values(
                    |key: Seq<char>|
                        (MessageModel {
                            source: fed.nodes[i].id,
                            target: key,
                            health: fed.nodes[i].health,
                            round: 1,
                        }),
                )
            },
{
    let starts = Seq::new(fed.nodes.len() + 1, |i: int| fed.announced(i as nat).len() as int);
    let all = fed.gossip();
    assert forall|i: int|
        #![trigger fed.nodes[i]]
        0 <= i < fed.nodes.len() implies 0 <= starts[i] <= starts[i + 1] <= all.len()
        && all.subrange(starts[i], starts[i + 1]) == fed.announcements(i) by {
        lemma_announced_prefix(fed, (i + 1) as nat, fed.nodes.len());
        let upto = fed.announced((i + 1) as nat);
        assert(all.take(starts[i + 1]) == upto);
        assert(all.subrange(starts[i], starts[i + 1]) =~= upto.skip(starts[i]));
        assert(upto.skip(starts[i]) =~= fed.announcements(i));
    }
    assert forall|i: int| #![trigger fed.nodes[i]] 0 <= i < fed.nodes.len() implies fed.announcements(
        i,
    ) == fed.keys.filter(|key: Seq<char>| key != fed.nodes[i].id).map_values(
        |key: Seq<char>|
            (MessageModel {
                source: fed.nodes[i].id,
                target: key,
                health: fed.nodes[i].health,
                round: 1,
            }),
    ) by {
        assert(fed.announcements(i) =~= fed.keys.filter(
            |key: Seq<char>| key != fed.nodes[i].id,
        ).map_values(
            |key: Seq<char>|
                (MessageModel {
                    source: fed.nodes[i].id,
                    target: key,
                    health: fed.nodes[i].health,
                    round: 1,
                }),
        ));
    }
    starts
}

/// In a federation of n nodes that is filed by id, a round has n times n - 1
/// messages, and no two are the same.
pub proof fn law_gossip_count(fed: FederationModel)
    requires
        fed.wf(),
        fed.filed_by_id(),
    ensures
        fed.gossip().len() == fed.nodes.len() * (fed.nodes.len() - 1),
        fed.gossip().no_duplicates(),
{
    lemma_announced(fed, fed.nodes.len());
}

/// Each of several rounds has the messages of one round, under its own number,
/// and the log grows by them.
pub proof fn law_every_round_tells_the_same(fed: FederationModel, n: nat, r: int, m: int)
    requires
        n <= u32::MAX,
        1 <= r <= n,
        0 <= m < fed.gossip().len(),
    ensures
        fed.gossip_rounds(n).len() == n * fed.gossip().len(),
        0 <= (r - 1) * fed.gossip().len() + m < fed.gossip_rounds(n).len(),
        fed.gossip_rounds(n)[(r - 1) * fed.gossip().len() + m] == fed.gossip()[m].in_round(
            r as u32,
        ),
        ({
            let said = fed.gossip_rounds(n)[(r - 1) * fed.gossip().len() + m];
            &&& said.source == fed.gossip()[m].source
            &&& said.target == fed.gossip()[m].target
            &&& said.health == fed.gossip()[m].health
            &&& said.round == r
        }),
        fed.after_rounds(n).gossip_log.len() == fed.gossip_log.len() + n * fed.gossip().len(),
    decreases n,
{
    let one = fed.gossip().len() as int;
    let before = (n - 1) as nat;
    law_rounds_add_up(fed, n);
    law_rounds_add_up(fed, before);
    assert((r - 1) * one >= 0) by (nonlinear_arith)
        requires
            r >= 1,
            one >= 0,
    ;
    if r == n {
        assert(fed.gossip_rounds(n)[before * one + m] == fed.gossip()[m].in_round(n as u32));
    } else {
        law_every_round_tells_the_same(fed, before, r, m);
    }
    assert((r - 1) * one + one == r * one) by (nonlinear_arith);
    assert(r * one <= n * one) by (nonlinear_arith)
        requires
            r <= n,
            one >= 0,
    ;
}

/// Every message of several rounds tells the truth: it comes from a node of the
/// federation, goes to a key other than the id of that node, has the health of
/// that node, and bears the number of the round in which it stands.
pub proof fn law_every_round_tells_the_truth(fed: FederationModel, n: nat, k: int) -> (found: (
    int,
    int,
))
    requires
        fed.wf(),
        n <= u32::MAX,
        0 <= k < fed.gossip_rounds(n).len(),
    ensures
        ({
            let (i, j) = found;
            let said = fed.gossip_rounds(n)[k];
            &&& 0 <= i < fed.nodes.len()
            &&& 0 <= j < fed.keys.len()
            &&& fed.keys[j] != fed.nodes[i].id
            &&& said.source == fed.nodes[i].id
            &&& said.target == fed.keys[j]
            &&& said.health == fed.nodes[i].health
            &&& 1 <= said.round <= n
            &&& (said.round - 1) * fed.gossip().len() <= k < said.round * fed.gossip().len()
        }),
{
    let one = fed.gossip().len() as int;
    law_rounds_add_up(fed, n);
    assert(one > 0) by (nonlinear_arith)
        requires
            0 <= k < n * one,
            one >= 0,
    ;
    let (before, m) = (k / one, k % one);
    vstd::arithmetic::div_mod::lemma_fundamental_div_mod(k, one);
    assert(0 <= before < n) by (nonlinear_arith)
        requires
            before == k / one,
            0 <= k < n * one,
            one > 0,
    ;
    assert(before * one == one * before && (before + 1) * one == one * before + one)
        by (nonlinear_arith);
    law_every_round_tells_the_same(fed, n, before + 1, m);
    let x = fed.gossip()[m];
    assert(fed.gossip().contains(x));
    law_gossip_tells_every_peer(fed, x);
    choose|i: int, j: int|
        0 <= i < fed.nodes.len() && 0 <= j < fed.keys.len() && fed.keys[j] != fed.nodes[i].id && x
            == #[trigger] fed.announcement(i, fed.keys[j])
}

/// The log keeps what it held, and each round adds the messages of one round to
/// it, just as a single round gives them.
pub proof fn law_log_grows_round_by_round(fed: FederationModel, n: nat, r: int)
    requires
        1 <= r <= n,
    ensures
        ({
            let one = fed.gossip().len() as int;
            let (old, log) = (fed.gossip_log, fed.after_rounds(n).gossip_log);
            &&& log.len() == old.len() + n * one
            &&& log.take(old.len() as int) == old
            &&& 0 <= (r - 1) * one <= r * one <= n * one
            &&& log.subrange(old.len() + (r - 1) * one, old.len() + r * one) == fed.gossip()
        }),
    decreases n,
{
    let one = fed.gossip().len() as int;
    let (old, log) = (fed.gossip_log, fed.after_rounds(n).gossip_log);
    let before = fed.after_rounds((n - 1) as nat).gossip_log;
    law_rounds_add_up(fed, n);
    law_rounds_add_up(fed, (n - 1) as nat);
    assert(n * one == (n - 1) * one + one) by (nonlinear_arith);
    assert(r * one == (r - 1) * one + one) by (nonlinear_arith);
    assert(0 <= (r - 1) * one && r * one <= n * one) by (nonlinear_arith)
        requires
            1 <= r <= n,
            one >= 0,
    ;
    if n > 1 {
        law_log_grows_round_by_round(
            fed,
            (n - 1) as nat,
            if r < n {
                r
            } else {
                r - 1
            },
        );
        assert(log.take(old.len() as int) =~= before.take(old.len() as int));
    } else {
        assert(before == old);
        assert(log.take(old.len() as int) =~= old);
        assert(0 * one == 0) by (nonlinear_arith);
    }
    if r == n {
        assert(log.subrange(old.len() + (r - 1) * one, old.len() + r * one) =~= fed.gossip());
    } else {
        assert(r * one <= (n - 1) * one) by (nonlinear_arith)
            requires
                r <= n - 1,
                one >= 0,
        ;
        assert(log.subrange(old.len() + (r - 1) * one, old.len() + r * one) =~= before.subrange(
            old.len() + (r - 1) * one,
            old.len() + r * one,
        ));
    }
}

/// Several rounds have as many messages as one round has, times their number, and
/// the log grows by as many; no rounds change nothing.
pub proof fn law_rounds_add_up(fed: FederationModel, n: nat)
    ensures
        fed.gossip_rounds(n).len() == n * fed.gossip().len(),
        n == 0 ==> fed.after_rounds(n) == fed,
        fed.after_rounds(n).gossip_log.len() == fed.gossip_log.len() + n * fed.gossip().len(),
    decreases n,
{
    let one = fed.gossip().len() as int;
    if n > 0 {
        law_rounds_add_up(fed, (n - 1) as nat);
        assert(n * one == (n - 1) * one + one) by (nonlinear_arith);
    } else {
        assert(n * one == 0) by (nonlinear_arith)
            requires
                n == 0,
        ;
    }
}

impl FederationManager {
    /// Simulate one round of gossip: every node broadcasts its health
    /// to every other node. Returns the list of gossip messages generated.
    pub fn gossip_round(&mut self) -> (messages: Vec<GossipMessage>)
        requires
            old(self)@.wf(),
        ensures
            messages_view(messages@) == old(self)@.gossip(),
            messages@.len() == old(self)@.gossip().len(),
            forall|k: int|
                0 <= k < messages@.len() ==> {
                    let said = old(self)@.gossip()[k];
                    &&& (#[trigger] messages@[k]).source@ == said.source
                    &&& messages@[k].target@ == said.target
                    &&& messages@[k].health == said.health
                    &&& messages@[k].round == said.round
                },
            final(self)@.wf(),
            final(self)@ == old(self)@.after_rounds(1),
            old(self)@.filed_by_id() ==> final(self)@.filed_by_id(),
    {
        let ghost fed = self@;
        let mut messages: Vec<GossipMessage> = Vec::new();
        assert(messages_view(messages@) =~= fed.announced(0));
        let mut i: usize = 0;
        while i < self.nodes.len()
            invariant
                i <= self.nodes.len(),
                fed == self@,
                fed.wf(),
                messages_view(messages@) == fed.announced(i as nat),
            decreases self.nodes.len() - i,
        {
            let node = &self.nodes[i];
            let ghost others = |key: Seq<char>| key != node@.id;
            let ghost tell = |key: Seq<char>| fed.announcement(i as int, key);
            assert(fed.nodes[i as int] == node@);
            assert(fed.keys.take(0).filter(others) =~= Seq::empty()) by {
                reveal(Seq::filter);
            }
            assert(fed.announced(i as nat) + fed.keys.take(0).filter(others).map_values(tell)
                =~= fed.announced(i as nat));
            let mut j: usize = 0;
            while j < self.keys.len()
                invariant
                    i < self.nodes.len(),
                    j <= self.keys.len(),
                    fed == self@,
                    fed.nodes[i as int] == node@,
                    others == (|key: Seq<char>| key != node@.id),
                    tell == (|key: Seq<char>| fed.announcement(i as int, key)),
                    messages_view(messages@) == fed.announced(i as nat) + fed.keys.take(
                        j as int,
                    ).filter(others).map_values(tell),
                decreases self.keys.len() - j,
            {
                let ghost so_far = messages_view(messages@);
                let ghost told = fed.keys.take(j as int).filter(others);
                proof {
                    lemma_filter_step(fed.keys, others, j as int);
                    assert(fed.keys[j as int] == self.keys@[j as int]@);
                }
                if !(node.id == self.keys[j]) {
                    messages.push(
                        GossipMessage {
                            source: node.id.clone(),
                            target: self.keys[j].clone(),
                            health: node.health,
                            round: 1,
                        },
                    );
                    assert(messages_view(messages@) =~= so_far.push(tell(fed.keys[j as int])));
                    assert(told.push(fed.keys[j as int]).map_values(tell) =~= told.map_values(
                        tell,
                    ).push(tell(fed.keys[j as int])));
                    assert(messages_view(messages@) =~= fed.announced(i as nat) + told.push(
                        fed.keys[j as int],
                    ).map_values(tell));
                }
                j = j + 1;
            }
            proof {
                assert(fed.keys.take(j as int) =~= fed.keys);
                assert(fed.keys.filter(others).map_values(tell) =~= fed.announcements(i as int));
            }
            i = i + 1;
        }
        let ghost sent = messages_view(messages@);
        let mut k: usize = 0;
        assert(messages_view(self.gossip_log@) =~= fed.gossip_log + sent.take(0));
        while k < messages.len()
            invariant
                k <= messages.len(),
                sent == messages_view(messages@),
                messages_view(self.gossip_log@) == fed.gossip_log + sent.take(k as int),
                self@.keys == fed.keys,
                self@.nodes == fed.nodes,
                self@.overload_threshold == fed.overload_threshold,
            decreases messages.len() - k,
        {
            let ghost so_far = messages_view(self.gossip_log@);
            self.gossip_log.push(messages[k].clone());
            assert(messages_view(self.gossip_log@) =~= so_far.push(sent[k as int]));
            assert(sent.take(k + 1) =~= sent.take(k as int).push(sent[k as int]));
            assert(fed.gossip_log + sent.take(k + 1) =~= so_far.push(sent[k as int]));
            k = k + 1;
        }
        proof {
            assert(sent.take(k as int) =~= sent);
            reveal_with_fuel(FederationModel::after_rounds, 2);
            assert forall|k: int| 0 <= k < messages@.len() implies (#[trigger] messages@[k])@
                == sent[k] by {
            }
        }
        messages
    }

    /// Perform `n` rounds of gossip, propagating health state.
    /// In each round, nodes learn the health of all peers.
    pub fn gossip_n_rounds(&mut self, n: u32) -> (messages: Vec<GossipMessage>)
        requires
            old(self)@.wf(),
        ensures
            messages_view(messages@) == old(self)@.gossip_rounds(n as nat),
            messages@.len() == old(self)@.gossip_rounds(n as nat).len(),
            forall|k: int|
                0 <= k < messages@.len() ==> {
                    let said = old(self)@.gossip_rounds(n as nat)[k];
                    &&& (#[trigger] messages@[k]).source@ == said.source
                    &&& messages@[k].target@ == said.target
                    &&& messages@[k].health == said.health
                    &&& messages@[k].round == said.round
                },
            final(self)@.wf(),
            final(self)@ == old(self)@.after_rounds(n as nat),
            old(self)@.filed_by_id() ==> final(self)@.filed_by_id(),
    {
        let ghost fed = self@;
        let mut all: Vec<GossipMessage> = Vec::new();
        let mut round: u32 = 0;
        assert(messages_view(all@) =~= fed.gossip_rounds(0));
        while round < n
            invariant
                round <= n,
                self@.wf(),
                self@ == fed.after_rounds(round as nat),
                messages_view(all@) == fed.gossip_rounds(round as nat),
            decreases n - round,
        {
            proof {
                law_gossip_leaves_nodes_alone(fed, round as nat);
                reveal_with_fuel(FederationModel::after_rounds, 2);
            }
            let mut messages = self.gossip_round();
            round = round + 1;
            let ghost sent = messages_view(messages@);
            let mut k: usize = 0;
            while k < messages.len()
                invariant
                    k <= messages.len(),
                    messages@.len() == sent.len(),
                    forall|j: int|
                        0 <= j < sent.len() ==> (#[trigger] messages@[j])@ == (if j < k {
                            sent[j].in_round(round)
                        } else {
                            sent[j]
                        }),
                decreases messages.len() - k,
            {
                messages[k].round = round;
                k = k + 1;
            }
            let ghost so_far = messages_view(all@);
            let ghost numbered = messages_view(messages@);
            assert(numbered =~= sent.map_values(|m: MessageModel| m.in_round(round)));
            all.append(&mut messages);
            assert(messages_view(all@) =~= so_far + numbered);
        }
        proof {
            law_gossip_leaves_nodes_alone(fed, n as nat);
            let sent = messages_view(all@);
            assert forall|k: int| 0 <= k < all@.len() implies (#[trigger] all@[k])@ == sent[k] by {
            }
        }
        all
    }
}

} // verus!
