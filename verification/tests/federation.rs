use oxide_federation::{Binary64, ClusterNode, FederationManager, Health, QuorumResult};

fn binary64(number: f64) -> Binary64 {
    Binary64::from_bits(number.to_bits())
}

fn float(number: Binary64) -> f64 {
    f64::from_bits(number.to_bits())
}

fn node(id: &str, health: Health, capacity: u32, latency_ms: f64) -> ClusterNode {
    ClusterNode::new(id.to_string(), health, capacity, binary64(latency_ms))
}

fn loaded(id: &str, health: Health, capacity: u32, work: u32) -> ClusterNode {
    let mut n = node(id, health, capacity, 1.0);
    assert!(n.allocate(work));
    n
}

fn allocated(fm: &FederationManager, id: &str) -> u32 {
    fm.get_node(id).unwrap().allocated
}

fn total(fm: &FederationManager) -> u64 {
    fm.nodes().map(|n| n.allocated as u64).sum()
}

fn make_manager() -> FederationManager {
    FederationManager::new(binary64(0.8))
}

fn make_cluster() -> FederationManager {
    let mut fm = FederationManager::new(binary64(0.8));
    let mut n1 = node("gpu-0", Health::Healthy, 100, 1.2);
    n1.allocate(85); // overloaded at 85%
    let mut n2 = node("gpu-1", Health::Healthy, 100, 2.5);
    n2.allocate(20); // 20%
    let mut n3 = node("gpu-2", Health::Recovering, 50, 5.0);
    n3.allocate(10);
    let n4 = node("gpu-3", Health::Offline, 80, 999.0);

    fm.register_node(n1);
    fm.register_node(n2);
    fm.register_node(n3);
    fm.register_node(n4);
    fm
}

#[test]
fn test_node_capacity_and_utilization() {
    let mut node = node("n1", Health::Healthy, 100, 1.0);
    assert_eq!(node.available(), 100);
    assert_eq!(float(node.utilization()), 0.0);
    assert!(node.allocate(30));
    assert_eq!(node.available(), 70);
    assert!((float(node.utilization()) - 0.3).abs() < 1e-9);
    assert!(!node.is_overloaded(binary64(0.8)));
    assert!(node.allocate(50));
    assert!(node.is_overloaded(binary64(0.8)));
}

#[test]
fn test_gossip_propagation() {
    let mut fm = make_manager();
    fm.register_node(node("a", Health::Healthy, 10, 1.0));
    fm.register_node(node("b", Health::Recovering, 10, 2.0));
    fm.register_node(node("c", Health::Offline, 10, 99.0));

    let msgs = fm.gossip_round();
    // Each node sends to every other: 3 * 2 = 6
    assert_eq!(msgs.len(), 6);
    assert!(msgs.iter().all(|m| m.round == 1));

    let msgs2 = fm.gossip_n_rounds(2);
    // 2 more rounds: 2 * 6 = 12
    assert_eq!(msgs2.len(), 12);
}

#[test]
fn test_work_stealing_redistributes() {
    let mut fm = make_cluster();
    // gpu-0 is at 85% (overloaded at 0.8 threshold), gpu-1 at 20%.
    let stolen = fm.steal_work(30);
    assert!(stolen > 0);
    // gpu-0 should have released work.
    let gpu0 = fm.get_node("gpu-0").unwrap();
    assert!(gpu0.allocated < 85);
    // gpu-1 should have gained work.
    let gpu1 = fm.get_node("gpu-1").unwrap();
    assert!(gpu1.allocated > 20);
}

#[test]
fn test_quorum_approved() {
    let mut fm = make_manager();
    fm.register_node(node("a", Health::Healthy, 10, 1.0));
    fm.register_node(node("b", Health::Healthy, 10, 1.0));
    fm.register_node(node("c", Health::Healthy, 10, 1.0));
    match fm.quorum_decision() {
        QuorumResult::Approved { healthy_votes, total_voters } => {
            assert_eq!(healthy_votes, 3);
            assert_eq!(total_voters, 3);
        }
        _ => panic!("expected Approved"),
    }
}

#[test]
fn test_quorum_rejected() {
    let mut fm = make_manager();
    fm.register_node(node("a", Health::Healthy, 10, 1.0));
    fm.register_node(node("b", Health::Recovering, 10, 1.0));
    fm.register_node(node("c", Health::Offline, 10, 1.0));
    // Active = 2, need 2 healthy. Only 1 healthy => Rejected.
    match fm.quorum_decision() {
        QuorumResult::Rejected { healthy_votes, total_voters } => {
            assert_eq!(healthy_votes, 1);
            assert_eq!(total_voters, 2);
        }
        _ => panic!("expected Rejected"),
    }
}

#[test]
fn test_graceful_degradation_redistributes() {
    let mut fm = make_manager();
    let mut n1 = node("a", Health::Healthy, 100, 1.0);
    n1.allocate(50);
    let mut n2 = node("b", Health::Healthy, 100, 2.0);
    n2.allocate(30);
    fm.register_node(n1);
    fm.register_node(n2);

    // A third node goes offline with work.
    let mut n3 = node("c", Health::Offline, 100, 5.0);
    n3.allocate(40);
    fm.register_node(n3);

    let redistributed = fm.graceful_degradation();
    assert_eq!(redistributed, 40);
    // n3 should have 0 allocated.
    assert_eq!(fm.get_node("c").unwrap().allocated, 0);
    // Work should be on healthy nodes.
    let total: u32 = fm.healthy_nodes().iter().map(|n| n.allocated).sum();
    assert_eq!(total, 120); // 50 + 30 + 40
}

#[test]
fn test_degrade_node_marks_offline() {
    let mut fm = make_manager();
    let mut n1 = node("a", Health::Healthy, 100, 1.0);
    n1.allocate(60);
    let mut n2 = node("b", Health::Healthy, 100, 2.0);
    n2.allocate(10);
    fm.register_node(n1);
    fm.register_node(n2);

    let redist = fm.degrade_node("a");
    assert_eq!(redist, 60);
    assert_eq!(fm.get_node("a").unwrap().health, Health::Offline);
    assert_eq!(fm.get_node("a").unwrap().allocated, 0);
    // b should have picked up the work.
    assert_eq!(fm.get_node("b").unwrap().allocated, 70);
}

#[test]
fn test_route_work_selects_least_utilized() {
    let mut fm = make_manager();
    let mut n1 = node("a", Health::Healthy, 100, 1.0);
    n1.allocate(80);
    let mut n2 = node("b", Health::Healthy, 100, 2.0);
    n2.allocate(10);
    fm.register_node(n1);
    fm.register_node(n2);

    let chosen = fm.route_work(5);
    assert_eq!(chosen, Some("b".to_string()));
    assert_eq!(fm.get_node("b").unwrap().allocated, 15);
}

#[test]
fn only_healthy_nodes_accept_work() {
    assert!(Health::Healthy.can_accept_work());
    assert!(!Health::Recovering.can_accept_work());
    assert!(!Health::Offline.can_accept_work());
}

#[test]
fn release_undoes_allocate() {
    let mut n = loaded("n", Health::Healthy, 100, 40);
    assert!(n.allocate(25));
    n.release(25);
    assert_eq!(n.allocated, 40);
    n.release(1000);
    assert_eq!(n.allocated, 0);
}

#[test]
fn allocate_refuses_what_does_not_fit() {
    let mut n = loaded("n", Health::Healthy, 100, 40);
    assert!(!n.allocate(61));
    assert_eq!(n.allocated, 40);
    assert!(n.allocate(60));
    assert_eq!(n.available(), 0);
    n.allocated = 130;
    assert_eq!(n.available(), 0);
    assert!(n.allocate(0));
    assert!(!n.allocate(1));
    assert!(float(n.utilization()) > 1.0);
}

#[test]
fn node_without_capacity_has_no_utilization() {
    let mut n = node("n", Health::Healthy, 0, 1.0);
    assert_eq!(float(n.utilization()), 0.0);
    n.allocated = 5;
    assert_eq!(float(n.utilization()), 0.0);
    assert!(!n.is_overloaded(binary64(0.1)));
    assert!(n.is_overloaded(binary64(0.0)));
}

#[test]
fn thresholds_compare_as_numbers() {
    let n = loaded("n", Health::Healthy, 100, 80);
    assert!(n.is_overloaded(binary64(0.0)));
    assert!(n.is_overloaded(binary64(-0.0)));
    assert!(n.is_overloaded(binary64(-3.5)));
    assert!(n.is_overloaded(binary64(f64::NEG_INFINITY)));
    assert!(!n.is_overloaded(binary64(f64::INFINITY)));
    assert!(!n.is_overloaded(binary64(f64::NAN)));
    assert!(!n.is_overloaded(binary64(0.8000001)));
}

#[test]
fn register_get_and_remove() {
    let mut fm = make_manager();
    assert!(fm.get_node("a").is_none());
    fm.register_node(loaded("a", Health::Healthy, 10, 3));
    fm.register_node(loaded("b", Health::Healthy, 10, 4));
    assert_eq!(allocated(&fm, "a"), 3);
    fm.register_node(loaded("a", Health::Recovering, 20, 7));
    assert_eq!(fm.nodes().count(), 2);
    assert_eq!(allocated(&fm, "a"), 7);
    assert_eq!(allocated(&fm, "b"), 4);
    assert_eq!(fm.get_node("a").unwrap().health, Health::Recovering);
    assert_eq!(float(fm.get_node("a").unwrap().latency_ms), 1.0);
    let removed = fm.remove_node("a").unwrap();
    assert_eq!(removed.id, "a");
    assert_eq!(removed.capacity, 20);
    assert!(fm.get_node("a").is_none());
    assert!(fm.remove_node("a").is_none());
    assert_eq!(allocated(&fm, "b"), 4);
}

#[test]
fn nodes_are_changed_through_get_node_mut() {
    let mut fm = make_manager();
    assert!(fm.get_node_mut("us-east-0").is_none());
    fm.register_node(node("us-east-0", Health::Healthy, 100, 1.2));
    assert!(fm.get_node_mut("us-east-0").unwrap().allocate(85));
    assert_eq!(allocated(&fm, "us-east-0"), 85);
}

#[test]
fn clone_is_independent() {
    let mut fm = make_cluster();
    let copy = fm.clone();
    fm.steal_work(30);
    assert_eq!(allocated(&copy, "gpu-0"), 85);
    assert_eq!(allocated(&fm, "gpu-0"), 55);
    let n = copy.get_node("gpu-2").unwrap().clone();
    assert_eq!(n.id, "gpu-2");
    assert_eq!(n.allocated, 10);
    assert_eq!(copy.quorum_decision().clone(), copy.quorum_decision());
}

#[test]
fn health_counts_and_healthy_nodes() {
    let fm = make_cluster();
    assert_eq!(fm.health_counts(), (2, 1, 1));
    let ids: Vec<String> = fm.healthy_nodes().iter().map(|n| n.id.clone()).collect();
    assert_eq!(ids, vec!["gpu-0".to_string(), "gpu-1".to_string()]);
    assert_eq!(make_manager().health_counts(), (0, 0, 0));
    assert!(make_manager().healthy_nodes().is_empty());
}

#[test]
fn gossip_has_every_ordered_pair_once() {
    let mut fm = make_cluster();
    let msgs = fm.gossip_round();
    assert_eq!(msgs.len(), 4 * 3);
    for source in fm.nodes() {
        for target in fm.nodes() {
            let told: Vec<Health> = msgs
                .iter()
                .filter(|m| m.source == source.id && m.target == target.id)
                .map(|m| m.health)
                .collect();
            if source.id == target.id {
                assert!(told.is_empty());
            } else {
                assert_eq!(told, vec![source.health]);
            }
        }
    }
    assert_eq!(total(&fm), 115);
}

#[test]
fn gossip_rounds_are_numbered() {
    let mut fm = make_manager();
    fm.register_node(node("a", Health::Healthy, 10, 1.0));
    fm.register_node(node("b", Health::Offline, 10, 1.0));
    let rounds: Vec<u32> = fm.gossip_n_rounds(3).iter().map(|m| m.round).collect();
    assert_eq!(rounds, vec![1, 1, 2, 2, 3, 3]);
    assert!(fm.gossip_n_rounds(0).is_empty());
    assert!(make_manager().gossip_round().is_empty());
}

#[test]
fn quorum_needs_a_strict_majority_of_active_nodes() {
    let mut fm = make_manager();
    assert_eq!(fm.quorum_decision(), QuorumResult::InsufficientVoters { total: 0 });
    fm.register_node(node("a", Health::Offline, 10, 1.0));
    fm.register_node(node("b", Health::Offline, 10, 1.0));
    assert_eq!(fm.quorum_decision(), QuorumResult::InsufficientVoters { total: 2 });
    fm.register_node(node("c", Health::Recovering, 10, 1.0));
    assert_eq!(
        fm.quorum_decision(),
        QuorumResult::Rejected { healthy_votes: 0, total_voters: 1 }
    );
    fm.register_node(node("d", Health::Healthy, 10, 1.0));
    assert_eq!(
        fm.quorum_decision(),
        QuorumResult::Rejected { healthy_votes: 1, total_voters: 2 }
    );
    fm.register_node(node("e", Health::Healthy, 10, 1.0));
    let approved = QuorumResult::Approved { healthy_votes: 2, total_voters: 3 };
    assert_eq!(fm.quorum_decision(), approved);
    fm.register_node(node("f", Health::Offline, 10, 1.0));
    assert_eq!(fm.quorum_decision(), approved);
}

#[test]
fn stealing_moves_exact_amounts() {
    let mut fm = make_cluster();
    assert_eq!(fm.steal_work(30), 30);
    assert_eq!(allocated(&fm, "gpu-0"), 55);
    assert_eq!(allocated(&fm, "gpu-1"), 50);
    assert_eq!(allocated(&fm, "gpu-2"), 10);
    assert_eq!(allocated(&fm, "gpu-3"), 0);
    assert_eq!(total(&fm), 115);
    // No node is overloaded any more.
    assert_eq!(fm.steal_work(30), 0);
    assert_eq!(total(&fm), 115);
}

#[test]
fn stealing_splits_evenly_and_least_utilized_first() {
    let mut fm = make_manager();
    fm.register_node(loaded("busy", Health::Healthy, 100, 81));
    fm.register_node(loaded("busiest", Health::Healthy, 200, 190));
    fm.register_node(loaded("second", Health::Healthy, 100, 50));
    fm.register_node(loaded("first", Health::Healthy, 100, 10));
    fm.register_node(loaded("third", Health::Healthy, 100, 60));
    // 11 = 4 + 4 + 3, the least utilized nodes taking the larger shares.
    assert_eq!(fm.steal_work(11), 11);
    assert_eq!(allocated(&fm, "busiest"), 179);
    assert_eq!(allocated(&fm, "busy"), 81);
    assert_eq!(allocated(&fm, "first"), 14);
    assert_eq!(allocated(&fm, "second"), 54);
    assert_eq!(allocated(&fm, "third"), 63);
}

#[test]
fn stealing_loses_what_does_not_fit() {
    let mut fm = make_manager();
    fm.register_node(loaded("donor", Health::Healthy, 100, 100));
    fm.register_node(loaded("small", Health::Healthy, 4, 3));
    fm.register_node(loaded("large", Health::Healthy, 100, 0));
    assert_eq!(fm.steal_work(500), 51);
    assert_eq!(allocated(&fm, "donor"), 0);
    assert_eq!(allocated(&fm, "large"), 50);
    assert_eq!(allocated(&fm, "small"), 4);
    assert_eq!(total(&fm), 103 - 100 + 51);
}

#[test]
fn stealing_needs_a_donor_and_a_taker() {
    let mut fm = make_manager();
    assert_eq!(fm.steal_work(10), 0);
    fm.register_node(loaded("donor", Health::Healthy, 100, 90));
    fm.register_node(loaded("warming", Health::Recovering, 100, 0));
    fm.register_node(loaded("down", Health::Offline, 100, 95));
    assert_eq!(fm.steal_work(10), 0);
    assert_eq!(allocated(&fm, "donor"), 90);
    assert_eq!(allocated(&fm, "down"), 95);
}

#[test]
fn degrading_fills_the_most_available_first() {
    let mut fm = make_manager();
    fm.register_node(loaded("down", Health::Healthy, 100, 90));
    fm.register_node(loaded("little", Health::Healthy, 100, 70));
    fm.register_node(loaded("much", Health::Healthy, 100, 30));
    fm.register_node(loaded("warming", Health::Recovering, 100, 0));
    assert_eq!(fm.degrade_node("down"), 90);
    assert_eq!(allocated(&fm, "much"), 100);
    assert_eq!(allocated(&fm, "little"), 90);
    assert_eq!(allocated(&fm, "warming"), 0);
    assert_eq!(total(&fm), 190);
    assert_eq!(fm.degrade_node("down"), 0);
    assert_eq!(fm.degrade_node("nobody"), 0);
    assert_eq!(total(&fm), 190);
}

#[test]
fn degrading_places_no_more_than_fits() {
    let mut fm = make_manager();
    fm.register_node(loaded("down", Health::Recovering, 100, 90));
    fm.register_node(loaded("full", Health::Healthy, 50, 50));
    fm.register_node(loaded("nearly", Health::Healthy, 50, 45));
    assert_eq!(fm.degrade_node("down"), 5);
    assert_eq!(fm.get_node("down").unwrap().health, Health::Offline);
    assert_eq!(allocated(&fm, "down"), 0);
    assert_eq!(allocated(&fm, "full"), 50);
    assert_eq!(allocated(&fm, "nearly"), 50);
}

#[test]
fn graceful_degradation_clears_every_offline_node_once() {
    let mut fm = make_manager();
    fm.register_node(loaded("x", Health::Offline, 100, 60));
    fm.register_node(loaded("up", Health::Healthy, 100, 20));
    fm.register_node(loaded("y", Health::Offline, 100, 50));
    fm.register_node(loaded("warming", Health::Recovering, 100, 9));
    assert_eq!(fm.graceful_degradation(), 80);
    assert_eq!(allocated(&fm, "x"), 0);
    assert_eq!(allocated(&fm, "y"), 0);
    assert_eq!(allocated(&fm, "up"), 100);
    assert_eq!(allocated(&fm, "warming"), 9);
    assert_eq!(fm.health_counts(), (1, 1, 2));
    assert_eq!(fm.graceful_degradation(), 0);
}

#[test]
fn routing_needs_a_healthy_node_with_room() {
    let mut fm = make_manager();
    assert_eq!(fm.route_work(1), None);
    fm.register_node(loaded("warming", Health::Recovering, 100, 0));
    fm.register_node(loaded("down", Health::Offline, 100, 0));
    assert_eq!(fm.route_work(1), None);
    fm.register_node(loaded("idle-but-small", Health::Healthy, 5, 0));
    fm.register_node(loaded("half", Health::Healthy, 100, 50));
    assert_eq!(fm.route_work(6), Some("half".to_string()));
    assert_eq!(fm.route_work(5), Some("idle-but-small".to_string()));
    assert_eq!(fm.route_work(45), None);
    assert_eq!(total(&fm), 61);
}

#[test]
fn documented_walkthrough() {
    let mut fm = make_manager();
    fm.register_node(node("us-east-0", Health::Healthy, 100, 1.2));
    fm.register_node(node("us-east-1", Health::Healthy, 100, 2.5));
    fm.register_node(node("eu-west-0", Health::Recovering, 50, 15.0));
    fm.register_node(node("ap-south-0", Health::Offline, 80, 200.0));

    let chosen = fm.route_work(10).unwrap();
    assert!(chosen == "us-east-0" || chosen == "us-east-1");
    assert_eq!(fm.gossip_n_rounds(3).len(), 36);
    assert_eq!(
        fm.quorum_decision(),
        QuorumResult::Approved { healthy_votes: 2, total_voters: 3 }
    );
    assert!(fm.get_node_mut("us-east-0").unwrap().allocate(60));
    let held = allocated(&fm, "us-east-0");
    assert_eq!(fm.degrade_node("us-east-0"), held);
    assert_eq!(fm.get_node("us-east-0").unwrap().health, Health::Offline);
    assert_eq!(total(&fm), 70);
}

#[test]
fn documented_walkthrough_with_stealing() {
    let mut fm = make_manager();
    fm.register_node(node("us-east-0", Health::Healthy, 100, 1.2));
    fm.register_node(node("us-east-1", Health::Healthy, 100, 2.5));
    fm.register_node(node("eu-west-0", Health::Recovering, 50, 15.0));
    fm.register_node(node("ap-south-0", Health::Offline, 80, 200.0));

    assert_eq!(fm.route_work(10), Some("us-east-0".to_string()));
    assert_eq!(fm.gossip_n_rounds(3).len(), 36);

    assert!(fm.get_node_mut("us-east-0").unwrap().allocate(85));
    assert!(fm.get_node_mut("us-east-1").unwrap().allocate(20));
    assert_eq!(fm.steal_work(30), 30);
    assert_eq!(allocated(&fm, "us-east-0"), 65);
    assert_eq!(allocated(&fm, "us-east-1"), 50);

    assert_eq!(
        fm.quorum_decision(),
        QuorumResult::Approved { healthy_votes: 2, total_voters: 3 }
    );

    // 60 more do not fit beside the 65; of those, 50 fit on the other node.
    assert!(!fm.get_node_mut("us-east-0").unwrap().allocate(60));
    assert_eq!(fm.degrade_node("us-east-0"), 50);
    assert_eq!(fm.get_node("us-east-0").unwrap().health, Health::Offline);
    assert_eq!(allocated(&fm, "us-east-0"), 0);
    assert_eq!(allocated(&fm, "us-east-1"), 100);
    assert_eq!(fm.degrade_node("us-east-0"), 0);
    assert_eq!(total(&fm), 100);
}

#[test]
fn a_rewritten_id_stays_filed_under_the_former_key() {
    let mut fm = make_manager();
    fm.register_node(node("a", Health::Healthy, 10, 1.0));
    fm.register_node(node("b", Health::Healthy, 10, 1.0));
    fm.get_node_mut("a").unwrap().id = "b".to_string();
    assert_eq!(fm.get_node("a").unwrap().id, "b");
    // Both nodes speak as "b" and none of them to "b".
    let msgs = fm.gossip_round();
    assert_eq!(msgs.len(), 2);
    assert!(msgs.iter().all(|m| m.source == "b" && m.target == "a"));
    // Work routed to the first node goes to what is filed under its id.
    assert_eq!(fm.route_work(4), Some("b".to_string()));
    assert_eq!(allocated(&fm, "a"), 0);
    assert_eq!(allocated(&fm, "b"), 4);
}

#[test]
fn removing_undoes_registering() {
    let mut fm = make_cluster();
    let before: Vec<String> = fm.nodes().map(|n| n.id.clone()).collect();
    fm.register_node(loaded("gpu-9", Health::Healthy, 10, 1));
    assert_eq!(fm.remove_node("gpu-9").unwrap().allocated, 1);
    let after: Vec<String> = fm.nodes().map(|n| n.id.clone()).collect();
    assert_eq!(before, after);
    assert_eq!(total(&fm), 115);
}

#[test]
fn overload_is_monotone_in_work_and_threshold() {
    let mut n = loaded("n", Health::Healthy, 7, 0);
    let mut last = float(n.utilization());
    for _ in 0..7 {
        assert!(n.allocate(1));
        let now = float(n.utilization());
        assert!(now > last);
        last = now;
    }
    assert_eq!(last, 1.0);
    assert!(n.is_overloaded(binary64(0.9)) && n.is_overloaded(binary64(0.5)));
    n.capacity = u32::MAX - 1;
    n.allocated = u32::MAX;
    assert!(float(n.utilization()) > 1.0);
}

#[test]
fn stealing_repeatedly_creates_no_work() {
    let mut fm = make_manager();
    fm.register_node(loaded("a", Health::Healthy, 100, 95));
    fm.register_node(loaded("b", Health::Healthy, 100, 90));
    fm.register_node(loaded("c", Health::Healthy, 10, 7));
    let mut before = total(&fm);
    for _ in 0..5 {
        let moved = fm.steal_work(20);
        assert!(moved <= 20);
        let now = total(&fm);
        assert!(now <= before);
        assert!(fm.nodes().all(|n| n.allocated <= n.capacity));
        before = now;
    }
}

fn overfull(id: &str, health: Health, capacity: u32, work: u32) -> ClusterNode {
    let mut n = node(id, health, capacity, 1.0);
    n.allocated = work;
    assert!(n.allocated > n.capacity);
    n
}

#[test]
fn stealing_beside_an_overfull_node_fills_no_other_over_its_capacity() {
    let mut fm = make_manager();
    fm.register_node(overfull("over", Health::Healthy, 100, 120));
    fm.register_node(overfull("down", Health::Offline, 10, 50));
    fm.register_node(loaded("small", Health::Healthy, 10, 7));
    fm.register_node(loaded("large", Health::Healthy, 100, 20));
    assert_eq!(fm.steal_work(60), 33);
    assert_eq!(allocated(&fm, "over"), 60);
    assert_eq!(allocated(&fm, "large"), 50);
    assert_eq!(allocated(&fm, "small"), 10);
    assert_eq!(allocated(&fm, "down"), 50);
}

#[test]
fn degrading_beside_an_overfull_node_fills_no_other_over_its_capacity() {
    let mut fm = make_manager();
    fm.register_node(loaded("down", Health::Healthy, 100, 90));
    fm.register_node(overfull("over", Health::Healthy, 50, 70));
    fm.register_node(loaded("nearly", Health::Healthy, 50, 45));
    assert_eq!(fm.degrade_node("down"), 5);
    assert_eq!(allocated(&fm, "down"), 0);
    assert_eq!(allocated(&fm, "over"), 70);
    assert_eq!(allocated(&fm, "nearly"), 50);
}

#[test]
fn graceful_degradation_clears_an_overfull_node() {
    let mut fm = make_manager();
    fm.register_node(overfull("x", Health::Offline, 10, 40));
    fm.register_node(overfull("over", Health::Healthy, 50, 70));
    fm.register_node(loaded("up", Health::Healthy, 100, 70));
    assert_eq!(fm.graceful_degradation(), 30);
    assert_eq!(allocated(&fm, "x"), 0);
    assert_eq!(allocated(&fm, "over"), 70);
    assert_eq!(allocated(&fm, "up"), 100);
}
