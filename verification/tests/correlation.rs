use thelma::htlc::HTLC;
use thelma::network::{Channel, LightningNetworkMap, Node};
use thelma::operation::SurveillanceOperation;

fn line_network() -> LightningNetworkMap {
    let mut network = LightningNetworkMap::new(700000);
    for (key, alias) in [
        ("node1", "Node 1"),
        ("node2", "Node 2"),
        ("node4", "Node 4"),
    ] {
        network.add_node(Node::new(key, alias, 20));
    }
    // A receiver-like node with the standard final delta.
    network.add_node(Node::new("node3", "Node 3", 40));
    network.add_channel(Channel::new("chan1", "node1", "node2", 1000000));
    network.add_channel(Channel::new("chan2", "node2", "node3", 1000000));
    network.add_channel(Channel::new("chan3", "node3", "node4", 1000000));
    network
}

#[test]
fn test_record_observation() {
    // Create a test network
    let mut network = LightningNetworkMap::new(700000);
    network.add_node(Node::new("node1", "Node 1", 40));
    network.add_node(Node::new("node2", "Node 2", 40));

    // Setup surveillance with node1 as malicious
    let mut surveillance = SurveillanceOperation::new(network, vec!["node1".to_string()]);

    // Create an HTLC observation from the malicious node
    let htlc = HTLC::new("test_hash", 700080, 100000, 700000, "node1");

    // Test recording the observation
    surveillance.record_htlc_observation(htlc);
    assert_eq!(surveillance.get_observations().len(), 1);

    // Create an HTLC from a non-malicious node
    let htlc2 = HTLC::new("test_hash2", 700080, 100000, 700000, "node2");

    // This should be ignored
    surveillance.record_htlc_observation(htlc2);
    assert_eq!(surveillance.get_observations().len(), 1);
}

#[test]
fn test_correlation_prefers_larger_expiry() {
    // Two observations of one payment with differing expiry heights:
    // correlation picks the one with the numerically larger expiry as
    // the group's representative.
    let network = line_network();
    let mut surveillance = SurveillanceOperation::new(
        network,
        vec!["node1".to_string(), "node2".to_string()],
    );

    let low = HTLC::new("pay", 700060, 100000, 700000, "node1");
    let high = HTLC::new("pay", 700080, 100000, 700000, "node2");
    surveillance.record_multiple_observations(vec![low, high]);
    assert_eq!(surveillance.get_observations().len(), 2);

    let results = surveillance.run_analysis();
    assert_eq!(results.len(), 1);
    assert_eq!(results[0].payment_hash, "pay");

    // The representative is the higher-expiry observation, made at node2,
    // so every hypothesized route starts there.
    assert!(!results[0].recipients.is_empty());
    for rec in &results[0].recipients {
        assert_eq!(rec.route[0], "node2");
    }
}

#[test]
fn test_single_observation_still_correlates() {
    let network = line_network();
    let mut surveillance = SurveillanceOperation::new(network, vec!["node2".to_string()]);
    let htlc = HTLC::new("solo", 700080, 100000, 700000, "node2");
    surveillance.record_htlc_observation(htlc);

    let results = surveillance.run_analysis();
    assert_eq!(results.len(), 1);
    assert_eq!(results[0].payment_hash, "solo");
    assert!(!results[0].recipients.is_empty());
}

#[test]
fn test_correlation_drops_empty_analyses() {
    // An observation whose budget admits no route produces no entry.
    let network = line_network();
    let mut surveillance = SurveillanceOperation::new(network, vec!["node2".to_string()]);
    // Remaining budget 0: no candidate routes at all.
    let dead = HTLC::new("dead", 700000, 100000, 700000, "node2");
    // A live payment beside it.
    let live = HTLC::new("live", 700080, 100000, 700000, "node2");
    surveillance.record_multiple_observations(vec![dead, live]);

    let results = surveillance.run_analysis();
    assert_eq!(results.len(), 1);
    assert_eq!(results[0].payment_hash, "live");
}

#[test]
fn test_record_multiple_keeps_only_observer_nodes() {
    let network = line_network();
    let mut surveillance = SurveillanceOperation::new(network, vec!["node2".to_string()]);
    let from_observer = HTLC::new("a", 700080, 1, 700000, "node2");
    let from_outsider = HTLC::new("b", 700080, 1, 700000, "node3");
    let from_observer2 = HTLC::new("c", 700090, 1, 700000, "node2");
    surveillance.record_multiple_observations(vec![from_observer, from_outsider, from_observer2]);
    let observations = surveillance.get_observations();
    assert_eq!(observations.len(), 2);
    assert_eq!(observations[0].payment_hash, "a");
    assert_eq!(observations[1].payment_hash, "c");
}

#[test]
fn test_register_malicious_node_deduplicates() {
    let network = line_network();
    let mut surveillance = SurveillanceOperation::new(network, vec!["node1".to_string()]);
    surveillance.register_malicious_node("node2");
    surveillance.register_malicious_node("node1");
    surveillance.register_malicious_node("node2");
    assert_eq!(
        surveillance.get_malicious_nodes(),
        &vec!["node1".to_string(), "node2".to_string()]
    );
}

#[test]
fn test_clear_observations() {
    let network = line_network();
    let mut surveillance = SurveillanceOperation::new(network, vec!["node2".to_string()]);
    surveillance.record_htlc_observation(HTLC::new("a", 700080, 1, 700000, "node2"));
    surveillance.record_htlc_observation(HTLC::new("b", 700090, 2, 700000, "node2"));
    assert_eq!(surveillance.get_observations().len(), 2);
    surveillance.clear_observations();
    assert_eq!(surveillance.get_observations().len(), 0);
    assert!(surveillance.run_analysis().is_empty());
}

#[test]
fn test_analyze_single_htlc_matches_direct_analysis() {
    let network = line_network();
    let surveillance = SurveillanceOperation::new(network, vec!["node2".to_string()]);
    let htlc = HTLC::new("hash", 700080, 100000, 700000, "node2");
    let recipients = surveillance.analyze_single_htlc(&htlc);
    assert!(!recipients.is_empty());
    assert_eq!(recipients[0].node_id, "node3");
    assert_eq!(recipients[0].node_alias.as_deref(), Some("Node 3"));
}
