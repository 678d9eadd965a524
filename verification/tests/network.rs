use thelma::network::{Channel, LightningNetworkMap, Node};

#[test]
fn test_add_node() {
    let mut network = LightningNetworkMap::new(700000);
    let node = Node::new("test_key", "Test Node", 40);
    network.add_node(node);

    assert_eq!(network.node_count(), 1);
    assert!(network.contains_node("test_key"));
}

#[test]
fn test_add_channel() {
    let mut network = LightningNetworkMap::new(700000);
    let node1 = Node::new("key1", "Node 1", 40);
    let node2 = Node::new("key2", "Node 2", 40);

    network.add_node(node1);
    network.add_node(node2);

    network.add_channel(Channel::new("chan1", "key1", "key2", 1000000));

    assert_eq!(network.channel_count(), 1);
    assert!(network.get_neighbors("key1").unwrap().contains(&"key2".to_string()));
    assert!(network.get_neighbors("key2").unwrap().contains(&"key1".to_string()));
}

#[test]
fn test_find_routes() {
    let mut network = LightningNetworkMap::new(700000);

    // Add nodes in a simple path
    let nodes = vec![
        Node::new("node1", "Node 1", 20),
        Node::new("node2", "Node 2", 20),
        Node::new("node3", "Node 3", 20),
        Node::new("node4", "Node 4", 20),
    ];

    for node in nodes {
        network.add_node(node);
    }

    // Connect in a line
    network.add_channel(Channel::new("chan1", "node1", "node2", 1000000));
    network.add_channel(Channel::new("chan2", "node2", "node3", 1000000));
    network.add_channel(Channel::new("chan3", "node3", "node4", 1000000));

    // Budget for exactly 2 hops (node1 -> node2 -> node3)
    let routes = network.find_possible_routes_with_budget("node1", 40, 3);
    assert!(routes.contains(&vec!["node1".to_string(), "node2".to_string(), "node3".to_string()]));

    // Budget for all 3 hops
    let routes = network.find_possible_routes_with_budget("node1", 60, 3);
    assert!(routes.contains(&vec![
        "node1".to_string(),
        "node2".to_string(),
        "node3".to_string(),
        "node4".to_string()
    ]));
}

#[test]
fn test_line_graph_enumeration_is_exact() {
    // In a line with all deltas 20 the accepted routes are exactly the
    // prefixes whose consumed budget lies in [budget - 40, budget].
    let mut network = LightningNetworkMap::new(700000);
    for (key, alias) in [
        ("node1", "Node 1"),
        ("node2", "Node 2"),
        ("node3", "Node 3"),
        ("node4", "Node 4"),
    ] {
        network.add_node(Node::new(key, alias, 20));
    }
    network.add_channel(Channel::new("chan1", "node1", "node2", 1000000));
    network.add_channel(Channel::new("chan2", "node2", "node3", 1000000));
    network.add_channel(Channel::new("chan3", "node3", "node4", 1000000));

    // Budget 60, window [20, 60]: all three prefixes qualify.
    let mut routes = network.find_possible_routes_with_budget("node1", 60, 4);
    routes.sort();
    let expected: Vec<Vec<String>> = vec![
        vec!["node1".into(), "node2".into()],
        vec!["node1".into(), "node2".into(), "node3".into()],
        vec!["node1".into(), "node2".into(), "node3".into(), "node4".into()],
    ];
    assert_eq!(routes, expected);

    // Budget 40, window [0, 40]: the full line consumes 60 and is omitted.
    let mut routes = network.find_possible_routes_with_budget("node1", 40, 4);
    routes.sort();
    let expected: Vec<Vec<String>> = vec![
        vec!["node1".into(), "node2".into()],
        vec!["node1".into(), "node2".into(), "node3".into()],
    ];
    assert_eq!(routes, expected);

    // Window excludes cheap prefixes once the budget is high: budget 100,
    // window [60, 100], only the full line (60) qualifies.
    let routes = network.find_possible_routes_with_budget("node1", 100, 4);
    let expected: Vec<Vec<String>> = vec![
        vec!["node1".into(), "node2".into(), "node3".into(), "node4".into()],
    ];
    assert_eq!(routes, expected);
}

#[test]
fn test_unknown_start_yields_empty() {
    let mut network = LightningNetworkMap::new(700000);
    network.add_node(Node::new("node1", "Node 1", 20));
    let routes = network.find_possible_routes_with_budget("missing", 100, 3);
    assert!(routes.is_empty());
}

#[test]
fn test_add_node_replaces_and_keeps_neighbors() {
    let mut network = LightningNetworkMap::new(700000);
    network.add_node(Node::new("a", "A", 20));
    network.add_node(Node::new("b", "B", 20));
    network.add_channel(Channel::new("c1", "a", "b", 1));
    // Re-adding "a" with new settings keeps the node count and adjacency.
    network.add_node(Node::new("a", "A again", 33));
    assert_eq!(network.node_count(), 2);
    assert!(network.get_neighbors("a").unwrap().contains(&"b".to_string()));
    let node = network.get_node(&"a".to_string()).unwrap();
    assert_eq!(node.cltv_expiry_delta, 33);
    assert_eq!(node.alias, "A again");
}
