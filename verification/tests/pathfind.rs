use thelma::network::{Channel, LightningNetworkMap, Node};
use thelma::pathfind::{find_all_paths, generate_random_path, InputError};

#[test]
fn test_path_finding() {
    // Create a test network
    let mut network = LightningNetworkMap::new(700000);

    // Add nodes in a simple path
    let nodes = vec![
        Node::new("node1", "Node 1", 20),
        Node::new("node2", "Node 2", 20),
        Node::new("node3", "Node 3", 20),
        Node::new("node4", "Node 4", 20),
    ];

    for node in nodes {
        network.add_node(node);
    }

    // Connect in a line
    network.add_channel(Channel::new("chan1", "node1", "node2", 1000000));
    network.add_channel(Channel::new("chan2", "node2", "node3", 1000000));
    network.add_channel(Channel::new("chan3", "node3", "node4", 1000000));

    // Add a shortcut
    network.add_channel(Channel::new("chan4", "node1", "node4", 1000000));

    // Test basic path finding
    let path = generate_random_path(&network, "node1", "node4").unwrap();
    assert!(!path.is_empty());
    assert_eq!(path[0], "node1");
    assert_eq!(path[path.len() - 1], "node4");

    // Test finding all paths
    let all_paths = find_all_paths(&network, "node1", "node4", 3);
    assert_eq!(all_paths.len(), 2); // There should be 2 paths: direct and through nodes 2-3
}

#[test]
fn test_path_to_unknown_node_is_an_error() {
    let mut network = LightningNetworkMap::new(700000);
    network.add_node(Node::new("node1", "Node 1", 20));

    assert_eq!(
        generate_random_path(&network, "node1", "missing"),
        Err(InputError::UnknownNode)
    );
    assert_eq!(
        generate_random_path(&network, "missing", "node1"),
        Err(InputError::UnknownNode)
    );
}

#[test]
fn test_path_between_disconnected_nodes_is_empty() {
    let mut network = LightningNetworkMap::new(700000);
    network.add_node(Node::new("node1", "Node 1", 20));
    network.add_node(Node::new("node2", "Node 2", 20));
    // No channel between them.
    let path = generate_random_path(&network, "node1", "node2").unwrap();
    assert!(path.is_empty());
    // A node to itself also gives the empty answer.
    let path = generate_random_path(&network, "node1", "node1").unwrap();
    assert!(path.is_empty());
}

#[test]
fn test_all_paths_are_simple_and_end_at_target() {
    let mut network = LightningNetworkMap::new(700000);
    for key in ["a", "b", "c", "d"] {
        network.add_node(Node::new(key, key, 20));
    }
    // A square: a-b, b-d, a-c, c-d.
    network.add_channel(Channel::new("c1", "a", "b", 1));
    network.add_channel(Channel::new("c2", "b", "d", 1));
    network.add_channel(Channel::new("c3", "a", "c", 1));
    network.add_channel(Channel::new("c4", "c", "d", 1));

    let paths = find_all_paths(&network, "a", "d", 3);
    assert_eq!(paths.len(), 2);
    for p in &paths {
        assert_eq!(p[0], "a");
        assert_eq!(p[p.len() - 1], "d");
        let mut sorted = p.clone();
        sorted.sort();
        sorted.dedup();
        assert_eq!(sorted.len(), p.len());
    }
}
