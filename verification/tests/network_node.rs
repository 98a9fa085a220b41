use ap_transmitter::packet::NodeType;
use ap_transmitter::transmitter::network_controller::network_graph::network_node::NetworkNode;

#[test]
fn initialize_no_neighbors() {
    let node_id = 0;
    let node_type = NodeType::Server;
    let node = NetworkNode::new(node_id, node_type);

    let expected = NetworkNode {
        node_id,
        node_type,
        num_of_dropped_packets: 0,
        neighbors: vec![],
    };

    assert_eq!(node, expected);
}

#[test]
fn add_neighbors() {
    let node_id = 0;
    let node_type = NodeType::Server;
    let mut node = NetworkNode::new(node_id, node_type);

    node.insert_edge(1);

    let expected = NetworkNode {
        node_id,
        node_type,
        num_of_dropped_packets: 0,
        neighbors: vec![1],
    };

    assert_eq!(node, expected);
}

#[test]
fn remove_neighbors() {
    let node_id = 0;
    let node_type = NodeType::Server;
    let mut node = NetworkNode::new(node_id, node_type);

    node.insert_edge(1);

    let expected = NetworkNode {
        node_id,
        node_type,
        num_of_dropped_packets: 0,
        neighbors: vec![1],
    };

    assert_eq!(node, expected);

    node.remove_edge(1);

    let expected = NetworkNode {
        node_id,
        node_type,
        num_of_dropped_packets: 0,
        neighbors: vec![],
    };

    assert_eq!(node, expected);
}

#[test]
fn increment_dropped_packets() {
    let node_id = 0;
    let node_type = NodeType::Server;
    let mut node = NetworkNode::new(node_id, node_type);

    node.increment_dropped_packets();
    node.increment_dropped_packets();
    node.increment_dropped_packets();

    let expected = 3;

    assert_eq!(node.get_num_of_dropped_packets(), expected);

    node.reset_num_of_dropped_packets();

    let expected = 0;

    assert_eq!(node.get_num_of_dropped_packets(), expected);
}

#[test]
fn remove_edge_takes_only_the_first_occurrence() {
    let mut node = NetworkNode::new(7, NodeType::Drone);
    node.insert_edge(3);
    node.insert_edge(5);
    node.insert_edge(3);
    node.remove_edge(3);
    assert_eq!(node.neighbors, vec![5, 3]);
}

#[test]
fn remove_missing_edge_changes_nothing() {
    let mut node = NetworkNode::new(7, NodeType::Drone);
    node.insert_edge(5);
    node.remove_edge(9);
    assert_eq!(node.neighbors, vec![5]);
    assert_eq!(node.get_num_of_dropped_packets(), 0);
}
