use ap_transmitter::packet::{FloodResponse, NodeId, NodeType};
use ap_transmitter::transmitter::network_controller::network_graph::network_node::NetworkNode;
use ap_transmitter::transmitter::network_controller::network_graph::NetworkGraph;

fn create_node(node_id: NodeId, node_type: NodeType) -> NetworkNode {
    NetworkNode::new(node_id, node_type)
}

fn create_node_with(node_id: NodeId, node_type: NodeType, neighbors: Vec<NodeId>) -> NetworkNode {
    let mut node = NetworkNode::new(node_id, node_type);
    node.neighbors = neighbors;
    node
}

#[test]
fn network_graph_initialize() {
    let node_id = 0;
    let node_type = NodeType::Server;
    let graph = NetworkGraph::new(node_id, node_type);

    let expected = NetworkGraph {
        owner_node_id: node_id,
        owner_node_type: node_type,
        nodes: vec![create_node(node_id, node_type)],
    };

    assert_eq!(graph, expected);
}

#[test]
fn insert_two_equal_nodes() {
    let node_id = 0;
    let node_type = NodeType::Server;
    let mut graph = NetworkGraph::new(node_id, node_type);

    let new_node_id = 1;
    let new_node_type = NodeType::Drone;

    graph.insert_node(new_node_id, new_node_type);
    graph.insert_node(new_node_id, new_node_type);

    let expected = NetworkGraph {
        owner_node_id: node_id,
        owner_node_type: node_type,
        nodes: vec![
            create_node(node_id, node_type),
            create_node(new_node_id, new_node_type),
            create_node(new_node_id, new_node_type),
        ],
    };

    assert_eq!(graph, expected);
}

#[test]
fn insert_node_if_not_present_twice() {
    let node_id = 0;
    let node_type = NodeType::Server;
    let mut graph = NetworkGraph::new(node_id, node_type);

    let new_node_id = 1;
    let new_node_type = NodeType::Drone;

    graph.insert_node_if_not_present(new_node_id, new_node_type);
    graph.insert_node_if_not_present(new_node_id, new_node_type);

    let expected = NetworkGraph {
        owner_node_id: node_id,
        owner_node_type: node_type,
        nodes: vec![create_node(node_id, node_type), create_node(new_node_id, new_node_type)],
    };

    assert_eq!(graph, expected);
}

#[test]
fn reset_graph_to_initial_state() {
    let node_id = 0;
    let node_type = NodeType::Server;
    let mut graph = NetworkGraph::new(node_id, node_type);

    graph.insert_node(1, NodeType::Drone);
    graph.insert_node(1, NodeType::Drone);

    let expected = NetworkGraph {
        owner_node_id: node_id,
        owner_node_type: node_type,
        nodes: vec![
            create_node(node_id, node_type),
            create_node(1, NodeType::Drone),
            create_node(1, NodeType::Drone),
        ],
    };

    assert_eq!(graph, expected);

    graph.insert_node_if_not_present(2, NodeType::Drone);
    graph.insert_node_if_not_present(2, NodeType::Drone);

    let expected = NetworkGraph {
        owner_node_id: node_id,
        owner_node_type: node_type,
        nodes: vec![
            create_node(node_id, node_type),
            create_node(1, NodeType::Drone),
            create_node(1, NodeType::Drone),
            create_node(2, NodeType::Drone),
        ],
    };

    assert_eq!(graph, expected);

    graph.reset_graph();

    let expected = NetworkGraph {
        owner_node_id: node_id,
        owner_node_type: node_type,
        nodes: vec![create_node(node_id, node_type)],
    };

    assert_eq!(graph, expected);
}

#[test]
fn add_edges_from_path_trace() {
    let node_id = 0;
    let node_type = NodeType::Server;
    let mut graph = NetworkGraph::new(node_id, node_type);

    let flood_response = FloodResponse {
        flood_id: 0,
        path_trace: vec![
            (node_id, node_type),
            (1, NodeType::Drone),
            (2, NodeType::Drone),
            (3, NodeType::Drone),
            (4, NodeType::Client),
        ],
    };

    graph.insert_edges_from_path_trace(&flood_response.path_trace);

    let expected = NetworkGraph {
        owner_node_id: node_id,
        owner_node_type: node_type,
        nodes: vec![
            create_node_with(node_id, node_type, vec![1]),
            create_node_with(1, NodeType::Drone, vec![0, 2]),
            create_node_with(2, NodeType::Drone, vec![1, 3]),
            create_node_with(3, NodeType::Drone, vec![2, 4]),
            create_node_with(4, NodeType::Client, vec![3]),
        ],
    };

    assert_eq!(graph, expected);
}

#[test]
fn add_bidirectional_graph() {
    let node_id = 0;
    let node_type = NodeType::Server;
    let mut graph = NetworkGraph::new(node_id, node_type);

    graph.insert_node_if_not_present(1, NodeType::Drone);
    graph.insert_node_if_not_present(2, NodeType::Drone);

    let expected = NetworkGraph {
        owner_node_id: node_id,
        owner_node_type: node_type,
        nodes: vec![
            create_node(node_id, node_type),
            create_node(1, NodeType::Drone),
            create_node(2, NodeType::Drone),
        ],
    };

    assert_eq!(graph, expected);

    graph.insert_bidirectional_edge(1, 2);

    assert_eq!(graph.nodes[1], create_node_with(1, NodeType::Drone, vec![2]));
    assert_eq!(graph.nodes[2], create_node_with(2, NodeType::Drone, vec![1]));
}

#[test]
fn delete_edge() {
    let node_id = 0;
    let node_type = NodeType::Server;
    let mut graph = NetworkGraph::new(node_id, node_type);

    graph.insert_node_if_not_present(1, NodeType::Drone);
    graph.insert_node_if_not_present(2, NodeType::Drone);

    let expected = NetworkGraph {
        owner_node_id: node_id,
        owner_node_type: node_type,
        nodes: vec![
            create_node(node_id, node_type),
            create_node(1, NodeType::Drone),
            create_node(2, NodeType::Drone),
        ],
    };

    assert_eq!(graph, expected);

    graph.insert_bidirectional_edge(1, 2);

    assert_eq!(graph.nodes[1], create_node_with(1, NodeType::Drone, vec![2]));
    assert_eq!(graph.nodes[2], create_node_with(2, NodeType::Drone, vec![1]));

    graph.delete_bidirectional_edge(1, 2);

    assert_eq!(graph.nodes[1], create_node(1, NodeType::Drone));
    assert_eq!(graph.nodes[2], create_node(2, NodeType::Drone));
}

#[test]
fn get_path_to_node() {
    let node_id = 0;
    let node_type = NodeType::Server;
    let mut graph = NetworkGraph::new(node_id, node_type);

    let flood_response = FloodResponse {
        flood_id: 0,
        path_trace: vec![
            (node_id, node_type),
            (1, NodeType::Drone),
            (2, NodeType::Drone),
            (3, NodeType::Drone),
            (4, NodeType::Client),
        ],
    };

    graph.insert_edges_from_path_trace(&flood_response.path_trace);

    let hops = graph.get_path_to(100);
    assert_eq!(hops, None);

    let hops = graph.get_path_to(4);
    let expected = Some(vec![0, 1, 2, 3, 4]);
    assert_eq!(hops, expected);

    graph.insert_bidirectional_edge(1, 4);
    let hops = graph.get_path_to(4);
    let expected = Some(vec![0, 1, 4]);
    assert_eq!(hops, expected);
}

#[test]
fn get_path_to_should_return_none() {
    let node_id = 0;
    let node_type = NodeType::Server;
    let mut graph = NetworkGraph::new(node_id, node_type);

    let flood_response = FloodResponse {
        flood_id: 0,
        path_trace: vec![
            (node_id, node_type),
            (1, NodeType::Drone),
            (2, NodeType::Client),
            (3, NodeType::Drone),
            (4, NodeType::Client),
        ],
    };

    graph.insert_edges_from_path_trace(&flood_response.path_trace);

    let hops = graph.get_path_to(4);
    assert_eq!(hops, None);
}

#[test]
fn check_reset_graph() {
    let node_id = 0;
    let node_type = NodeType::Server;
    let mut graph = NetworkGraph::new(node_id, node_type);

    let expected = NetworkGraph {
        owner_node_id: node_id,
        owner_node_type: node_type,
        nodes: vec![create_node(node_id, node_type)],
    };

    assert_eq!(graph, expected);

    graph.reset_graph();

    assert_eq!(graph, expected);

    let flood_response = FloodResponse {
        flood_id: 0,
        path_trace: vec![(node_id, node_type), (1, NodeType::Drone)],
    };

    graph.insert_edges_from_path_trace(&flood_response.path_trace);

    let expected = NetworkGraph {
        owner_node_id: node_id,
        owner_node_type: node_type,
        nodes: vec![
            create_node_with(node_id, node_type, vec![1]),
            create_node_with(1, NodeType::Drone, vec![node_id]),
        ],
    };

    assert_eq!(graph, expected);

    graph.reset_graph();

    let expected = NetworkGraph {
        owner_node_id: node_id,
        owner_node_type: node_type,
        nodes: vec![create_node(node_id, node_type)],
    };

    assert_eq!(graph, expected);
}

#[test]
fn path_to_owner_is_none() {
    let mut graph = NetworkGraph::new(0, NodeType::Server);
    graph.insert_edges_from_path_trace(&[(0, NodeType::Server), (1, NodeType::Drone), (0, NodeType::Server)]);
    assert_eq!(graph.get_path_to(0), None);
}

#[test]
fn cheapest_route_avoids_dropping_drones() {
    // 0 - 1 - 3 and 0 - 2 - 3: node 1 dropped two packets, node 2 one.
    let mut graph = NetworkGraph::new(0, NodeType::Client);
    graph.insert_edges_from_path_trace(&[(0, NodeType::Client), (1, NodeType::Drone), (3, NodeType::Server)]);
    graph.insert_edges_from_path_trace(&[(0, NodeType::Client), (2, NodeType::Drone), (3, NodeType::Server)]);
    assert_eq!(graph.get_path_to(3), Some(vec![0, 1, 3]));
    graph.increment_num_of_dropped_packets(1);
    graph.increment_num_of_dropped_packets(1);
    graph.increment_num_of_dropped_packets(2);
    assert_eq!(graph.get_path_to(3), Some(vec![0, 2, 3]));
    graph.increment_num_of_dropped_packets(2);
    graph.increment_num_of_dropped_packets(2);
    assert_eq!(graph.get_path_to(3), Some(vec![0, 1, 3]));
}

#[test]
fn longer_route_wins_when_cheaper() {
    // 0 - 1 - 9 (1 dropped five) and 0 - 2 - 3 - 4 - 9 (no drops).
    let mut graph = NetworkGraph::new(0, NodeType::Server);
    graph.insert_edges_from_path_trace(&[(0, NodeType::Server), (1, NodeType::Drone), (9, NodeType::Client)]);
    graph.insert_edges_from_path_trace(&[
        (0, NodeType::Server),
        (2, NodeType::Drone),
        (3, NodeType::Drone),
        (4, NodeType::Drone),
        (9, NodeType::Client),
    ]);
    for _ in 0..5 {
        graph.increment_num_of_dropped_packets(1);
    }
    assert_eq!(graph.get_path_to(9), Some(vec![0, 2, 3, 4, 9]));
}

#[test]
fn increment_for_unknown_node_is_ignored() {
    let mut graph = NetworkGraph::new(0, NodeType::Server);
    graph.increment_num_of_dropped_packets(42);
    assert_eq!(graph, NetworkGraph::new(0, NodeType::Server));
}

#[test]
fn delete_edge_with_unknown_node_is_ignored() {
    let mut graph = NetworkGraph::new(0, NodeType::Server);
    graph.insert_edges_from_path_trace(&[(0, NodeType::Server), (1, NodeType::Drone)]);
    let before = graph.clone();
    graph.delete_bidirectional_edge(1, 77);
    assert_eq!(graph, before);
}

#[test]
fn second_insertion_under_another_type_is_ignored() {
    let mut graph = NetworkGraph::new(0, NodeType::Server);
    graph.insert_node_if_not_present(3, NodeType::Drone);
    let once = graph.clone();
    graph.insert_node_if_not_present(3, NodeType::Client);
    assert_eq!(graph, once);
}

#[test]
fn route_through_cycles_repeats_no_node() {
    let mut graph = NetworkGraph::new(0, NodeType::Server);
    graph.insert_edges_from_path_trace(&[
        (0, NodeType::Server),
        (1, NodeType::Drone),
        (2, NodeType::Drone),
        (1, NodeType::Drone),
        (0, NodeType::Server),
        (2, NodeType::Drone),
        (3, NodeType::Drone),
        (2, NodeType::Drone),
        (4, NodeType::Client),
    ]);
    let route = graph.get_path_to(4).unwrap();
    assert_eq!(route, vec![0, 2, 4]);
    let mut seen = std::collections::HashSet::new();
    assert!(route.iter().all(|n| seen.insert(*n)));
}

#[test]
fn learning_the_same_trace_again_adds_no_link() {
    let mut graph = NetworkGraph::new(0, NodeType::Server);
    let trace = [(0, NodeType::Server), (1, NodeType::Drone), (2, NodeType::Client)];
    graph.insert_edges_from_path_trace(&trace);
    let once = graph.clone();
    graph.insert_edges_from_path_trace(&trace);
    assert_eq!(graph, once);
    assert_eq!(graph.nodes[1].neighbors, vec![0, 2]);
}

#[test]
fn stored_link_is_not_stored_again_in_either_direction() {
    let mut graph = NetworkGraph::new(0, NodeType::Server);
    graph.insert_edges_from_path_trace(&[(0, NodeType::Server), (1, NodeType::Drone)]);
    graph.insert_edges_from_path_trace(&[(1, NodeType::Drone), (0, NodeType::Server), (1, NodeType::Drone), (2, NodeType::Client)]);
    assert_eq!(graph.nodes[0].neighbors, vec![1]);
    assert_eq!(graph.nodes[1].neighbors, vec![0, 2]);
    assert_eq!(graph.nodes[2].neighbors, vec![1]);
    graph.delete_bidirectional_edge(0, 1);
    assert_eq!(graph.nodes[0].neighbors, Vec::<NodeId>::new());
    assert_eq!(graph.nodes[1].neighbors, vec![2]);
    assert_eq!(graph.get_path_to(2), None);
}

#[test]
fn node_reports_whether_it_has_an_edge() {
    let node = create_node_with(4, NodeType::Drone, vec![1, 7]);
    assert!(node.has_edge(7));
    assert!(!node.has_edge(4));
}
