use std::collections::HashMap;
use ap_transmitter::packet::{FloodResponse, Nack, NackType, NodeType, Packet, PacketType, SourceRoutingHeader};
use ap_transmitter::transmitter::gateway::Gateway;
use ap_transmitter::transmitter::network_controller::network_graph::NetworkGraph;
use ap_transmitter::transmitter::network_controller::{NetworkController, TopologyUpdate};

#[test]
fn network_controller_initialize() {
    let node_id = 0;
    let node_type = NodeType::Server;

    let network_controller = NetworkController::new(node_id, node_type);

    let expected = NetworkController {
        node_id,
        node_type,
        network_graph: NetworkGraph::new(node_id, node_type),
    };

    assert_eq!(network_controller, expected);
}

#[test]
fn update_from_error_in_routing() {
    let node_id = 0;
    let node_type = NodeType::Server;

    let mut network_controller = NetworkController::new(node_id, node_type);

    /*
    | --------|
    0 -- 1 -- 2 -- 3
              |
              -- 5 -- 8
     */

    let flood_response = FloodResponse {
        flood_id: 0,
        path_trace: vec![(node_id, node_type), (1, NodeType::Drone), (2, NodeType::Drone), (3, NodeType::Client)],
    };
    network_controller.update_from_flood_response(&flood_response);
    let flood_response = FloodResponse {
        flood_id: 0,
        path_trace: vec![(node_id, node_type), (2, NodeType::Drone), (5, NodeType::Drone), (8, NodeType::Server)],
    };
    network_controller.update_from_flood_response(&flood_response);
    let flood_response = FloodResponse {
        flood_id: 0,
        path_trace: vec![(node_id, node_type), (1, NodeType::Drone), (8, NodeType::Server)],
    };
    network_controller.update_from_flood_response(&flood_response);

    let hops = network_controller.get_path(8);
    let expected = Some(vec![0, 1, 8]);
    assert_eq!(hops, expected);

    let nack = Nack { fragment_index: 0, nack_type: NackType::ErrorInRouting(8) };

    let update = network_controller.update_from_nack(&nack, 1);
    assert_eq!(update, TopologyUpdate::Announce);

    let hops = network_controller.get_path(8);
    let expected = Some(vec![0, 2, 5, 8]);
    assert_eq!(hops, expected);
}

#[test]
fn update_from_dropped() {
    let node_id = 0;
    let node_type = NodeType::Server;

    let mut network_controller = NetworkController::new(node_id, node_type);

    let flood_response = FloodResponse {
        flood_id: 0,
        path_trace: vec![(node_id, node_type), (1, NodeType::Drone), (2, NodeType::Drone), (3, NodeType::Client)],
    };
    network_controller.update_from_flood_response(&flood_response);

    let flood_response = FloodResponse {
        flood_id: 0,
        path_trace: vec![(node_id, node_type), (1, NodeType::Drone), (4, NodeType::Drone), (3, NodeType::Client)],
    };
    network_controller.update_from_flood_response(&flood_response);

    let nack = Nack { fragment_index: 0, nack_type: NackType::Dropped };
    let update = network_controller.update_from_nack(&nack, 2);
    assert_eq!(update, TopologyUpdate::Quiet);

    let hops = network_controller.get_path(3);
    let expected = Some(vec![0, 1, 4, 3]);
    assert_eq!(hops, expected);
}

#[test]
fn check_flood_network() {
    let node_id = 0;
    let node_type = NodeType::Server;

    let network_controller = NetworkController::new(node_id, node_type);

    let flood_request = network_controller.flood_network();

    assert_eq!(flood_request.initiator_id, node_id);
    assert_eq!(flood_request.path_trace, vec![(node_id, node_type)]);

    let gateway: Gateway<()> = Gateway::new(node_id, HashMap::from([(1, ()), (2, ())]));
    let packet = gateway.send_flood_request(flood_request.clone());
    assert_eq!(
        packet,
        Packet {
            routing_header: SourceRoutingHeader { hop_index: 0, hops: vec![] },
            session_id: 0,
            pack_type: PacketType::FloodRequest(flood_request),
        }
    );
}

#[test]
fn reset_graph_from_flood() {
    let node_id = 0;
    let node_type = NodeType::Server;

    let mut network_controller = NetworkController::new(node_id, node_type);

    let flood_response = FloodResponse {
        flood_id: 0,
        path_trace: vec![(node_id, node_type), (1, NodeType::Drone), (2, NodeType::Drone), (3, NodeType::Client)],
    };

    network_controller.update_from_flood_response(&flood_response);

    let nack = Nack { fragment_index: 0, nack_type: NackType::DestinationIsDrone };
    let update = network_controller.update_from_nack(&nack, 1);

    assert_eq!(network_controller.network_graph.nodes.len(), 1);
    match update {
        TopologyUpdate::AnnounceAndFlood(flood_request) => {
            assert_eq!(flood_request.initiator_id, node_id);
            assert_eq!(flood_request.path_trace, vec![(node_id, node_type)]);
        },
        other => panic!("unexpected update {other:?}"),
    }
}

#[test]
fn unexpected_recipient_resets_topology() {
    let mut network_controller = NetworkController::new(3, NodeType::Client);
    network_controller.insert_neighbor(7);
    let nack = Nack { fragment_index: 4, nack_type: NackType::UnexpectedRecipient(9) };
    let update = network_controller.update_from_nack(&nack, 7);
    assert!(matches!(update, TopologyUpdate::AnnounceAndFlood(_)));
    assert_eq!(network_controller, NetworkController::new(3, NodeType::Client));
}

#[test]
fn neighbor_insertion_and_deletion() {
    let mut network_controller = NetworkController::new(0, NodeType::Server);
    network_controller.insert_neighbor(5);
    network_controller.insert_neighbor(5);
    assert_eq!(network_controller.network_graph.nodes.len(), 2);
    assert_eq!(network_controller.network_graph.nodes[0].neighbors, vec![5, 5]);
    assert_eq!(network_controller.network_graph.nodes[1].neighbors, vec![0, 0]);
    assert_eq!(network_controller.network_graph.nodes[1].node_type, NodeType::Drone);
    assert_eq!(network_controller.get_path(5), Some(vec![0, 5]));
    network_controller.delete_neighbor_edge(5);
    assert_eq!(network_controller.network_graph.nodes[0].neighbors, vec![5]);
    network_controller.delete_neighbor_edge(5);
    assert_eq!(network_controller.get_path(5), None);
}

#[test]
fn dropped_count_and_event_graph() {
    let mut network_controller = NetworkController::new(0, NodeType::Server);
    network_controller.update_from_flood_response(&FloodResponse {
        flood_id: 1,
        path_trace: vec![(0, NodeType::Server), (1, NodeType::Drone), (2, NodeType::Client)],
    });
    network_controller.increment_dropped_count(1);
    network_controller.increment_dropped_count(1);
    assert_eq!(network_controller.network_graph.nodes[1].get_num_of_dropped_packets(), 2);
    let graph = network_controller.get_event_graph();
    assert_eq!(graph.len(), 3);
    assert_eq!(graph[1].node_id, 1);
    assert_eq!(graph[1].node_type, NodeType::Drone);
    assert_eq!(graph[1].neighbors, vec![0, 2]);
    assert_eq!(graph[2].neighbors, vec![1]);
}

#[test]
fn periodic_flood_forgets_the_known_topology() {
    let mut network_controller = NetworkController::new(3, NodeType::Client);
    network_controller.update_from_flood_response(&FloodResponse {
        flood_id: 1,
        path_trace: vec![(3, NodeType::Client), (4, NodeType::Drone), (5, NodeType::Server)],
    });
    assert_eq!(network_controller.network_graph.nodes.len(), 3);
    let flood_request = network_controller.reset_and_flood();
    assert_eq!(network_controller.network_graph, NetworkGraph::new(3, NodeType::Client));
    assert_eq!(flood_request.initiator_id, 3);
    assert_eq!(flood_request.path_trace, vec![(3, NodeType::Client)]);
}
