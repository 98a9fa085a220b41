use std::collections::HashMap;
use crossbeam_channel::{unbounded, Sender};
use ap_transmitter::packet::{Ack, FloodRequest, FloodResponse, NackType, NodeType, Packet, PacketType, SourceRoutingHeader};
use ap_transmitter::transmitter::gateway::Gateway;
use ap_transmitter::PacketCommand;

#[test]
fn gateway_initialize() {
    let node_id = 10;

    let gateway: Gateway<Sender<Packet>> = Gateway::new(node_id, HashMap::new());

    assert_eq!(gateway.node_id, node_id);
    assert!(gateway.neighbors.is_empty());
}

#[test]
fn check_forward_successful() {
    let (tx_drone, rx_drone) = unbounded::<Packet>();
    let mut neighbors = HashMap::new();
    neighbors.insert(1, tx_drone);

    let gateway = Gateway::new(10, neighbors);

    let packet = Packet {
        pack_type: PacketType::Ack(Ack { fragment_index: 0 }),
        routing_header: SourceRoutingHeader { hop_index: 0, hops: vec![10, 1, 2] },
        session_id: 0,
    };

    let (channel, next_hop, packet) = gateway.forward(packet);
    assert_eq!(next_hop, 1);
    channel.send(packet).unwrap();

    let received = rx_drone.recv().unwrap();

    let expected = Packet {
        pack_type: PacketType::Ack(Ack { fragment_index: 0 }),
        routing_header: SourceRoutingHeader { hop_index: 1, hops: vec![10, 1, 2] },
        session_id: 0,
    };
    assert_eq!(received, expected);
}

#[test]
fn send_flood_request() {
    let gateway_node_id = 9;

    let mut drones_rx = Vec::new();
    let mut neighbors = HashMap::new();
    let (tx_drone_1, rx_drone_1) = unbounded::<Packet>();
    neighbors.insert(1, tx_drone_1);
    drones_rx.push(rx_drone_1);
    let (tx_drone_3, rx_drone_3) = unbounded::<Packet>();
    neighbors.insert(3, tx_drone_3);
    drones_rx.push(rx_drone_3);
    let (tx_drone_10, rx_drone_10) = unbounded::<Packet>();
    neighbors.insert(10, tx_drone_10);
    drones_rx.push(rx_drone_10);

    let gateway = Gateway::new(gateway_node_id, neighbors);

    let flood_request = FloodRequest {
        flood_id: 0,
        initiator_id: gateway_node_id,
        path_trace: vec![(gateway_node_id, NodeType::Server)],
    };

    let packet = gateway.send_flood_request(flood_request.clone());
    for channel in gateway.neighbors.values() {
        channel.send(packet.clone()).unwrap();
    }

    let expected = Packet {
        routing_header: SourceRoutingHeader { hop_index: 0, hops: vec![] },
        session_id: 0,
        pack_type: PacketType::FloodRequest(flood_request),
    };

    for channel in &drones_rx {
        let received = channel.recv().unwrap();
        assert_eq!(received, expected);
    }
}

#[test]
fn send_flood_response_successful() {
    let gateway_node_id = 9;

    let mut neighbors = HashMap::new();
    let (tx_drone_1, rx_drone_1) = unbounded::<Packet>();
    neighbors.insert(1, tx_drone_1);

    let gateway = Gateway::new(gateway_node_id, neighbors);

    let flood_response = FloodResponse {
        flood_id: 0,
        path_trace: vec![(gateway_node_id, NodeType::Server), (1, NodeType::Drone)],
    };

    let (channel, forward_to, packet) = gateway.send_flood_response(flood_response.clone());
    assert_eq!(forward_to, 1);
    channel.send(packet).unwrap();

    let received = rx_drone_1.recv().unwrap();

    let expected = Packet {
        routing_header: SourceRoutingHeader { hop_index: 1, hops: vec![gateway_node_id, 1] },
        session_id: 0,
        pack_type: PacketType::FloodResponse(flood_response),
    };
    assert_eq!(received, expected);
}

#[test]
fn check_add_neighbor() {
    let mut gateway: Gateway<Sender<Packet>> = Gateway::new(10, HashMap::new());

    assert_eq!(gateway.neighbors.len(), 0);
    let (tx_drone_5, _rx_drone_5) = unbounded::<Packet>();
    gateway.add_neighbor(5, tx_drone_5);
    assert_eq!(gateway.neighbors.len(), 1);
    let (tx_drone_5, _rx_drone_5) = unbounded::<Packet>();
    gateway.add_neighbor(5, tx_drone_5);
    assert_eq!(gateway.neighbors.len(), 1);
    let (tx_drone_8, _rx_drone_8) = unbounded::<Packet>();
    gateway.add_neighbor(8, tx_drone_8);
    assert_eq!(gateway.neighbors.len(), 2);
}

#[test]
fn check_remove_neighbor() {
    let mut gateway: Gateway<Sender<Packet>> = Gateway::new(10, HashMap::new());

    assert_eq!(gateway.neighbors.len(), 0);
    let (tx_drone_5, _rx_drone_5) = unbounded::<Packet>();
    gateway.add_neighbor(5, tx_drone_5);
    assert_eq!(gateway.neighbors.len(), 1);
    let (tx_drone_5, _rx_drone_5) = unbounded::<Packet>();
    gateway.add_neighbor(5, tx_drone_5);
    assert_eq!(gateway.neighbors.len(), 1);
    let (tx_drone_8, _rx_drone_8) = unbounded::<Packet>();
    gateway.add_neighbor(8, tx_drone_8);
    assert_eq!(gateway.neighbors.len(), 2);
    gateway.remove_neighbor(8);
    assert_eq!(gateway.neighbors.len(), 1);
    gateway.remove_neighbor(5);
    assert_eq!(gateway.neighbors.len(), 0);
}

#[test]
fn routing_error_command_reports_next_hop() {
    let gateway: Gateway<Sender<Packet>> = Gateway::new(4, HashMap::new());
    match gateway.routing_error_command(17, 6) {
        PacketCommand::ProcessNack { session_id, nack, source } => {
            assert_eq!(session_id, 17);
            assert_eq!(nack.fragment_index, 0);
            assert_eq!(nack.nack_type, NackType::ErrorInRouting(6));
            assert_eq!(source, 4);
        },
        other => panic!("unexpected command {other:?}"),
    }
}

#[test]
fn next_hop_of_routes() {
    let header = SourceRoutingHeader { hop_index: 1, hops: vec![3, 4, 5] };
    assert_eq!(header.next_hop(), Some(5));
    let header = SourceRoutingHeader { hop_index: 2, hops: vec![3, 4, 5] };
    assert_eq!(header.next_hop(), None);
    let header = SourceRoutingHeader { hop_index: 0, hops: vec![] };
    assert_eq!(header.next_hop(), None);
}
