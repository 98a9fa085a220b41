use crossbeam_channel::{unbounded, Sender};
use ap_transmitter::packet::{
    Ack, FloodRequest, FloodResponse, Nack, NackType, NodeType, Packet, PacketType, SourceRoutingHeader,
};
use ap_transmitter::transmitter::transmission_handler::Command as HandlerCommand;
use ap_transmitter::transmitter::{Action, DroneCommand, NeighborAction};
use ap_transmitter::{Command, PacketCommand, Transmitter};

#[test]
fn transmitter_initialize() {
    let transmitter: Transmitter<Sender<HandlerCommand>> = Transmitter::new(0, NodeType::Server, 60_000);
    assert_eq!(transmitter.get_node_id(), 0);
    assert_eq!(transmitter.node_type, NodeType::Server);
    assert!(transmitter.transmission_handlers.is_empty());
    assert_eq!(transmitter.flood_interval_ns, 60_000);
}

#[test]
fn check_process_high_level_message() {
    let mut transmitter = Transmitter::new(0, NodeType::Server, 60_000);
    let (command_tx, _command_rx) = unbounded::<HandlerCommand>();
    transmitter.register_handler(0, command_tx);
    assert_eq!(transmitter.transmission_handlers.len(), 1);
}

#[test]
fn flood_request_is_answered_with_reversed_trace() {
    let transmitter: Transmitter<Sender<HandlerCommand>> = Transmitter::new(5, NodeType::Client, 1000);
    let flood_request = FloodRequest {
        flood_id: 77,
        initiator_id: 1,
        path_trace: vec![(1, NodeType::Server), (2, NodeType::Drone), (3, NodeType::Drone)],
    };
    let packet = transmitter.process_flood_request(flood_request).unwrap();
    let expected_response = FloodResponse {
        flood_id: 77,
        path_trace: vec![(5, NodeType::Client), (3, NodeType::Drone), (2, NodeType::Drone), (1, NodeType::Server)],
    };
    assert_eq!(
        packet,
        Packet {
            routing_header: SourceRoutingHeader { hop_index: 1, hops: vec![5, 3, 2, 1] },
            session_id: 0,
            pack_type: PacketType::FloodResponse(expected_response),
        }
    );
}

#[test]
fn flood_request_processing_replies_through_the_previous_drone() {
    let transmitter: Transmitter<Sender<HandlerCommand>> = Transmitter::new(0, NodeType::Server, 60_000);
    let flood_request = FloodRequest {
        flood_id: 7,
        initiator_id: 3,
        path_trace: vec![(3, NodeType::Client), (1, NodeType::Drone)],
    };
    let expected = Packet {
        routing_header: SourceRoutingHeader { hop_index: 1, hops: vec![0, 1, 3] },
        session_id: 0,
        pack_type: PacketType::FloodResponse(FloodResponse {
            flood_id: 7,
            path_trace: vec![(0, NodeType::Server), (1, NodeType::Drone), (3, NodeType::Client)],
        }),
    };
    assert_eq!(
        transmitter.process_packet_command(PacketCommand::ProcessFloodRequest(flood_request)),
        vec![Action::ReplyToFlood(expected)]
    );
}

#[test]
fn own_flood_request_is_ignored() {
    let transmitter: Transmitter<Sender<HandlerCommand>> = Transmitter::new(5, NodeType::Client, 1000);
    let flood_request = FloodRequest { flood_id: 1, initiator_id: 5, path_trace: vec![(5, NodeType::Client)] };
    assert_eq!(transmitter.process_flood_request(flood_request.clone()), None);
    assert_eq!(transmitter.process_packet_command(PacketCommand::ProcessFloodRequest(flood_request)), vec![]);
}

#[test]
fn dropped_nack_counts_and_resends() {
    let transmitter: Transmitter<Sender<HandlerCommand>> = Transmitter::new(0, NodeType::Server, 1000);
    let nack = Nack { fragment_index: 3, nack_type: NackType::Dropped };
    let actions = transmitter.process_packet_command(PacketCommand::ProcessNack { session_id: 9, nack, source: 2 });
    assert_eq!(
        actions,
        vec![
            Action::LearnFromNack { nack, source: 2 },
            Action::CountDrop(2),
            Action::HandlerCommand { session_id: 9, command: HandlerCommand::Resend(3), source: 2 },
        ]
    );
}

#[test]
fn routing_error_nack_refreshes_route_then_resends() {
    let transmitter: Transmitter<Sender<HandlerCommand>> = Transmitter::new(0, NodeType::Server, 1000);
    let nack = Nack { fragment_index: 1, nack_type: NackType::ErrorInRouting(4) };
    let actions = transmitter.process_nack(9, &nack, 2);
    assert_eq!(
        actions,
        vec![
            Action::LearnFromNack { nack, source: 2 },
            Action::HandlerCommand { session_id: 9, command: HandlerCommand::UpdateHeader, source: 2 },
            Action::HandlerCommand { session_id: 9, command: HandlerCommand::Resend(1), source: 2 },
        ]
    );
    let nack = Nack { fragment_index: 1, nack_type: NackType::DestinationIsDrone };
    assert_eq!(transmitter.process_nack(9, &nack, 2), vec![Action::LearnFromNack { nack, source: 2 }]);
}

#[test]
fn acks_are_sent_and_forwarded() {
    let transmitter: Transmitter<Sender<HandlerCommand>> = Transmitter::new(0, NodeType::Server, 1000);
    let actions = transmitter.process_packet_command(PacketCommand::SendAckFor { session_id: 4, fragment_index: 2, destination: 7 });
    assert_eq!(
        actions,
        vec![Action::SpawnSinglePacket { session_id: 4, destination: 7, packet_type: PacketType::Ack(Ack { fragment_index: 2 }) }]
    );
    let actions = transmitter.process_packet_command(PacketCommand::ForwardAckTo { session_id: 4, ack: Ack { fragment_index: 2 }, source: 7 });
    assert_eq!(actions, vec![Action::HandlerCommand { session_id: 4, command: HandlerCommand::Confirmed(2), source: 7 }]);
}

#[test]
fn gateway_report_becomes_a_nack_to_send() {
    let transmitter: Transmitter<Sender<HandlerCommand>> = Transmitter::new(0, NodeType::Server, 1000);
    let nack = Nack { fragment_index: 0, nack_type: NackType::UnexpectedRecipient(0) };
    let actions = transmitter.process_gateway_command(PacketCommand::SendNack { session_id: 3, nack, destination: 8 });
    assert_eq!(actions, vec![Action::SpawnSinglePacket { session_id: 3, destination: 8, packet_type: PacketType::Nack(nack) }]);
}

#[test]
fn command_for_unknown_session_is_answered_with_nack() {
    let mut transmitter = Transmitter::new(6, NodeType::Server, 1000);
    let (command_tx, command_rx) = unbounded::<HandlerCommand>();
    transmitter.register_handler(1, command_tx);
    match transmitter.send_transmission_handler_command(2, 9) {
        Err(PacketCommand::SendNack { session_id, nack, destination }) => {
            assert_eq!(session_id, 2);
            assert_eq!(nack.nack_type, NackType::UnexpectedRecipient(6));
            assert_eq!(destination, 9);
        },
        _ => panic!("expected a nack"),
    }
    let handler = transmitter.send_transmission_handler_command(1, 9).unwrap();
    handler.send(HandlerCommand::Quit).unwrap();
    assert_eq!(command_rx.recv().unwrap(), HandlerCommand::Quit);
    transmitter.remove_handler(1);
    assert!(transmitter.send_transmission_handler_command(1, 9).is_err());
}

#[test]
fn flooding_is_due_after_the_interval() {
    let transmitter: Transmitter<Sender<HandlerCommand>> = Transmitter::new(0, NodeType::Server, 1000);
    assert!(!transmitter.flood_due(999));
    assert!(transmitter.flood_due(1000));
    assert_eq!(Command::Quit, Command::Quit);
}

#[test]
fn periodic_flood_resets_the_topology_once_due() {
    let transmitter: Transmitter<Sender<HandlerCommand>> = Transmitter::new(0, NodeType::Server, 1_500_000);
    assert_eq!(transmitter.flood_actions(1_499_999), vec![]);
    assert_eq!(transmitter.flood_actions(1_500_000), vec![Action::ResetAndFlood]);
    assert_eq!(transmitter.flood_actions(u128::MAX), vec![Action::ResetAndFlood]);
}

#[test]
fn neighbour_changes_update_topology_then_gateway() {
    let transmitter: Transmitter<Sender<HandlerCommand>> = Transmitter::new(0, NodeType::Server, 1000);
    assert!(!DroneCommand::<&str>::Crash.is_supported());
    assert!(!DroneCommand::<&str>::SetPacketDropRate.is_supported());
    assert!(DroneCommand::AddSender(4, "channel to 4").is_supported());
    let actions = transmitter.process_drone_command(DroneCommand::AddSender(4, "channel to 4"));
    assert_eq!(actions.len(), 2);
    assert!(matches!(actions[0], NeighborAction::LinkNeighbor(4)));
    assert!(matches!(actions[1], NeighborAction::OpenChannel(4, "channel to 4")));
    let actions = transmitter.process_drone_command(DroneCommand::<&str>::RemoveSender(4));
    assert_eq!(actions.len(), 2);
    assert!(matches!(actions[0], NeighborAction::UnlinkNeighbor(4)));
    assert!(matches!(actions[1], NeighborAction::CloseChannel(4)));
}

#[test]
fn quit_reaches_every_handler_once() {
    let mut transmitter = Transmitter::new(6, NodeType::Client, 1000);
    assert_eq!(transmitter.process_command(Command::Quit), vec![]);
    for session_id in [3, 8, 11] {
        let (command_tx, _command_rx) = unbounded::<HandlerCommand>();
        transmitter.register_handler(session_id, command_tx);
    }
    let mut sessions: Vec<u64> = transmitter
        .process_command(Command::Quit)
        .into_iter()
        .map(|action| match action {
            Action::HandlerCommand { session_id, command: HandlerCommand::Quit, source: 6 } => session_id,
            other => panic!("unexpected {other:?}"),
        })
        .collect();
    sessions.sort();
    assert_eq!(sessions, vec![3, 8, 11]);
}
