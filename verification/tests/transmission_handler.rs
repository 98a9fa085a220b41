use ap_transmitter::packet::{Fragment, Packet, PacketType, SourceRoutingHeader};
use ap_transmitter::transmitter::single_packet_transmission_handler::SinglePacketTransmissionHandler;
use ap_transmitter::transmitter::transmission_handler::{Command, Decision, Event, TransmissionHandler};
use ap_transmitter::packet::Ack;

fn fragments(n: u64) -> Vec<Fragment> {
    (0..n)
        .map(|i| Fragment { fragment_index: i, total_n_fragments: n, length: 128, data: [i as u8; 128] })
        .collect()
}

#[test]
fn transmission_handler_initialize() {
    let handler = TransmissionHandler::new(0, 1, fragments(2));
    assert_eq!(handler.destination, 1);
    assert_eq!(handler.session_id, 0);
    assert_eq!(handler.fragments, fragments(2));
    assert!(handler.received_acks.is_empty());
    assert_eq!(handler.dropped_count, 0);
}

#[test]
fn check_create_packets() {
    let handler = TransmissionHandler::new(51, 2, fragments(3));

    let expected_packet = Packet {
        routing_header: Default::default(),
        session_id: 51,
        pack_type: PacketType::MsgFragment(handler.fragments[0]),
    };
    assert_eq!(
        expected_packet,
        handler.create_packet_for_fragment(handler.fragments[0], SourceRoutingHeader { hop_index: 0, hops: vec![] })
    );
}

#[test]
fn transmission_completes_after_every_fragment_is_confirmed() {
    let mut handler = TransmissionHandler::new(5, 9, fragments(3));
    assert_eq!(handler.handle_command(Command::Confirmed(2)), Decision::Wait);
    assert_eq!(handler.handle_command(Command::Confirmed(2)), Decision::Wait);
    assert_eq!(handler.handle_command(Command::Confirmed(0)), Decision::Wait);
    assert_eq!(handler.handle_command(Command::Confirmed(1)), Decision::Completed);
    assert_eq!(handler.completion_event(), Event::TransmissionCompleted(5));
}

#[test]
fn quit_and_update_header_commands() {
    let mut handler = TransmissionHandler::new(5, 9, fragments(1));
    assert_eq!(handler.handle_command(Command::UpdateHeader), Decision::RefreshHeader);
    assert_eq!(handler.handle_command(Command::Quit), Decision::Stop);
}

#[test]
fn every_two_hundredth_resend_refreshes_the_route() {
    let mut handler = TransmissionHandler::new(5, 9, fragments(1));
    for _ in 0..199 {
        assert_eq!(
            handler.handle_command(Command::Resend(0)),
            Decision::Resend { fragment_index: 0, refresh_header: false }
        );
    }
    assert_eq!(handler.handle_command(Command::Resend(0)), Decision::Resend { fragment_index: 0, refresh_header: true });
    assert_eq!(handler.dropped_count, 0);
    assert_eq!(
        handler.handle_command(Command::Resend(0)),
        Decision::Resend { fragment_index: 0, refresh_header: false }
    );
}

#[test]
fn resend_out_of_range_fragment_sends_nothing() {
    let handler = TransmissionHandler::new(5, 9, fragments(2));
    let header = TransmissionHandler::routing_header_for(vec![0, 1, 9]);
    assert_eq!(handler.process_resend_command(2, &header), None);
    let packet = handler.process_resend_command(1, &header).unwrap();
    assert_eq!(packet.session_id, 5);
    assert_eq!(packet.routing_header, SourceRoutingHeader { hop_index: 0, hops: vec![0, 1, 9] });
    assert_eq!(packet.pack_type, PacketType::MsgFragment(handler.fragments[1]));
}

#[test]
fn initial_packets_follow_fragment_order() {
    let handler = TransmissionHandler::new(8, 4, fragments(3));
    let header = SourceRoutingHeader { hop_index: 0, hops: vec![0, 4] };
    let packets = handler.initial_packets(&header);
    assert_eq!(packets.len(), 3);
    for (i, packet) in packets.iter().enumerate() {
        assert_eq!(packet.pack_type, PacketType::MsgFragment(handler.fragments[i]));
        assert_eq!(packet.routing_header, header);
        assert_eq!(packet.session_id, 8);
    }
}

#[test]
fn header_refresh_needs_more_than_a_tenth_of_a_second() {
    assert!(!TransmissionHandler::header_refresh_due(100_000_000));
    assert!(TransmissionHandler::header_refresh_due(100_000_001));
    assert!(TransmissionHandler::header_refresh_due(100_500_000));
    assert!(!TransmissionHandler::header_refresh_due(99_999_999));
}

#[test]
fn single_packet_goes_on_the_given_route() {
    let handler = SinglePacketTransmissionHandler::new(PacketType::Ack(Ack { fragment_index: 0 }), 1);
    let packet = handler.send_packet(vec![0, 5, 10]);
    assert_eq!(
        packet,
        Packet {
            routing_header: SourceRoutingHeader { hop_index: 0, hops: vec![0, 5, 10] },
            session_id: 1,
            pack_type: PacketType::Ack(Ack { fragment_index: 0 }),
        }
    );
}

#[test]
fn acknowledgement_of_unknown_fragment_does_not_complete() {
    let mut handler = TransmissionHandler::new(5, 9, fragments(1));
    assert!(!handler.process_confirmed_command(5));
    assert_eq!(handler.handle_command(Command::Confirmed(7)), Decision::Wait);
    assert!(handler.process_confirmed_command(0));
}

#[test]
fn completion_counts_only_fragments_of_the_message() {
    let mut handler = TransmissionHandler::new(5, 9, fragments(1));
    assert_eq!(handler.handle_command(Command::Confirmed(5)), Decision::Wait);
    assert_eq!(handler.handle_command(Command::Confirmed(0)), Decision::Completed);
    let mut two = TransmissionHandler::new(6, 9, fragments(2));
    assert_eq!(two.handle_command(Command::Confirmed(1)), Decision::Wait);
    assert_eq!(two.handle_command(Command::Confirmed(9)), Decision::Wait);
    assert_eq!(two.handle_command(Command::Confirmed(0)), Decision::Completed);
}

#[test]
fn route_is_refreshed_at_the_two_hundredth_and_four_hundredth_resend() {
    let mut handler = TransmissionHandler::new(5, 9, fragments(2));
    for n in 1..=400u32 {
        let expected = n % 200 == 0;
        assert_eq!(
            handler.handle_command(Command::Resend(1)),
            Decision::Resend { fragment_index: 1, refresh_header: expected }
        );
        assert_eq!(handler.dropped_count, (n % 200) as usize);
    }
}

#[test]
fn repeated_and_reordered_acknowledgements_give_the_same_record() {
    let mut first = TransmissionHandler::new(5, 9, fragments(3));
    let mut second = TransmissionHandler::new(5, 9, fragments(3));
    first.process_confirmed_command(2);
    first.process_confirmed_command(2);
    first.process_confirmed_command(0);
    second.process_confirmed_command(0);
    second.process_confirmed_command(2);
    assert_eq!(first.received_acks, second.received_acks);
}
