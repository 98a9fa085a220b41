//! Sending one packet (an acknowledgement or a negative one) on the cheapest known route.
use vstd::prelude::*;
use crate::packet::{NodeId, Packet, PacketType, SourceRoutingHeader};

verus! {

/// A packet body waiting for a route.
pub struct SinglePacketTransmissionHandler {
    pub packet_type: PacketType,
    pub session_id: u64,
}

impl SinglePacketTransmissionHandler {
    /// A handler for `packet_type` in session `session_id`.
    pub fn new(packet_type: PacketType, session_id: u64) -> (r: Self)
        ensures
            r.packet_type == packet_type,
            r.session_id == session_id,
    {
        SinglePacketTransmissionHandler { packet_type, session_id }
    }

    /// The packet to send once a route `hops` (from this node to the destination) is known.
    pub fn send_packet(self, hops: Vec<NodeId>) -> (r: Packet)
        ensures
            r.routing_header.hop_index == 0,
            r.routing_header.hops@ == hops@,
            r.session_id == self.session_id,
            r.pack_type == self.packet_type,
    {
        Packet {
            routing_header: SourceRoutingHeader { hop_index: 0, hops },
            session_id: self.session_id,
            pack_type: self.packet_type,
        }
    }
}

} // verus!
