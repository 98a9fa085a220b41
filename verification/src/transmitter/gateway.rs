//! The node's door to its neighbours: which channel leads to which neighbour,
//! and how packets are prepared for the next hop.
use vstd::prelude::*;
use std::collections::HashMap;
use crate::packet::{
    spec_next_hop, FloodRequest, FloodResponse, Nack, NackType, NodeId, NodeType, Packet, PacketType,
    SourceRoutingHeader,
};
use crate::transmitter::PacketCommand;

verus! {

broadcast use vstd::std_specs::hash::group_hash_axioms;

/// The node ids of a path trace, in order.
pub open spec fn trace_ids(trace: Seq<(NodeId, NodeType)>) -> Seq<NodeId> {
    trace.map_values(|e: (NodeId, NodeType)| e.0)
}

/// The packet that carries `flood_response` back along its path trace: its
/// route is the trace itself, and it is handed to the trace's second node.
pub fn flood_response_packet(flood_response: FloodResponse) -> (r: Packet)
    ensures
        r.routing_header.hop_index == 1,
        r.routing_header.hops@ == trace_ids(flood_response.path_trace@),
        r.session_id == 0,
        r.pack_type == PacketType::FloodResponse(flood_response),
{
    let mut hops: Vec<NodeId> = Vec::new();
    let mut i: usize = 0;
    while i < flood_response.path_trace.len()
        invariant
            i <= flood_response.path_trace@.len(),
            hops@ == trace_ids(flood_response.path_trace@.take(i as int)),
        decreases flood_response.path_trace@.len() - i,
    {
        hops.push(flood_response.path_trace[i].0);
        proof {
            assert(hops@ =~= trace_ids(flood_response.path_trace@.take(i + 1)));
        }
        i = i + 1;
    }
    proof {
        assert(flood_response.path_trace@.take(i as int) =~= flood_response.path_trace@);
    }
    Packet {
        routing_header: SourceRoutingHeader { hop_index: 1, hops },
        session_id: 0,
        pack_type: PacketType::FloodResponse(flood_response),
    }
}

/// The channels towards the neighbours of a node, one per neighbour id.
/// `C` is the sending end of a channel.
pub struct Gateway<C> {
    pub node_id: NodeId,
    pub neighbors: HashMap<NodeId, C>,
}

impl<C> Gateway<C> {
    /// A gateway for `node_id` with the given channels.
    pub fn new(node_id: NodeId, neighbors: HashMap<NodeId, C>) -> (r: Self)
        ensures
            r.node_id == node_id,
            r.neighbors@ == neighbors@,
    {
        Gateway { node_id, neighbors }
    }

    /// Whether there is a channel towards `node_id`.
    pub fn has_channel(&self, node_id: NodeId) -> (r: bool)
        ensures
            r == self.neighbors@.contains_key(node_id),
    {
        self.neighbors.contains_key(&node_id)
    }

    /// The packet that floods `flood_request` to every neighbour: it carries no route.
    pub fn send_flood_request(&self, flood_request: FloodRequest) -> (r: Packet)
        ensures
            r.routing_header.hop_index == 0,
            r.routing_header.hops@ == Seq::<NodeId>::empty(),
            r.session_id == 0,
            r.pack_type == PacketType::FloodRequest(flood_request),
    {
        Packet {
            routing_header: SourceRoutingHeader { hop_index: 0, hops: Vec::new() },
            session_id: 0,
            pack_type: PacketType::FloodRequest(flood_request),
        }
    }

    /// Prepares a flood response to travel back along its path trace: the route
    /// is the trace itself, the packet is handed to the second node of the trace.
    /// The trace must have a second node, and that node must have a channel.
    pub fn send_flood_response(&self, flood_response: FloodResponse) -> (r: (&C, NodeId, Packet))
        requires
            flood_response.path_trace@.len() >= 2,
            self.neighbors@.contains_key(flood_response.path_trace@[1].0),
        ensures
            r.1 == flood_response.path_trace@[1].0,
            *r.0 == self.neighbors@[r.1],
            r.2.routing_header.hop_index == 1,
            r.2.routing_header.hops@ == trace_ids(flood_response.path_trace@),
            r.2.session_id == 0,
            r.2.pack_type == PacketType::FloodResponse(flood_response),
    {
        let forward_to = flood_response.path_trace[1].0;
        let channel = self.neighbors.get(&forward_to).unwrap();
        let packet = flood_response_packet(flood_response);
        (channel, forward_to, packet)
    }

    /// Advances `packet` one hop along its route and picks the channel towards
    /// that hop. The route must have a next hop, and that hop must have a channel.
    pub fn forward(&self, packet: Packet) -> (r: (&C, NodeId, Packet))
        requires
            spec_next_hop(packet.routing_header.hop_index as int, packet.routing_header.hops@) is Some,
            self.neighbors@.contains_key(
                spec_next_hop(packet.routing_header.hop_index as int, packet.routing_header.hops@).unwrap(),
            ),
        ensures
            Some(r.1) == spec_next_hop(packet.routing_header.hop_index as int, packet.routing_header.hops@),
            *r.0 == self.neighbors@[r.1],
            r.2.routing_header.hop_index == packet.routing_header.hop_index + 1,
            r.2.routing_header.hops@ == packet.routing_header.hops@,
            r.2.session_id == packet.session_id,
            r.2.pack_type == packet.pack_type,
    {
        let mut packet = packet;
        let next_hop = packet.routing_header.next_hop().unwrap();
        assert(packet.routing_header.hop_index + 1 < packet.routing_header.hops.len());
        packet.routing_header.hop_index = packet.routing_header.hop_index + 1;
        let channel = self.neighbors.get(&next_hop).unwrap();
        (channel, next_hop, packet)
    }

    /// The command that reports back to the transmitter that a packet of
    /// `session_id` could not be handed to `next_hop`.
    pub fn routing_error_command(&self, session_id: u64, next_hop: NodeId) -> (r: PacketCommand)
        ensures
            r == (PacketCommand::ProcessNack {
                session_id,
                nack: Nack { fragment_index: 0, nack_type: NackType::ErrorInRouting(next_hop) },
                source: self.node_id,
            }),
    {
        PacketCommand::ProcessNack {
            session_id,
            nack: Nack { fragment_index: 0, nack_type: NackType::ErrorInRouting(next_hop) },
            source: self.node_id,
        }
    }

    /// Adds the channel towards `node_id`, replacing any previous one.
    pub fn add_neighbor(&mut self, node_id: NodeId, channel: C)
        ensures
            final(self).node_id == old(self).node_id,
            final(self).neighbors@ == old(self).neighbors@.insert(node_id, channel),
    {
        self.neighbors.insert(node_id, channel);
    }

    /// Drops the channel towards `node_id`, if any.
    pub fn remove_neighbor(&mut self, node_id: NodeId)
        ensures
            final(self).node_id == old(self).node_id,
            final(self).neighbors@ == old(self).neighbors@.remove(node_id),
    {
        self.neighbors.remove(&node_id);
    }
}

} // verus!
