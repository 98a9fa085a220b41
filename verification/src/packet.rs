//! The packet vocabulary exchanged between the nodes of the network.
use vstd::prelude::*;

verus! {

/// Identifier of a node of the network.
pub type NodeId = u8;

/// Number of payload bytes carried by one fragment.
pub const FRAGMENT_DSIZE: usize = 128;

/// The role of a node.
#[derive(Clone, Copy, Debug, PartialEq, Eq, Structural)]
pub enum NodeType {
    Client,
    Drone,
    Server,
}

/// Why a packet could not be delivered.
#[derive(Clone, Copy, Debug, PartialEq, Eq, Structural)]
pub enum NackType {
    ErrorInRouting(NodeId),
    DestinationIsDrone,
    Dropped,
    UnexpectedRecipient(NodeId),
}

/// A negative acknowledgement for one fragment.
#[derive(Clone, Copy, Debug, PartialEq, Eq, Structural)]
pub struct Nack {
    pub fragment_index: u64,
    pub nack_type: NackType,
}

/// An acknowledgement for one fragment.
#[derive(Clone, Copy, Debug, PartialEq, Eq, Structural)]
pub struct Ack {
    pub fragment_index: u64,
}

/// A request that explores the network; every node appends itself to `path_trace`.
#[derive(Clone, Debug, PartialEq, Eq)]
pub struct FloodRequest {
    pub flood_id: u64,
    pub initiator_id: NodeId,
    pub path_trace: Vec<(NodeId, NodeType)>,
}

/// The answer to a `FloodRequest`, carrying the path it travelled.
#[derive(Clone, Debug, PartialEq, Eq)]
pub struct FloodResponse {
    pub flood_id: u64,
    pub path_trace: Vec<(NodeId, NodeType)>,
}

/// A source route: `hops[hop_index]` is the node currently holding the packet.
#[derive(Clone, Debug, PartialEq, Eq, Default)]
pub struct SourceRoutingHeader {
    pub hop_index: usize,
    pub hops: Vec<NodeId>,
}

/// One piece of a message.
#[derive(Clone, Copy, Debug, PartialEq, Eq)]
pub struct Fragment {
    pub fragment_index: u64,
    pub total_n_fragments: u64,
    pub length: u8,
    pub data: [u8; FRAGMENT_DSIZE],
}

/// What a packet carries.
#[derive(Clone, Debug, PartialEq, Eq)]
pub enum PacketType {
    MsgFragment(Fragment),
    Ack(Ack),
    Nack(Nack),
    FloodRequest(FloodRequest),
    FloodResponse(FloodResponse),
}

/// A packet travelling on a source route.
#[derive(Clone, Debug, PartialEq, Eq)]
pub struct Packet {
    pub routing_header: SourceRoutingHeader,
    pub session_id: u64,
    pub pack_type: PacketType,
}

/// The node that should receive a packet next, if the route has one.
pub open spec fn spec_next_hop(hop_index: int, hops: Seq<NodeId>) -> Option<NodeId> {
    if 0 <= hop_index + 1 < hops.len() {
        Some(hops[hop_index + 1])
    } else {
        None
    }
}

impl SourceRoutingHeader {
    /// The node after the current one on the route.
    pub fn next_hop(&self) -> (r: Option<NodeId>)
        ensures
            r == spec_next_hop(self.hop_index as int, self.hops@),
    {
        if self.hop_index < self.hops.len() && self.hop_index + 1 < self.hops.len() {
            Some(self.hops[self.hop_index + 1])
        } else {
            None
        }
    }
}

impl FloodRequest {
    /// A fresh request whose trace holds only its initiator.
    pub fn initialize(flood_id: u64, initiator_id: NodeId, initiator_type: NodeType) -> (r: Self)
        ensures
            r.flood_id == flood_id,
            r.initiator_id == initiator_id,
            r.path_trace@ == seq![(initiator_id, initiator_type)],
    {
        let mut path_trace = Vec::new();
        path_trace.push((initiator_id, initiator_type));
        FloodRequest { flood_id, initiator_id, path_trace }
    }
}

} // verus!
