//! The transmitter: decides, for each request it receives, what the node has
//! to do to move packets and messages through the network.
pub mod gateway;
pub mod network_controller;
pub mod single_packet_transmission_handler;
pub mod transmission_handler;

use vstd::prelude::*;
use std::collections::HashMap;
use crate::packet::{Ack, FloodRequest, FloodResponse, Nack, NackType, NodeId, NodeType, Packet, PacketType};
use self::gateway::{flood_response_packet, trace_ids};
use self::transmission_handler::Command as HandlerCommand;

verus! {

broadcast use vstd::std_specs::hash::group_hash_axioms;

/// A request handed to the transmitter by the node's packet listener (or by
/// the gateway, to report a failure).
#[derive(Clone, Debug, PartialEq, Eq)]
pub enum PacketCommand {
    SendAckFor { session_id: u64, fragment_index: u64, destination: NodeId },
    ForwardAckTo { session_id: u64, ack: Ack, source: NodeId },
    ProcessNack { session_id: u64, nack: Nack, source: NodeId },
    ProcessFloodRequest(FloodRequest),
    ProcessFloodResponse(FloodResponse),
    SendNack { session_id: u64, nack: Nack, destination: NodeId },
}

/// A command for the transmitter itself.
#[derive(Clone, Copy, Debug, PartialEq, Eq, Structural)]
pub enum Command {
    Quit,
}

/// One thing the node has to do, as decided by the transmitter.
#[derive(Clone, Debug, PartialEq, Eq)]
pub enum Action {
    /// Send `packet_type` to `destination` on its own, on the best route.
    SpawnSinglePacket { session_id: u64, destination: NodeId, packet_type: PacketType },
    /// Give `command` to the handler of `session_id`; `source` is told if there is none.
    HandlerCommand { session_id: u64, command: HandlerCommand, source: NodeId },
    /// Learn the path of a flood response and announce the topology.
    LearnPath(FloodResponse),
    /// Update the topology from a `Nack` sent back by `source`.
    LearnFromNack { nack: Nack, source: NodeId },
    /// Count one more packet dropped by this node.
    CountDrop(NodeId),
    /// Send this packet, carrying a flood response, back towards the flood's initiator.
    ReplyToFlood(Packet),
    /// Forget the known topology and flood the network afresh.
    ResetAndFlood,
}

/// A command from the simulation controller, each new neighbour coming with
/// the channel `C` that reaches it. A transmitter carries out only neighbour
/// changes; for the other commands only their kind matters (a drop rate is
/// not kept).
#[derive(Clone, Debug)]
pub enum DroneCommand<C> {
    AddSender(NodeId, C),
    RemoveSender(NodeId),
    SetPacketDropRate,
    Crash,
}

/// One step of a change of neighbours.
#[derive(Clone, Debug)]
pub enum NeighborAction<C> {
    /// The topology learns that the drone `NodeId` is a neighbour.
    LinkNeighbor(NodeId),
    /// The gateway starts sending to `NodeId` on this channel.
    OpenChannel(NodeId, C),
    /// The topology forgets the link to `NodeId`.
    UnlinkNeighbor(NodeId),
    /// The gateway stops sending to `NodeId`.
    CloseChannel(NodeId),
}

/// A transmitter node accepts only neighbour changes.
pub open spec fn is_supported_drone_command<C>(command: DroneCommand<C>) -> bool {
    command is AddSender || command is RemoveSender
}

impl<C> DroneCommand<C> {
    /// Whether a transmitter can carry out this command: only neighbour changes.
    pub fn is_supported(&self) -> (r: bool)
        ensures
            r == is_supported_drone_command(*self),
    {
        match self {
            DroneCommand::AddSender(..) | DroneCommand::RemoveSender(..) => true,
            DroneCommand::SetPacketDropRate | DroneCommand::Crash => false,
        }
    }
}

/// The command that stops the handler of `session_id`, on behalf of `node_id`.
pub open spec fn quit_action(session_id: u64, node_id: NodeId) -> Action {
    Action::HandlerCommand { session_id, command: HandlerCommand::Quit, source: node_id }
}

/// The trace of the response to a flood that reached node `id` (of type `t`):
/// the flood's trace with the node appended, read backwards.
pub open spec fn response_trace(trace: Seq<(NodeId, NodeType)>, id: NodeId, t: NodeType) -> Seq<(NodeId, NodeType)> {
    trace.push((id, t)).reverse()
}

/// `p` is the reply of node `id` (of type `t`) to `flood_request`: a flood
/// response with the request's id and the reversed trace, routed back along
/// that trace from its second node.
pub open spec fn is_flood_reply(p: Packet, flood_request: FloodRequest, id: NodeId, t: NodeType) -> bool {
    &&& p.session_id == 0
    &&& p.routing_header.hop_index == 1
    &&& p.routing_header.hops@ == trace_ids(response_trace(flood_request.path_trace@, id, t))
    &&& p.pack_type matches PacketType::FloodResponse(resp)
    &&& resp.flood_id == flood_request.flood_id
    &&& resp.path_trace@ == response_trace(flood_request.path_trace@, id, t)
}

/// The response to a flood travels back to where the flood started: its trace
/// starts at the answering node and ends with the first node of the flood's trace.
pub proof fn law_flood_response_returns_to_initiator(trace: Seq<(NodeId, NodeType)>, id: NodeId, t: NodeType)
    requires
        trace.len() >= 1,
    ensures
        response_trace(trace, id, t).len() == trace.len() + 1,
        response_trace(trace, id, t)[0] == (id, t),
        response_trace(trace, id, t).last() == trace[0],
{
}

/// The response to a flood is the flood's trace read backwards from the
/// answering node: its first entry is the answering node and, for every later
/// position `k`, its `k`-th entry is the entry `k` places from the end of the
/// flood's trace.
pub proof fn law_flood_response_reverses_trace(trace: Seq<(NodeId, NodeType)>, id: NodeId, t: NodeType)
    ensures
        response_trace(trace, id, t).len() == trace.len() + 1,
        response_trace(trace, id, t)[0] == (id, t),
        forall|k: int| 1 <= k <= trace.len() ==> #[trigger] response_trace(trace, id, t)[k] == trace[trace.len() - k],
{
}

/// Every `Nack` is first learnt by the topology; the topology-resetting ones
/// (`DestinationIsDrone`, `UnexpectedRecipient`) call for nothing else; a
/// dropped packet is counted against `source` only for `Dropped`; and the
/// fragment is sent again exactly for `Dropped` and `ErrorInRouting`, as the
/// last action.
pub proof fn law_nack_is_always_learnt(session_id: u64, nack: Nack, source: NodeId)
    ensures
        nack_actions(session_id, nack, source).len() >= 1,
        nack_actions(session_id, nack, source)[0] == (Action::LearnFromNack { nack, source }),
        (nack.nack_type is DestinationIsDrone || nack.nack_type is UnexpectedRecipient)
            ==> nack_actions(session_id, nack, source).len() == 1,
        nack_actions(session_id, nack, source).contains(Action::CountDrop(source)) <==> nack.nack_type is Dropped,
        (nack.nack_type is Dropped || nack.nack_type is ErrorInRouting) <==> nack_actions(session_id, nack, source).last()
            == (Action::HandlerCommand { session_id, command: HandlerCommand::Resend(nack.fragment_index), source }),
{
    let a = nack_actions(session_id, nack, source);
    match nack.nack_type {
        NackType::Dropped => {
            assert(a[1] == Action::CountDrop(source));
        },
        NackType::ErrorInRouting(_) => {
            assert(!a.contains(Action::CountDrop(source))) by {
                assert forall|k: int| 0 <= k < a.len() implies a[k] != Action::CountDrop(source) by {}
            }
        },
        _ => {
            assert(!a.contains(Action::CountDrop(source))) by {
                assert forall|k: int| 0 <= k < a.len() implies a[k] != Action::CountDrop(source) by {}
            }
        },
    }
}

/// The actions that a `Nack` of `session_id` sent back by `source` calls for.
pub open spec fn nack_actions(session_id: u64, nack: Nack, source: NodeId) -> Seq<Action> {
    let learn = Action::LearnFromNack { nack, source };
    match nack.nack_type {
        NackType::Dropped => seq![
            learn,
            Action::CountDrop(source),
            Action::HandlerCommand { session_id, command: HandlerCommand::Resend(nack.fragment_index), source },
        ],
        NackType::ErrorInRouting(_) => seq![
            learn,
            Action::HandlerCommand { session_id, command: HandlerCommand::UpdateHeader, source },
            Action::HandlerCommand { session_id, command: HandlerCommand::Resend(nack.fragment_index), source },
        ],
        NackType::UnexpectedRecipient(_) | NackType::DestinationIsDrone => seq![learn],
    }
}

/// The transmitter of node `node_id`, with the command channel `H` of every
/// message in transit, keyed by session.
pub struct Transmitter<H> {
    pub node_id: NodeId,
    pub node_type: NodeType,
    pub transmission_handlers: HashMap<u64, H>,
    pub flood_interval_ns: u128,
}

impl<H> Transmitter<H> {
    /// A transmitter with no message in transit, flooding every
    /// `flood_interval_ns` nanoseconds.
    pub fn new(node_id: NodeId, node_type: NodeType, flood_interval_ns: u128) -> (r: Self)
        ensures
            r.node_id == node_id,
            r.node_type == node_type,
            r.flood_interval_ns == flood_interval_ns,
            r.transmission_handlers@ == Map::<u64, H>::empty(),
    {
        Transmitter { node_id, node_type, transmission_handlers: HashMap::new(), flood_interval_ns }
    }

    /// The id of this node.
    pub fn get_node_id(&self) -> (r: NodeId)
        ensures
            r == self.node_id,
    {
        self.node_id
    }

    /// Whether the network is due to be flooded `elapsed_ns` nanoseconds after the last flood.
    pub fn flood_due(&self, elapsed_ns: u128) -> (r: bool)
        ensures
            r == (elapsed_ns >= self.flood_interval_ns),
    {
        elapsed_ns >= self.flood_interval_ns
    }

    /// The periodic flood, `elapsed_ns` nanoseconds after the last one: once the
    /// interval has passed, the known topology is forgotten and the network
    /// flooded afresh; before that, nothing is done.
    pub fn flood_actions(&self, elapsed_ns: u128) -> (r: Vec<Action>)
        ensures
            r@ == (if elapsed_ns >= self.flood_interval_ns {
                seq![Action::ResetAndFlood]
            } else {
                Seq::<Action>::empty()
            }),
    {
        let mut actions: Vec<Action> = Vec::new();
        if self.flood_due(elapsed_ns) {
            actions.push(Action::ResetAndFlood);
        }
        proof {
            assert(actions@ =~= (if elapsed_ns >= self.flood_interval_ns {
                seq![Action::ResetAndFlood]
            } else {
                Seq::<Action>::empty()
            }));
        }
        actions
    }

    /// The steps of a change of neighbours: a new neighbour is linked in the
    /// topology before the gateway gets its channel; a removed one is unlinked
    /// before the gateway drops its channel. Other commands are not for a
    /// transmitter.
    pub fn process_drone_command<C>(&self, command: DroneCommand<C>) -> (r: Vec<NeighborAction<C>>)
        requires
            is_supported_drone_command(command),
        ensures
            match command {
                DroneCommand::AddSender(id, channel) => r@ == seq![
                    NeighborAction::LinkNeighbor(id),
                    NeighborAction::OpenChannel(id, channel),
                ],
                DroneCommand::RemoveSender(id) => r@ == seq![
                    NeighborAction::<C>::UnlinkNeighbor(id),
                    NeighborAction::<C>::CloseChannel(id),
                ],
                _ => false,
            },
    {
        let mut actions: Vec<NeighborAction<C>> = Vec::new();
        match command {
            DroneCommand::AddSender(id, channel) => {
                actions.push(NeighborAction::LinkNeighbor(id));
                actions.push(NeighborAction::OpenChannel(id, channel));
            },
            DroneCommand::RemoveSender(id) => {
                actions.push(NeighborAction::UnlinkNeighbor(id));
                actions.push(NeighborAction::CloseChannel(id));
            },
            DroneCommand::SetPacketDropRate | DroneCommand::Crash => {},
        }
        proof {
            assert(actions@ =~= match command {
                DroneCommand::AddSender(id, channel) => seq![
                    NeighborAction::LinkNeighbor(id),
                    NeighborAction::OpenChannel(id, channel),
                ],
                DroneCommand::RemoveSender(id) => seq![
                    NeighborAction::<C>::UnlinkNeighbor(id),
                    NeighborAction::<C>::CloseChannel(id),
                ],
                _ => actions@,
            });
        }
        actions
    }

    /// What a command for the transmitter calls for: on `Quit`, the handler of
    /// every message in transit is told to quit, once each, in some order.
    pub fn process_command(&self, command: Command) -> (r: Vec<Action>)
        ensures
            exists|sessions: Seq<u64>| {
                &&& sessions.no_duplicates()
                &&& sessions.to_set() == self.transmission_handlers@.dom()
                &&& r@ == sessions.map_values(|s: u64| quit_action(s, self.node_id))
            },
    {
        let mut actions: Vec<Action> = Vec::new();
        for session_id in it: self.transmission_handlers.keys()
            invariant
                actions@ == it.seq().take(it.index()).map_values(|s: &u64| quit_action(*s, self.node_id)),
        {
            actions.push(Action::HandlerCommand { session_id: *session_id, command: HandlerCommand::Quit, source: self.node_id });
        }
        actions
    }

    /// Remembers the handler of a new message of `session_id` (replacing an older one).
    pub fn register_handler(&mut self, session_id: u64, handler: H)
        ensures
            final(self).node_id == old(self).node_id,
            final(self).node_type == old(self).node_type,
            final(self).flood_interval_ns == old(self).flood_interval_ns,
            final(self).transmission_handlers@ == old(self).transmission_handlers@.insert(session_id, handler),
    {
        self.transmission_handlers.insert(session_id, handler);
    }

    /// Forgets the handler of `session_id` once its transmission completed.
    pub fn remove_handler(&mut self, session_id: u64)
        ensures
            final(self).node_id == old(self).node_id,
            final(self).node_type == old(self).node_type,
            final(self).flood_interval_ns == old(self).flood_interval_ns,
            final(self).transmission_handlers@ == old(self).transmission_handlers@.remove(session_id),
    {
        self.transmission_handlers.remove(&session_id);
    }

    /// Where a command for the handler of `session_id` goes: to that handler, or,
    /// when no message of that session is in transit, back to `source` as an
    /// `UnexpectedRecipient` negative acknowledgement.
    pub fn send_transmission_handler_command(&self, session_id: u64, source: NodeId) -> (r: Result<&H, PacketCommand>)
        ensures
            match r {
                Ok(h) => self.transmission_handlers@.contains_key(session_id) && *h == self.transmission_handlers@[session_id],
                Err(c) => {
                    &&& !self.transmission_handlers@.contains_key(session_id)
                    &&& c == (PacketCommand::SendNack {
                        session_id,
                        nack: Nack { fragment_index: 0, nack_type: NackType::UnexpectedRecipient(self.node_id) },
                        destination: source,
                    })
                },
            },
    {
        match self.transmission_handlers.get(&session_id) {
            Some(h) => Ok(h),
            None => Err(PacketCommand::SendNack {
                session_id,
                nack: Nack { fragment_index: 0, nack_type: NackType::UnexpectedRecipient(self.node_id) },
                destination: source,
            }),
        }
    }

    /// The reply to a flood request: none when this node started the flood;
    /// otherwise a flood response with the request's id and the flood's trace
    /// extended by this node and reversed, in a packet routed back along that
    /// trace from its second node.
    pub fn process_flood_request(&self, flood_request: FloodRequest) -> (r: Option<Packet>)
        ensures
            match r {
                Some(p) => {
                    &&& flood_request.initiator_id != self.node_id
                    &&& is_flood_reply(p, flood_request, self.node_id, self.node_type)
                },
                None => flood_request.initiator_id == self.node_id,
            },
    {
        if flood_request.initiator_id == self.node_id {
            return None;
        }
        let flood_response = self.flood_response_for(&flood_request);
        Some(flood_response_packet(flood_response))
    }

    /// The flood response of this node to `flood_request`.
    fn flood_response_for(&self, flood_request: &FloodRequest) -> (r: FloodResponse)
        ensures
            r.flood_id == flood_request.flood_id,
            r.path_trace@ == response_trace(flood_request.path_trace@, self.node_id, self.node_type),
    {
        let trace = &flood_request.path_trace;
        let ghost full = trace@.push((self.node_id, self.node_type));
        let mut path_trace: Vec<(NodeId, NodeType)> = Vec::new();
        path_trace.push((self.node_id, self.node_type));
        let mut m: usize = trace.len();
        while m > 0
            invariant
                m <= trace@.len(),
                full == trace@.push((self.node_id, self.node_type)),
                path_trace@ == full.reverse().take(full.len() - m),
            decreases m,
        {
            m = m - 1;
            path_trace.push(trace[m]);
            proof {
                assert(path_trace@ =~= full.reverse().take(full.len() - m));
            }
        }
        proof {
            assert(path_trace@ =~= full.reverse());
        }
        FloodResponse { flood_id: flood_request.flood_id, path_trace }
    }

    /// The actions a `Nack` of `session_id` sent back by `source` calls for:
    /// the topology always learns of it; a dropped fragment is counted and sent
    /// again; a routing error refreshes the route before the fragment is sent again.
    pub fn process_nack(&self, session_id: u64, nack: &Nack, source: NodeId) -> (r: Vec<Action>)
        ensures
            r@ == nack_actions(session_id, *nack, source),
    {
        let mut actions: Vec<Action> = Vec::new();
        actions.push(Action::LearnFromNack { nack: *nack, source });
        match nack.nack_type {
            NackType::Dropped => {
                actions.push(Action::CountDrop(source));
                actions.push(Action::HandlerCommand {
                    session_id,
                    command: HandlerCommand::Resend(nack.fragment_index),
                    source,
                });
            },
            NackType::ErrorInRouting(_) => {
                actions.push(Action::HandlerCommand { session_id, command: HandlerCommand::UpdateHeader, source });
                actions.push(Action::HandlerCommand {
                    session_id,
                    command: HandlerCommand::Resend(nack.fragment_index),
                    source,
                });
            },
            NackType::UnexpectedRecipient(_) | NackType::DestinationIsDrone => {},
        }
        proof {
            assert(actions@ =~= nack_actions(session_id, *nack, source));
        }
        actions
    }

    /// The actions a request from the packet listener calls for.
    pub fn process_packet_command(&self, command: PacketCommand) -> (r: Vec<Action>)
        ensures
            match command {
                PacketCommand::SendAckFor { session_id, fragment_index, destination } => r@ == seq![
                    Action::SpawnSinglePacket {
                        session_id,
                        destination,
                        packet_type: PacketType::Ack(Ack { fragment_index }),
                    },
                ],
                PacketCommand::ForwardAckTo { session_id, ack, source } => r@ == seq![
                    Action::HandlerCommand { session_id, command: HandlerCommand::Confirmed(ack.fragment_index), source },
                ],
                PacketCommand::ProcessNack { session_id, nack, source } => r@ == nack_actions(session_id, nack, source),
                PacketCommand::SendNack { session_id, nack, destination } => r@ == seq![
                    Action::SpawnSinglePacket { session_id, destination, packet_type: PacketType::Nack(nack) },
                ],
                PacketCommand::ProcessFloodRequest(fr) => {
                    if fr.initiator_id == self.node_id {
                        r@ == Seq::<Action>::empty()
                    } else {
                        &&& r@.len() == 1
                        &&& r@[0] matches Action::ReplyToFlood(p)
                        &&& is_flood_reply(p, fr, self.node_id, self.node_type)
                    }
                },
                PacketCommand::ProcessFloodResponse(fr) => r@ == seq![Action::LearnPath(fr)],
            },
    {
        let mut actions: Vec<Action> = Vec::new();
        match command {
            PacketCommand::SendAckFor { session_id, fragment_index, destination } => {
                actions.push(Action::SpawnSinglePacket {
                    session_id,
                    destination,
                    packet_type: PacketType::Ack(Ack { fragment_index }),
                });
            },
            PacketCommand::ForwardAckTo { session_id, ack, source } => {
                actions.push(Action::HandlerCommand {
                    session_id,
                    command: HandlerCommand::Confirmed(ack.fragment_index),
                    source,
                });
            },
            PacketCommand::ProcessNack { session_id, nack, source } => {
                actions = self.process_nack(session_id, &nack, source);
            },
            PacketCommand::SendNack { session_id, nack, destination } => {
                actions.push(Action::SpawnSinglePacket { session_id, destination, packet_type: PacketType::Nack(nack) });
            },
            PacketCommand::ProcessFloodRequest(flood_request) => {
                match self.process_flood_request(flood_request) {
                    Some(packet) => actions.push(Action::ReplyToFlood(packet)),
                    None => {},
                }
            },
            PacketCommand::ProcessFloodResponse(flood_response) => {
                actions.push(Action::LearnPath(flood_response));
            },
        }
        actions
    }

    /// Whether the gateway may report `command`: only a `SendNack` for a routing
    /// error or an unexpected recipient.
    pub open spec fn is_gateway_report(command: PacketCommand) -> bool {
        command matches PacketCommand::SendNack { nack, .. }
            && (nack.nack_type is ErrorInRouting || nack.nack_type is UnexpectedRecipient)
    }

    /// The actions a report from the gateway calls for; the report must be a
    /// `SendNack` for a routing error or an unexpected recipient.
    pub fn process_gateway_command(&self, command: PacketCommand) -> (r: Vec<Action>)
        requires
            Self::is_gateway_report(command),
        ensures
            match command {
                PacketCommand::SendNack { session_id, nack, destination } => r@ == seq![
                    Action::SpawnSinglePacket { session_id, destination, packet_type: PacketType::Nack(nack) },
                ],
                _ => false,
            },
    {
        self.process_packet_command(command)
    }
}

} // verus!
