//! Keeps the known topology up to date from flood responses and negative
//! acknowledgements, and answers route queries on it.
pub mod network_graph;

use vstd::prelude::*;
use rand::RngCore;
use crate::packet::{FloodRequest, FloodResponse, Nack, NackType, NodeId, NodeType};
use self::network_graph::NetworkGraph;
use self::network_graph::network_node::NodeView;
use self::network_graph::route_model::{can_count_drop, is_route, route_cost};
use self::network_graph::search_order::search_result;
use self::network_graph::fewest_hops::no_drops;
use self::network_graph::{
    fresh_node, with_bidirectional_edge, with_dropped_packet, with_node_if_absent, with_trace_edges,
    with_trace_nodes, without_bidirectional_edge, has_node, lemma_node_index,
};

verus! {

/// A fresh random number from the thread-local generator of `rand`.
///
/// Calls `rand::rng()` and `RngCore::next_u64` on it. Nothing is claimed of
/// the value: any `u64` may come back.
#[verifier::external_body]
fn random_flood_id() -> (r: u64) {
    rand::rng().next_u64()
}

/// An element-by-element copy of a list of node ids.
fn copy_ids(v: &Vec<NodeId>) -> (r: Vec<NodeId>)
    ensures
        r@ == v@,
{
    let mut r: Vec<NodeId> = Vec::new();
    let mut k: usize = 0;
    while k < v.len()
        invariant
            k <= v@.len(),
            r@ == v@.take(k as int),
        decreases v@.len() - k,
    {
        r.push(v[k]);
        proof {
            assert(r@ =~= v@.take(k + 1));
        }
        k = k + 1;
    }
    proof {
        assert(r@ =~= v@);
    }
    r
}

/// One node of the topology as announced to the simulation controller.
#[derive(Clone, Debug, PartialEq, Eq)]
pub struct TopologyNode {
    pub node_id: NodeId,
    pub node_type: NodeType,
    pub neighbors: Vec<NodeId>,
}

/// `t` announces the node `n`.
pub open spec fn announces(t: TopologyNode, n: NodeView) -> bool {
    &&& t.node_id == n.node_id
    &&& t.node_type == n.node_type
    &&& t.neighbors@ == n.neighbors
}

/// What the transmitter has to do after the topology learned of a `Nack`.
#[derive(Clone, Debug, PartialEq, Eq)]
pub enum TopologyUpdate {
    /// The topology changed: announce it.
    Announce,
    /// The topology was forgotten: announce it and flood the network with this request.
    AnnounceAndFlood(FloodRequest),
    /// Only the drop statistics changed: nothing to announce.
    Quiet,
}

/// The part of the transmitter that owns the known topology.
#[derive(Clone, Debug, PartialEq, Eq)]
pub struct NetworkController {
    pub node_id: NodeId,
    pub node_type: NodeType,
    pub network_graph: NetworkGraph,
}

impl NetworkController {
    /// The graph is well formed and belongs to this node.
    pub open spec fn wf(&self) -> bool {
        &&& self.network_graph.wf()
        &&& self.network_graph.owner_node_id == self.node_id
        &&& self.network_graph.owner_node_type == self.node_type
    }

    /// The known nodes as mathematical values.
    pub open spec fn topology(&self) -> Seq<NodeView> {
        self.network_graph.nodes_view()
    }

    /// A controller that knows only its own node.
    pub fn new(node_id: NodeId, node_type: NodeType) -> (r: Self)
        ensures
            r.wf(),
            r.node_id == node_id,
            r.node_type == node_type,
            r.topology() == seq![fresh_node(node_id, node_type)],
    {
        NetworkController { node_id, node_type, network_graph: NetworkGraph::new(node_id, node_type) }
    }

    /// A flood request with a fresh random id, whose trace starts at this node.
    pub fn flood_network(&self) -> (r: FloodRequest)
        ensures
            r.initiator_id == self.node_id,
            r.path_trace@ == seq![(self.node_id, self.node_type)],
    {
        let flood_id = random_flood_id();
        FloodRequest::initialize(flood_id, self.node_id, self.node_type)
    }

    /// The periodic flood: the known topology is forgotten (only this node stays
    /// known) and the request of a new flood, with a fresh random id, comes back.
    pub fn reset_and_flood(&mut self) -> (r: FloodRequest)
        requires
            old(self).wf(),
        ensures
            final(self).wf(),
            final(self).node_id == old(self).node_id,
            final(self).node_type == old(self).node_type,
            final(self).topology() == seq![fresh_node(old(self).node_id, old(self).node_type)],
            r.initiator_id == old(self).node_id,
            r.path_trace@ == seq![(old(self).node_id, old(self).node_type)],
    {
        self.network_graph.reset_graph();
        self.flood_network()
    }

    /// The cheapest known route from this node to `to`, read back from the
    /// predecessors the search recorded (see `NetworkGraph::get_path_to`).
    pub fn get_path(&self, to: NodeId) -> (r: Option<Vec<NodeId>>)
        requires
            self.wf(),
        ensures
            match r {
                Some(p) => {
                    &&& to != self.node_id
                    &&& is_route(self.topology(), self.node_id, p@)
                    &&& p@.last() == to
                    &&& p@.no_duplicates()
                    &&& forall|q: Seq<NodeId>|
                        is_route(self.topology(), self.node_id, q) && q.last() == to
                            ==> route_cost(self.topology(), p@) <= route_cost(self.topology(), q)
                },
                None => to == self.node_id || forall|q: Seq<NodeId>|
                    is_route(self.topology(), self.node_id, q) ==> q.last() != to,
            },
            match r {
                Some(p) => {
                    &&& p@[0] == self.node_id
                    &&& forall|i: int| 0 <= i < p@.len() - 1
                        ==> search_result(self.topology(), self.node_id).1[#[trigger] p@[i + 1] as int] == Some(p@[i])
                },
                None => to == self.node_id || search_result(self.topology(), self.node_id).1[to as int] is None,
            },
            r matches Some(p) ==> (no_drops(self.topology()) ==> forall|q: Seq<NodeId>|
                is_route(self.topology(), self.node_id, q) && q.last() == to ==> p@.len() <= q.len()),
    {
        proof {
            self.network_graph.lemma_wf_routable();
        }
        self.network_graph.get_path_to(to)
    }

    /// Learns the path travelled by a flood; the topology must then be announced.
    pub fn update_from_flood_response(&mut self, flood_response: &FloodResponse)
        requires
            old(self).wf(),
        ensures
            final(self).wf(),
            final(self).node_id == old(self).node_id,
            final(self).node_type == old(self).node_type,
            final(self).topology() == with_trace_edges(
                with_trace_nodes(old(self).topology(), flood_response.path_trace@),
                flood_response.path_trace@,
            ),
    {
        self.network_graph.insert_edges_from_path_trace(flood_response.path_trace.as_slice());
    }

    /// Learns from a `Nack` sent back by `source`:
    /// - `ErrorInRouting(next)`: the link between `source` and `next` is gone;
    /// - `DestinationIsDrone`, `UnexpectedRecipient`: the topology is wrong, so it
    ///   is forgotten and the network flooded again;
    /// - `Dropped`: `source` dropped one more packet.
    pub fn update_from_nack(&mut self, nack: &Nack, source: NodeId) -> (r: TopologyUpdate)
        requires
            old(self).wf(),
            nack.nack_type is Dropped ==> can_count_drop(old(self).topology(), source),
        ensures
            final(self).wf(),
            final(self).node_id == old(self).node_id,
            final(self).node_type == old(self).node_type,
            match nack.nack_type {
                NackType::ErrorInRouting(next_hop) => {
                    &&& final(self).topology() == without_bidirectional_edge(old(self).topology(), source, next_hop)
                    &&& r == TopologyUpdate::Announce
                },
                NackType::DestinationIsDrone | NackType::UnexpectedRecipient(_) => {
                    &&& final(self).topology() == seq![fresh_node(old(self).node_id, old(self).node_type)]
                    &&& r matches TopologyUpdate::AnnounceAndFlood(fr)
                    &&& fr.initiator_id == old(self).node_id
                    &&& fr.path_trace@ == seq![(old(self).node_id, old(self).node_type)]
                },
                NackType::Dropped => {
                    &&& final(self).topology() == with_dropped_packet(old(self).topology(), source)
                    &&& r == TopologyUpdate::Quiet
                },
            },
    {
        match nack.nack_type {
            NackType::ErrorInRouting(next_hop) => {
                self.network_graph.delete_bidirectional_edge(source, next_hop);
                TopologyUpdate::Announce
            },
            NackType::DestinationIsDrone | NackType::UnexpectedRecipient(_) => {
                self.network_graph.reset_graph();
                TopologyUpdate::AnnounceAndFlood(self.flood_network())
            },
            NackType::Dropped => {
                self.network_graph.increment_num_of_dropped_packets(source);
                TopologyUpdate::Quiet
            },
        }
    }

    /// The known topology, node by node, as it is announced.
    pub fn get_event_graph(&self) -> (r: Vec<TopologyNode>)
        ensures
            r@.len() == self.topology().len(),
            forall|i: int| 0 <= i < r@.len() ==> #[trigger] announces(r@[i], self.topology()[i]),
    {
        let mut nodes: Vec<TopologyNode> = Vec::new();
        let mut i: usize = 0;
        while i < self.network_graph.nodes.len()
            invariant
                i <= self.network_graph.nodes@.len(),
                nodes@.len() == i,
                forall|j: int| 0 <= j < i ==> #[trigger] announces(nodes@[j], self.topology()[j]),
            decreases self.network_graph.nodes@.len() - i,
        {
            let network_node = &self.network_graph.nodes[i];
            let neighbors = copy_ids(&network_node.neighbors);
            let ghost before = nodes@;
            nodes.push(TopologyNode { node_id: network_node.node_id, node_type: network_node.node_type, neighbors });
            proof {
                assert(self.topology()[i as int] == self.network_graph.nodes@[i as int]@);
                assert forall|j: int| 0 <= j < i + 1 implies #[trigger] announces(nodes@[j], self.topology()[j]) by {
                    if j < i {
                        assert(nodes@[j] == before[j]);
                        assert(announces(before[j], self.topology()[j]));
                    }
                }
            }
            i = i + 1;
        }
        nodes
    }

    /// Learns that `to` became a neighbour of this node (assumed to be a drone).
    pub fn insert_neighbor(&mut self, to: NodeId)
        requires
            old(self).wf(),
        ensures
            final(self).wf(),
            final(self).node_id == old(self).node_id,
            final(self).node_type == old(self).node_type,
            final(self).topology() == with_bidirectional_edge(
                with_node_if_absent(old(self).topology(), to, NodeType::Drone),
                old(self).node_id,
                to,
            ),
    {
        self.network_graph.insert_node_if_not_present(to, NodeType::Drone);
        proof {
            let ns = self.topology();
            lemma_node_index(ns, to);
            network_graph::lemma_node_index_at(ns, self.node_id, 0);
            if !has_node(old(self).topology(), to) {
                network_graph::lemma_push_node(old(self).topology(), fresh_node(to, NodeType::Drone), to);
            }
        }
        self.network_graph.insert_bidirectional_edge(self.node_id, to);
    }

    /// Learns that `to` is no longer a neighbour of this node.
    pub fn delete_neighbor_edge(&mut self, to: NodeId)
        requires
            old(self).wf(),
        ensures
            final(self).wf(),
            final(self).node_id == old(self).node_id,
            final(self).node_type == old(self).node_type,
            final(self).topology() == without_bidirectional_edge(old(self).topology(), old(self).node_id, to),
    {
        self.network_graph.delete_bidirectional_edge(self.node_id, to);
    }

    /// Counts one more packet dropped by `node_id`.
    pub fn increment_dropped_count(&mut self, node_id: NodeId)
        requires
            old(self).wf(),
            can_count_drop(old(self).topology(), node_id),
        ensures
            final(self).wf(),
            final(self).node_id == old(self).node_id,
            final(self).node_type == old(self).node_type,
            final(self).topology() == with_dropped_packet(old(self).topology(), node_id),
    {
        self.network_graph.increment_num_of_dropped_packets(node_id);
    }
}

} // verus!
