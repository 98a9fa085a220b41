//! One node of the known topology together with its outgoing edges.
use vstd::prelude::*;
use crate::packet::{NodeId, NodeType};

verus! {

/// What a `NetworkNode` holds, as mathematical values.
pub struct NodeView {
    pub node_id: NodeId,
    pub node_type: NodeType,
    pub dropped: nat,
    pub neighbors: Seq<NodeId>,
}

/// The index of the first occurrence of `x` in `s` (meaningful when `s.contains(x)`).
pub open spec fn first_index_of(s: Seq<NodeId>, x: NodeId) -> int {
    choose|i: int| 0 <= i < s.len() && s[i] == x && forall|j: int| 0 <= j < i ==> s[j] != x
}

/// `s` without the first occurrence of `x`; `s` itself when `x` does not occur.
pub open spec fn remove_first(s: Seq<NodeId>, x: NodeId) -> Seq<NodeId> {
    if s.contains(x) {
        s.remove(first_index_of(s, x))
    } else {
        s
    }
}

/// A position that holds `x` with no earlier occurrence is the first index of `x`.
pub proof fn lemma_first_index_of(s: Seq<NodeId>, x: NodeId, i: int)
    requires
        0 <= i < s.len(),
        s[i] == x,
        forall|j: int| 0 <= j < i ==> s[j] != x,
    ensures
        first_index_of(s, x) == i,
        s.contains(x),
{
    let k = first_index_of(s, x);
    assert(0 <= k < s.len() && s[k] == x && forall|j: int| 0 <= j < k ==> s[j] != x);
}

/// An element that occurs has a first occurrence.
pub proof fn lemma_first_index_exists(s: Seq<NodeId>, x: NodeId)
    requires
        s.contains(x),
    ensures
        0 <= first_index_of(s, x) < s.len(),
        s[first_index_of(s, x)] == x,
        forall|j: int| 0 <= j < first_index_of(s, x) ==> s[j] != x,
{
    let w = choose|w: int| 0 <= w < s.len() && s[w] == x;
    lemma_first_below(s, x, w);
}

proof fn lemma_first_below(s: Seq<NodeId>, x: NodeId, w: int)
    requires
        0 <= w < s.len(),
        s[w] == x,
    ensures
        0 <= first_index_of(s, x) < s.len(),
        s[first_index_of(s, x)] == x,
        forall|j: int| 0 <= j < first_index_of(s, x) ==> s[j] != x,
    decreases w,
{
    if exists|j: int| 0 <= j < w && s[j] == x {
        let j = choose|j: int| 0 <= j < w && s[j] == x;
        lemma_first_below(s, x, j);
    } else {
        lemma_first_index_of(s, x, w);
    }
}

/// Removing an edge right after adding it, when there was none to that node
/// before, gives back the edges it started from.
pub proof fn lemma_remove_undoes_insert(s: Seq<NodeId>, x: NodeId)
    requires
        !s.contains(x),
    ensures
        remove_first(s.push(x), x) == s,
{
    let t = s.push(x);
    lemma_first_index_of(t, x, s.len() as int);
    assert(t.remove(s.len() as int) =~= s);
}

/// A node of the topology known to the transmitter.
#[derive(Clone, Debug, PartialEq, Eq)]
pub struct NetworkNode {
    pub node_id: NodeId,
    pub node_type: NodeType,
    pub num_of_dropped_packets: u64,
    pub neighbors: Vec<NodeId>,
}

impl View for NetworkNode {
    type V = NodeView;

    open spec fn view(&self) -> NodeView {
        NodeView {
            node_id: self.node_id,
            node_type: self.node_type,
            dropped: self.num_of_dropped_packets as nat,
            neighbors: self.neighbors@,
        }
    }
}

impl NetworkNode {
    /// A node with no edges and no dropped packets.
    pub fn new(node_id: NodeId, node_type: NodeType) -> (r: Self)
        ensures
            r@ == (NodeView { node_id, node_type, dropped: 0, neighbors: Seq::empty() }),
    {
        NetworkNode { node_id, node_type, num_of_dropped_packets: 0, neighbors: Vec::new() }
    }

    /// Appends an edge from this node to `to`.
    pub fn insert_edge(&mut self, to: NodeId)
        ensures
            final(self)@ == (NodeView { neighbors: old(self)@.neighbors.push(to), ..old(self)@ }),
    {
        self.neighbors.push(to);
    }

    /// Whether this node has an edge to `to`.
    pub fn has_edge(&self, to: NodeId) -> (r: bool)
        ensures
            r == self@.neighbors.contains(to),
    {
        let mut i: usize = 0;
        while i < self.neighbors.len()
            invariant
                i <= self.neighbors.len(),
                forall|j: int| 0 <= j < i ==> self.neighbors@[j] != to,
            decreases self.neighbors.len() - i,
        {
            if self.neighbors[i] == to {
                return true;
            }
            i = i + 1;
        }
        false
    }

    /// Removes the first edge from this node to `to`, if there is one.
    pub fn remove_edge(&mut self, to: NodeId)
        ensures
            final(self)@ == (NodeView { neighbors: remove_first(old(self)@.neighbors, to), ..old(self)@ }),
    {
        let mut i: usize = 0;
        while i < self.neighbors.len()
            invariant
                i <= self.neighbors.len(),
                self@ == old(self)@,
                forall|j: int| 0 <= j < i ==> self.neighbors@[j] != to,
            decreases self.neighbors.len() - i,
        {
            if self.neighbors[i] == to {
                proof {
                    lemma_first_index_of(self.neighbors@, to, i as int);
                }
                self.neighbors.remove(i);
                return;
            }
            i = i + 1;
        }
        assert(!self.neighbors@.contains(to));
    }

    /// Counts one more packet dropped by this node.
    pub fn increment_dropped_packets(&mut self)
        requires
            old(self).num_of_dropped_packets < u64::MAX,
        ensures
            final(self)@ == (NodeView { dropped: old(self)@.dropped + 1, ..old(self)@ }),
    {
        self.num_of_dropped_packets = self.num_of_dropped_packets + 1;
    }

    /// Forgets every dropped packet counted so far.
    pub fn reset_num_of_dropped_packets(&mut self)
        ensures
            final(self)@ == (NodeView { dropped: 0, ..old(self)@ }),
    {
        self.num_of_dropped_packets = 0;
    }

    /// The number of packets dropped by this node so far.
    pub fn get_num_of_dropped_packets(&self) -> (r: u64)
        ensures
            r == self@.dropped,
    {
        self.num_of_dropped_packets
    }
}

} // verus!
