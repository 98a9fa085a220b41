//! The topology known to the transmitter and the search for cheapest routes.
pub mod network_node;
pub mod route_model;
pub mod search_order;
pub mod fewest_hops;
pub mod topology_laws;

use vstd::prelude::*;
use crate::packet::{NodeId, NodeType};
use self::network_node::{NetworkNode, NodeView, remove_first};
use self::fewest_hops::no_drops;
use self::search_order::{
    insert_by_cost, key, lemma_insert_at, lemma_search_result, order_by_cost, relax, relax_upto, search_after,
    search_result, search_step, initial_search,
};
use self::route_model::{
    lemma_swap_adjacent, swap_adjacent, tables_ok, settled_except, drops_bounded, relaxing,
    relaxed_to, relays, nbrs, weight, potential, within, bound_ok, pred_ok,
    lemma_pop, lemma_relax_step, lemma_relaxed_all, lemma_reorder, lemma_potential_nonneg,
    lemma_count_within_grows, lemma_weight_bounded, lemma_cost_bounded, DROP_LIMIT,
    is_route, route_cost, step_ok, weight_sum, lemma_weight_sum_cons, lemma_route_cost_cons,
    lemma_cost_lower_bound, relaxed_upto, can_count_drop, ranks_below,
};

verus! {

// ---------------------------------------------------------------------------
// Mathematical model of the node list
// ---------------------------------------------------------------------------

/// Index of the first node of `ns` whose id is `id`, or -1 when there is none.
pub open spec fn node_index(ns: Seq<NodeView>, id: NodeId) -> int
    decreases ns.len(),
{
    if ns.len() == 0 {
        -1
    } else {
        let k = node_index(ns.drop_last(), id);
        if k >= 0 {
            k
        } else if ns.last().node_id == id {
            ns.len() - 1
        } else {
            -1
        }
    }
}

/// Whether some node of `ns` has id `id`.
pub open spec fn has_node(ns: Seq<NodeView>, id: NodeId) -> bool {
    node_index(ns, id) >= 0
}

/// The node that a lookup of `id` in `ns` finds (the first one with that id).
pub open spec fn node_of(ns: Seq<NodeView>, id: NodeId) -> NodeView {
    ns[node_index(ns, id)]
}

/// Two node lists with the same ids at the same positions.
pub open spec fn same_ids(a: Seq<NodeView>, b: Seq<NodeView>) -> bool {
    &&& a.len() == b.len()
    &&& forall|i: int| 0 <= i < a.len() ==> #[trigger] a[i].node_id == b[i].node_id
}

/// A fresh node with no edges and no dropped packets.
pub open spec fn fresh_node(id: NodeId, t: NodeType) -> NodeView {
    NodeView { node_id: id, node_type: t, dropped: 0, neighbors: Seq::empty() }
}

/// `ns` with a node for `id` appended unless one is already there.
pub open spec fn with_node_if_absent(ns: Seq<NodeView>, id: NodeId, t: NodeType) -> Seq<NodeView> {
    if has_node(ns, id) {
        ns
    } else {
        ns.push(fresh_node(id, t))
    }
}

/// `ns` where the node found for `from` gains an edge to `to`.
pub open spec fn with_edge(ns: Seq<NodeView>, from: NodeId, to: NodeId) -> Seq<NodeView> {
    let k = node_index(ns, from);
    ns.update(k, NodeView { neighbors: ns[k].neighbors.push(to), ..ns[k] })
}

/// `ns` with an edge from `from` to `to` and one from `to` to `from`.
pub open spec fn with_bidirectional_edge(ns: Seq<NodeView>, from: NodeId, to: NodeId) -> Seq<NodeView> {
    with_edge(with_edge(ns, from, to), to, from)
}

/// `ns` where the node found for `from` loses its first edge to `to`.
pub open spec fn without_edge(ns: Seq<NodeView>, from: NodeId, to: NodeId) -> Seq<NodeView> {
    let k = node_index(ns, from);
    ns.update(k, NodeView { neighbors: remove_first(ns[k].neighbors, to), ..ns[k] })
}

/// `ns` without one edge in each direction between `from` and `to`; unchanged
/// when either node is unknown.
pub open spec fn without_bidirectional_edge(ns: Seq<NodeView>, from: NodeId, to: NodeId) -> Seq<NodeView> {
    if has_node(ns, from) && has_node(ns, to) {
        without_edge(without_edge(ns, from, to), to, from)
    } else {
        ns
    }
}

/// `ns` where the node found for `id` has one more dropped packet; unchanged
/// when `id` is unknown.
pub open spec fn with_dropped_packet(ns: Seq<NodeView>, id: NodeId) -> Seq<NodeView> {
    if has_node(ns, id) {
        let k = node_index(ns, id);
        ns.update(k, NodeView { dropped: ns[k].dropped + 1, ..ns[k] })
    } else {
        ns
    }
}

/// `ns` after the nodes of `trace` were inserted, in order, when absent.
pub open spec fn with_trace_nodes(ns: Seq<NodeView>, trace: Seq<(NodeId, NodeType)>) -> Seq<NodeView>
    decreases trace.len(),
{
    if trace.len() == 0 {
        ns
    } else {
        with_node_if_absent(with_trace_nodes(ns, trace.drop_last()), trace.last().0, trace.last().1)
    }
}

/// `ns` where the node found for `from` gains an edge to `to`, unless it already has one.
pub open spec fn with_link(ns: Seq<NodeView>, from: NodeId, to: NodeId) -> Seq<NodeView> {
    if node_of(ns, from).neighbors.contains(to) {
        ns
    } else {
        with_edge(ns, from, to)
    }
}

/// `ns` where `from` and `to` are linked both ways, each edge added only when missing.
pub open spec fn with_bidirectional_link(ns: Seq<NodeView>, from: NodeId, to: NodeId) -> Seq<NodeView> {
    with_link(with_link(ns, from, to), to, from)
}

/// `ns` after every two consecutive nodes of `trace` were linked both ways,
/// adding only the edges not stored yet.
pub open spec fn with_trace_edges(ns: Seq<NodeView>, trace: Seq<(NodeId, NodeType)>) -> Seq<NodeView>
    decreases trace.len(),
{
    if trace.len() < 2 {
        ns
    } else {
        with_bidirectional_link(
            with_trace_edges(ns, trace.drop_last()),
            trace[trace.len() - 2].0,
            trace.last().0,
        )
    }
}

/// Every edge of `ns` leads to a node of `ns`.
pub open spec fn edges_closed(ns: Seq<NodeView>) -> bool {
    forall|i: int, k: int|
        0 <= i < ns.len() && 0 <= k < ns[i].neighbors.len() ==> has_node(ns, #[trigger] ns[i].neighbors[k])
}

// ---------------------------------------------------------------------------
// Lemmas on the model
// ---------------------------------------------------------------------------

/// What `node_index` finds: the first node with the id, or none at all.
pub proof fn lemma_node_index(ns: Seq<NodeView>, id: NodeId)
    ensures
        -1 <= node_index(ns, id) < ns.len(),
        node_index(ns, id) >= 0 ==> ns[node_index(ns, id)].node_id == id,
        forall|j: int| 0 <= j < ns.len() && (node_index(ns, id) < 0 || j < node_index(ns, id))
            ==> ns[j].node_id != id,
    decreases ns.len(),
{
    if ns.len() > 0 {
        lemma_node_index(ns.drop_last(), id);
        assert forall|j: int| 0 <= j < ns.len() - 1 implies ns.drop_last()[j] == ns[j] by {}
    }
}

/// A node with the id and no earlier one is what `node_index` finds.
pub proof fn lemma_node_index_at(ns: Seq<NodeView>, id: NodeId, i: int)
    requires
        0 <= i < ns.len(),
        ns[i].node_id == id,
        forall|j: int| 0 <= j < i ==> ns[j].node_id != id,
    ensures
        node_index(ns, id) == i,
{
    lemma_node_index(ns, id);
}

/// Lists with the same ids find the same positions.
pub proof fn lemma_same_ids(a: Seq<NodeView>, b: Seq<NodeView>, id: NodeId)
    requires
        same_ids(a, b),
    ensures
        node_index(a, id) == node_index(b, id),
{
    lemma_node_index(a, id);
    lemma_node_index(b, id);
    let ka = node_index(a, id);
    let kb = node_index(b, id);
    if ka >= 0 {
        assert(b[ka].node_id == id);
    }
    if kb >= 0 {
        assert(a[kb].node_id == id);
    }
}

/// Appending a node keeps every earlier lookup and makes its own id findable.
pub proof fn lemma_push_node(ns: Seq<NodeView>, n: NodeView, id: NodeId)
    ensures
        node_index(ns.push(n), id) == (if has_node(ns, id) {
            node_index(ns, id)
        } else if n.node_id == id {
            ns.len() as int
        } else {
            -1
        }),
{
    assert(ns.push(n).drop_last() =~= ns);
}


/// Adding an edge to a present node keeps ids, and keeps edges closed when the target is present.
pub proof fn lemma_with_edge(ns: Seq<NodeView>, from: NodeId, to: NodeId)
    requires
        has_node(ns, from),
    ensures
        same_ids(ns, with_edge(ns, from, to)),
        forall|id: NodeId| #[trigger] node_index(with_edge(ns, from, to), id) == node_index(ns, id),
        edges_closed(ns) && has_node(ns, to) ==> edges_closed(with_edge(ns, from, to)),
{
    lemma_node_index(ns, from);
    let r = with_edge(ns, from, to);
    assert forall|id: NodeId| #[trigger] node_index(r, id) == node_index(ns, id) by {
        lemma_same_ids(ns, r, id);
    }
    if edges_closed(ns) && has_node(ns, to) {
        let k = node_index(ns, from);
        assert forall|i: int, j: int|
            0 <= i < r.len() && 0 <= j < r[i].neighbors.len() implies has_node(r, #[trigger] r[i].neighbors[j]) by {
            if i == k && j == ns[k].neighbors.len() {
                assert(r[i].neighbors[j] == to);
            } else {
                assert(r[i].neighbors[j] == ns[i].neighbors[j]);
            }
        }
    }
}

/// Linking a present node keeps ids, and keeps edges closed when the target is present.
pub proof fn lemma_with_link(ns: Seq<NodeView>, from: NodeId, to: NodeId)
    requires
        has_node(ns, from),
    ensures
        same_ids(ns, with_link(ns, from, to)),
        forall|id: NodeId| #[trigger] node_index(with_link(ns, from, to), id) == node_index(ns, id),
        edges_closed(ns) && has_node(ns, to) ==> edges_closed(with_link(ns, from, to)),
        with_link(ns, from, to).len() > 0 ==> with_link(ns, from, to)[0].node_id == ns[0].node_id
            && with_link(ns, from, to)[0].node_type == ns[0].node_type,
{
    lemma_with_edge(ns, from, to);
    lemma_node_index(ns, from);
}

/// Every element of `remove_first(s, x)` is an element of `s`.
pub proof fn lemma_remove_first_subset(s: Seq<NodeId>, x: NodeId)
    ensures
        forall|k: int| 0 <= k < remove_first(s, x).len() ==> s.contains(#[trigger] remove_first(s, x)[k]),
{
    if s.contains(x) {
        let i = self::network_node::first_index_of(s, x);
        self::network_node::lemma_first_index_exists(s, x);
        assert forall|k: int| 0 <= k < remove_first(s, x).len() implies s.contains(#[trigger] remove_first(s, x)[k]) by {
            if k < i {
                assert(remove_first(s, x)[k] == s[k]);
            } else {
                assert(remove_first(s, x)[k] == s[k + 1]);
            }
        }
    }
}

/// Removing an edge of a present node keeps ids and keeps edges closed.
pub proof fn lemma_without_edge(ns: Seq<NodeView>, from: NodeId, to: NodeId)
    requires
        has_node(ns, from),
    ensures
        same_ids(ns, without_edge(ns, from, to)),
        forall|id: NodeId| #[trigger] node_index(without_edge(ns, from, to), id) == node_index(ns, id),
        edges_closed(ns) ==> edges_closed(without_edge(ns, from, to)),
{
    lemma_node_index(ns, from);
    let r = without_edge(ns, from, to);
    assert forall|id: NodeId| #[trigger] node_index(r, id) == node_index(ns, id) by {
        lemma_same_ids(ns, r, id);
    }
    if edges_closed(ns) {
        let k = node_index(ns, from);
        lemma_remove_first_subset(ns[k].neighbors, to);
        assert forall|i: int, j: int|
            0 <= i < r.len() && 0 <= j < r[i].neighbors.len() implies has_node(r, #[trigger] r[i].neighbors[j]) by {
            if i == k {
                let v = r[i].neighbors[j];
                assert(ns[k].neighbors.contains(v));
                let w = choose|w: int| 0 <= w < ns[k].neighbors.len() && ns[k].neighbors[w] == v;
                assert(has_node(ns, ns[k].neighbors[w]));
            } else {
                assert(r[i].neighbors[j] == ns[i].neighbors[j]);
            }
        }
    }
}

/// Appending a fresh node keeps edges closed.
pub proof fn lemma_push_fresh_closed(ns: Seq<NodeView>, id: NodeId, t: NodeType)
    requires
        edges_closed(ns),
    ensures
        edges_closed(ns.push(fresh_node(id, t))),
        forall|x: NodeId| has_node(ns, x) ==> #[trigger] has_node(ns.push(fresh_node(id, t)), x),
        has_node(ns.push(fresh_node(id, t)), id),
{
    let r = ns.push(fresh_node(id, t));
    assert forall|x: NodeId| #[trigger] node_index(r, x) == (if has_node(ns, x) {
        node_index(ns, x)
    } else if id == x {
        ns.len() as int
    } else {
        -1
    }) by {
        lemma_push_node(ns, fresh_node(id, t), x);
    }
    assert forall|i: int, j: int|
        0 <= i < r.len() && 0 <= j < r[i].neighbors.len() implies has_node(r, #[trigger] r[i].neighbors[j]) by {
        assert(i < ns.len());
        assert(r[i] == ns[i]);
        assert(has_node(ns, ns[i].neighbors[j]));
    }
}

/// Inserting the nodes of a trace keeps known nodes and makes every traced node known.
pub proof fn lemma_trace_nodes(ns: Seq<NodeView>, trace: Seq<(NodeId, NodeType)>)
    ensures
        forall|x: NodeId| has_node(ns, x) ==> #[trigger] has_node(with_trace_nodes(ns, trace), x),
        forall|k: int| 0 <= k < trace.len() ==> has_node(with_trace_nodes(ns, trace), #[trigger] trace[k].0),
        edges_closed(ns) ==> edges_closed(with_trace_nodes(ns, trace)),
        ns.len() > 0 ==> with_trace_nodes(ns, trace).len() > 0 && with_trace_nodes(ns, trace)[0] == ns[0],
    decreases trace.len(),
{
    if trace.len() > 0 {
        let prev = trace.drop_last();
        lemma_trace_nodes(ns, prev);
        let m = with_trace_nodes(ns, prev);
        let (id, t) = trace.last();
        if !has_node(m, id) {
            if edges_closed(m) {
                lemma_push_fresh_closed(m, id, t);
            }
            assert forall|x: NodeId| has_node(m, x) implies #[trigger] has_node(m.push(fresh_node(id, t)), x) by {
                lemma_push_node(m, fresh_node(id, t), x);
            }
            lemma_push_node(m, fresh_node(id, t), id);
        }
        assert forall|k: int| 0 <= k < trace.len() implies has_node(with_trace_nodes(ns, trace), #[trigger] trace[k].0) by {
            if k < trace.len() - 1 {
                assert(prev[k] == trace[k]);
            }
        }
    }
}

/// The known cost of the `k`-th node waiting in `queue`.
pub open spec fn queue_key(costs: Seq<Option<u128>>, queue: Seq<NodeId>, k: int) -> u128 {
    costs[queue[k] as int].unwrap()
}

// ---------------------------------------------------------------------------
// The graph
// ---------------------------------------------------------------------------

/// The topology known to a node (its owner): every node heard of, with its edges
/// and the number of packets it dropped.
#[derive(Clone, Debug, PartialEq, Eq)]
pub struct NetworkGraph {
    pub owner_node_id: NodeId,
    pub owner_node_type: NodeType,
    pub nodes: Vec<NetworkNode>,
}

impl NetworkGraph {
    /// The nodes as mathematical values.
    pub open spec fn nodes_view(&self) -> Seq<NodeView> {
        self.nodes@.map_values(|n: NetworkNode| n@)
    }

    /// The owner comes first, and every edge leads to a known node.
    pub open spec fn wf(&self) -> bool {
        &&& self.nodes_view().len() > 0
        &&& self.nodes_view()[0].node_id == self.owner_node_id
        &&& self.nodes_view()[0].node_type == self.owner_node_type
        &&& edges_closed(self.nodes_view())
    }

    /// The owner is known and every edge leads to a known node: what a route
    /// search needs.
    pub open spec fn routable(&self) -> bool {
        &&& has_node(self.nodes_view(), self.owner_node_id)
        &&& edges_closed(self.nodes_view())
    }

    /// A well-formed graph can be searched.
    pub proof fn lemma_wf_routable(&self)
        requires
            self.wf(),
        ensures
            self.routable(),
    {
        lemma_node_index_at(self.nodes_view(), self.owner_node_id, 0);
    }

    /// A graph that knows only its owner.
    pub fn new(owner_node_id: NodeId, owner_node_type: NodeType) -> (r: Self)
        ensures
            r.wf(),
            r.owner_node_id == owner_node_id,
            r.owner_node_type == owner_node_type,
            r.nodes_view() == seq![fresh_node(owner_node_id, owner_node_type)],
    {
        let mut result = NetworkGraph { owner_node_id, owner_node_type, nodes: Vec::new() };
        result.insert_node(owner_node_id, owner_node_type);
        proof {
            assert(result.nodes_view() =~= seq![fresh_node(owner_node_id, owner_node_type)]);
            assert(edges_closed(result.nodes_view()));
        }
        result
    }

    /// Position of the first node with id `id`.
    pub fn find_node(&self, id: NodeId) -> (r: Option<usize>)
        ensures
            match r {
                Some(i) => i as int == node_index(self.nodes_view(), id),
                None => !has_node(self.nodes_view(), id),
            },
    {
        proof {
            lemma_node_index(self.nodes_view(), id);
        }
        let mut i: usize = 0;
        while i < self.nodes.len()
            invariant
                i <= self.nodes.len(),
                forall|j: int| 0 <= j < i ==> self.nodes_view()[j].node_id != id,
            decreases self.nodes.len() - i,
        {
            if self.nodes[i].node_id == id {
                proof {
                    lemma_node_index_at(self.nodes_view(), id, i as int);
                }
                return Some(i);
            }
            i = i + 1;
        }
        None
    }

    /// Appends a node for `node_id` without checking whether one is already known.
    pub fn insert_node(&mut self, node_id: NodeId, node_type: NodeType)
        ensures
            final(self).owner_node_id == old(self).owner_node_id,
            final(self).owner_node_type == old(self).owner_node_type,
            final(self).nodes_view() == old(self).nodes_view().push(fresh_node(node_id, node_type)),
            old(self).wf() ==> final(self).wf(),
    {
        let node = NetworkNode::new(node_id, node_type);
        self.nodes.push(node);
        proof {
            assert(self.nodes_view() =~= old(self).nodes_view().push(fresh_node(node_id, node_type)));
            if old(self).wf() {
                lemma_push_fresh_closed(old(self).nodes_view(), node_id, node_type);
            }
        }
    }

    /// Appends a node for `node_id` unless one is already known.
    pub fn insert_node_if_not_present(&mut self, node_id: NodeId, node_type: NodeType)
        ensures
            final(self).owner_node_id == old(self).owner_node_id,
            final(self).owner_node_type == old(self).owner_node_type,
            final(self).nodes_view() == with_node_if_absent(old(self).nodes_view(), node_id, node_type),
            old(self).wf() ==> final(self).wf(),
    {
        if self.find_node(node_id).is_none() {
            self.insert_node(node_id, node_type);
        }
    }

    /// Adds an edge from the node found for `from` to `to`.
    fn insert_edge_from(&mut self, from: NodeId, to: NodeId)
        requires
            has_node(old(self).nodes_view(), from),
        ensures
            final(self).owner_node_id == old(self).owner_node_id,
            final(self).owner_node_type == old(self).owner_node_type,
            final(self).nodes_view() == with_edge(old(self).nodes_view(), from, to),
    {
        proof {
            lemma_node_index(old(self).nodes_view(), from);
        }
        let k = self.find_node(from).unwrap();
        self.nodes[k].insert_edge(to);
        proof {
            assert(self.nodes_view() =~= with_edge(old(self).nodes_view(), from, to));
        }
    }

    /// Adds an edge from the node found for `from` to `to`, unless it has one already.
    fn insert_link_from(&mut self, from: NodeId, to: NodeId)
        requires
            has_node(old(self).nodes_view(), from),
        ensures
            final(self).owner_node_id == old(self).owner_node_id,
            final(self).owner_node_type == old(self).owner_node_type,
            final(self).nodes_view() == with_link(old(self).nodes_view(), from, to),
    {
        proof {
            lemma_node_index(old(self).nodes_view(), from);
        }
        let k = self.find_node(from).unwrap();
        if !self.nodes[k].has_edge(to) {
            self.nodes[k].insert_edge(to);
            proof {
                assert(self.nodes_view() =~= with_edge(old(self).nodes_view(), from, to));
            }
        }
    }

    /// Links `from` and `to` both ways, adding only the edges not stored yet.
    /// Both nodes must be known.
    fn insert_bidirectional_link(&mut self, from: NodeId, to: NodeId)
        requires
            has_node(old(self).nodes_view(), from),
            has_node(old(self).nodes_view(), to),
        ensures
            final(self).owner_node_id == old(self).owner_node_id,
            final(self).owner_node_type == old(self).owner_node_type,
            final(self).nodes_view() == with_bidirectional_link(old(self).nodes_view(), from, to),
            old(self).wf() ==> final(self).wf(),
    {
        proof {
            lemma_with_link(old(self).nodes_view(), from, to);
            lemma_with_link(with_link(old(self).nodes_view(), from, to), to, from);
        }
        self.insert_link_from(from, to);
        self.insert_link_from(to, from);
    }

    /// Removes the first edge from the node found for `from` to `to`.
    fn remove_edge_from(&mut self, from: NodeId, to: NodeId)
        requires
            has_node(old(self).nodes_view(), from),
        ensures
            final(self).owner_node_id == old(self).owner_node_id,
            final(self).owner_node_type == old(self).owner_node_type,
            final(self).nodes_view() == without_edge(old(self).nodes_view(), from, to),
    {
        proof {
            lemma_node_index(old(self).nodes_view(), from);
        }
        let k = self.find_node(from).unwrap();
        self.nodes[k].remove_edge(to);
        proof {
            assert(self.nodes_view() =~= without_edge(old(self).nodes_view(), from, to));
        }
    }

    /// Adds an edge from `from` to `to` and one from `to` to `from`.
    /// Both nodes must be known.
    pub fn insert_bidirectional_edge(&mut self, from: NodeId, to: NodeId)
        requires
            has_node(old(self).nodes_view(), from),
            has_node(old(self).nodes_view(), to),
        ensures
            final(self).owner_node_id == old(self).owner_node_id,
            final(self).owner_node_type == old(self).owner_node_type,
            final(self).nodes_view() == with_bidirectional_edge(old(self).nodes_view(), from, to),
            old(self).wf() ==> final(self).wf(),
    {
        proof {
            lemma_with_edge(old(self).nodes_view(), from, to);
            lemma_with_edge(with_edge(old(self).nodes_view(), from, to), to, from);
            lemma_node_index(old(self).nodes_view(), self.owner_node_id);
        }
        self.insert_edge_from(from, to);
        self.insert_edge_from(to, from);
        proof {
            let a = old(self).nodes_view();
            let b = with_edge(a, from, to);
            lemma_node_index(a, from);
            lemma_node_index(b, to);
            assert(b[0].node_type == a[0].node_type);
            assert(self.nodes_view()[0].node_type == b[0].node_type);
            assert(self.nodes_view()[0].node_id == a[0].node_id);
        }
    }

    /// Removes one edge in each direction between `from` and `to`; does nothing
    /// when either node is unknown.
    pub fn delete_bidirectional_edge(&mut self, from: NodeId, to: NodeId)
        ensures
            final(self).owner_node_id == old(self).owner_node_id,
            final(self).owner_node_type == old(self).owner_node_type,
            final(self).nodes_view() == without_bidirectional_edge(old(self).nodes_view(), from, to),
            old(self).wf() ==> final(self).wf(),
    {
        let has_from = self.find_node(from).is_some();
        let has_to = self.find_node(to).is_some();
        if has_from && has_to {
            proof {
                lemma_without_edge(old(self).nodes_view(), from, to);
                lemma_without_edge(without_edge(old(self).nodes_view(), from, to), to, from);
            }
            self.remove_edge_from(from, to);
            self.remove_edge_from(to, from);
            proof {
                let a = old(self).nodes_view();
                let b = without_edge(a, from, to);
                lemma_node_index(a, from);
                lemma_node_index(b, to);
                assert(b[0].node_type == a[0].node_type);
                assert(self.nodes_view()[0].node_type == b[0].node_type);
                assert(self.nodes_view()[0].node_id == a[0].node_id);
            }
        }
    }

    /// Counts one more packet dropped by the node `node_id`; an unknown node is
    /// ignored (a late report may name a node forgotten by a reset).
    pub fn increment_num_of_dropped_packets(&mut self, node_id: NodeId)
        requires
            can_count_drop(old(self).nodes_view(), node_id),
        ensures
            final(self).owner_node_id == old(self).owner_node_id,
            final(self).owner_node_type == old(self).owner_node_type,
            final(self).nodes_view() == with_dropped_packet(old(self).nodes_view(), node_id),
            old(self).wf() ==> final(self).wf(),
    {
        match self.find_node(node_id) {
            Some(k) => {
                proof {
                    lemma_node_index(old(self).nodes_view(), node_id);
                    assert(old(self).nodes_view()[k as int] == node_of(old(self).nodes_view(), node_id));
                }
                self.nodes[k].increment_dropped_packets();
                proof {
                    let r = with_dropped_packet(old(self).nodes_view(), node_id);
                    assert(self.nodes_view() =~= r);
                    if old(self).wf() {
                        assert(same_ids(old(self).nodes_view(), r));
                        assert forall|id: NodeId| #[trigger] node_index(r, id) == node_index(old(self).nodes_view(), id) by {
                            lemma_same_ids(old(self).nodes_view(), r, id);
                        }
                        assert forall|i: int, j: int|
                            0 <= i < r.len() && 0 <= j < r[i].neighbors.len() implies has_node(r, #[trigger] r[i].neighbors[j]) by {
                            assert(r[i].neighbors == old(self).nodes_view()[i].neighbors);
                        }
                    }
                }
            },
            None => {},
        }
    }

    /// Learns the nodes and links of a path a flood travelled: every node of the
    /// trace not known yet is added, and every two consecutive nodes get linked
    /// both ways, with only the edges not stored yet added.
    pub fn insert_edges_from_path_trace(&mut self, path_trace: &[(NodeId, NodeType)])
        ensures
            old(self).wf() ==> final(self).wf(),
            final(self).owner_node_id == old(self).owner_node_id,
            final(self).owner_node_type == old(self).owner_node_type,
            final(self).nodes_view() == with_trace_edges(with_trace_nodes(old(self).nodes_view(), path_trace@), path_trace@),
    {
        let ghost start = self.nodes_view();
        let mut i: usize = 0;
        while i < path_trace.len()
            invariant
                i <= path_trace@.len(),
                old(self).wf() ==> self.wf(),
                self.owner_node_id == old(self).owner_node_id,
                self.owner_node_type == old(self).owner_node_type,
                start == old(self).nodes_view(),
                self.nodes_view() == with_trace_nodes(start, path_trace@.take(i as int)),
            decreases path_trace@.len() - i,
        {
            let (node_id, node_type) = path_trace[i];
            self.insert_node_if_not_present(node_id, node_type);
            proof {
                assert(path_trace@.take(i + 1).drop_last() =~= path_trace@.take(i as int));
            }
            i = i + 1;
        }
        proof {
            assert(path_trace@.take(path_trace@.len() as int) =~= path_trace@);
            lemma_trace_nodes(start, path_trace@);
        }
        let ghost known = self.nodes_view();
        if path_trace.len() >= 2 {
            let mut j: usize = 1;
            while j < path_trace.len()
                invariant
                    1 <= j <= path_trace@.len(),
                    old(self).wf() ==> self.wf(),
                    self.owner_node_id == old(self).owner_node_id,
                    self.owner_node_type == old(self).owner_node_type,
                    known == with_trace_nodes(start, path_trace@),
                    forall|k: int| 0 <= k < path_trace@.len() ==> has_node(known, #[trigger] path_trace@[k].0),
                    forall|x: NodeId| #[trigger] node_index(self.nodes_view(), x) == node_index(known, x),
                    self.nodes_view() == with_trace_edges(known, path_trace@.take(j as int)),
                decreases path_trace@.len() - j,
            {
                let from = path_trace[j - 1].0;
                let to = path_trace[j].0;
                proof {
                    assert(has_node(known, path_trace@[j - 1].0));
                    assert(has_node(known, path_trace@[j as int].0));
                    let cur = self.nodes_view();
                    lemma_with_link(cur, from, to);
                    lemma_with_link(with_link(cur, from, to), to, from);
                }
                self.insert_bidirectional_link(from, to);
                proof {
                    let t = path_trace@.take(j + 1);
                    assert(t.drop_last() =~= path_trace@.take(j as int));
                    assert(t[t.len() - 2] == path_trace@[j - 1]);
                    assert(t.last() == path_trace@[j as int]);
                }
                j = j + 1;
            }
            proof {
                assert(path_trace@.take(path_trace@.len() as int) =~= path_trace@);
            }
        } else {
            proof {
                assert(with_trace_edges(known, path_trace@) == known);
            }
        }
    }

    /// Whether `x` is waiting in `queue`.
    fn queue_contains(queue: &Vec<NodeId>, x: NodeId) -> (r: bool)
        ensures
            r == queue@.contains(x),
    {
        let mut i: usize = 0;
        while i < queue.len()
            invariant
                i <= queue.len(),
                forall|j: int| 0 <= j < i ==> queue@[j] != x,
            decreases queue.len() - i,
        {
            if queue[i] == x {
                return true;
            }
            i = i + 1;
        }
        false
    }

    /// Orders `queue` by increasing known cost; entries of equal cost keep their
    /// relative order.
    fn sort_by_cost(queue: &mut Vec<NodeId>, costs: &Vec<Option<u128>>)
        requires
            costs@.len() == 256,
            old(queue)@.no_duplicates(),
            forall|k: int| 0 <= k < old(queue)@.len() ==> (#[trigger] costs@[old(queue)@[k] as int]) is Some,
        ensures
            final(queue)@.len() == old(queue)@.len(),
            final(queue)@.no_duplicates(),
            forall|k: int| 0 <= k < final(queue)@.len() ==> (#[trigger] costs@[final(queue)@[k] as int]) is Some,
            forall|x: NodeId| #[trigger] final(queue)@.contains(x) == old(queue)@.contains(x),
            forall|a: int, b: int| 0 <= a < b < final(queue)@.len()
                ==> queue_key(costs@, final(queue)@, a) <= queue_key(costs@, final(queue)@, b),
            final(queue)@ == order_by_cost(old(queue)@, costs@),
    {
        let ghost start = queue@;
        proof {
            if start.len() >= 1 {
                let t1 = start.take(1);
                assert(t1.drop_last() =~= Seq::<NodeId>::empty());
                assert(order_by_cost(t1.drop_last(), costs@) =~= Seq::<NodeId>::empty());
                assert(insert_by_cost(Seq::<NodeId>::empty(), t1.last(), costs@) =~= seq![t1.last()]);
                assert(order_by_cost(t1, costs@) =~= queue@.take(1));
                assert(queue@.skip(1) =~= start.skip(1));
            } else {
                assert(queue@ =~= order_by_cost(start, costs@));
            }
        }
        let mut i: usize = 1;
        while i < queue.len()
            invariant
                1 <= i,
                start == old(queue)@,
                start.len() >= 1 ==> i <= queue@.len(),
                start.len() >= 1 ==> queue@.take(i as int) == order_by_cost(start.take(i as int), costs@),
                start.len() >= 1 ==> queue@.skip(i as int) == start.skip(i as int),
                start.len() == 0 ==> queue@ == order_by_cost(start, costs@),
                costs@.len() == 256,
                queue@.len() == old(queue)@.len(),
                queue@.no_duplicates(),
                forall|k: int| 0 <= k < queue@.len() ==> (#[trigger] costs@[queue@[k] as int]) is Some,
                forall|x: NodeId| #[trigger] queue@.contains(x) == old(queue)@.contains(x),
                forall|a: int, b: int| 0 <= a < b < i && b < queue@.len()
                    ==> queue_key(costs@, queue@, a) <= queue_key(costs@, queue@, b),
            decreases queue.len() - i,
        {
            let ghost sorted = queue@.take(i as int);
            let ghost x = queue@[i as int];
            proof {
                assert(x == start[i as int]) by {
                    assert(queue@.skip(i as int)[0] == start.skip(i as int)[0]);
                }
                assert(queue@.take(i + 1) =~= sorted.take(i as int).push(x) + sorted.skip(i as int));
                assert(queue@.skip(i + 1) =~= queue@.skip(i as int).skip(1));
                assert(start.skip(i + 1) =~= start.skip(i as int).skip(1));
            }
            let mut j: usize = i;
            while j > 0 && costs[queue[j - 1] as usize].unwrap() > costs[queue[j] as usize].unwrap()
                invariant
                    sorted.len() == i,
                    queue@[j as int] == x,
                    queue@.take(i + 1) == sorted.take(j as int).push(x) + sorted.skip(j as int),
                    queue@.skip(i + 1) == start.skip(i + 1),
                    forall|t: int| j <= t < i ==> key(costs@, #[trigger] sorted[t]) > key(costs@, x),
                    j <= i < queue@.len(),
                    costs@.len() == 256,
                    queue@.len() == old(queue)@.len(),
                    queue@.no_duplicates(),
                    forall|k: int| 0 <= k < queue@.len() ==> (#[trigger] costs@[queue@[k] as int]) is Some,
                    forall|x: NodeId| #[trigger] queue@.contains(x) == old(queue)@.contains(x),
                    forall|a: int, b: int| 0 <= a < b <= i && a != j && b != j
                        ==> queue_key(costs@, queue@, a) <= queue_key(costs@, queue@, b),
                    forall|b: int| j < b <= i ==> queue_key(costs@, queue@, j as int) < queue_key(costs@, queue@, b),
                decreases j,
            {
                let a = queue[j - 1];
                let b = queue[j];
                let ghost q = queue@;
                proof {
                    lemma_swap_adjacent(queue@, j as int);
                    assert(queue_key(costs@, q, j - 1) > queue_key(costs@, q, j as int));
                }
                queue.set(j - 1, b);
                queue.set(j, a);
                proof {
                    let r = queue@;
                    assert(r == swap_adjacent(q, j as int));
                    assert(q[j - 1] == q.take(i + 1)[j - 1]);
                    assert(q.take(i + 1)[j - 1] == sorted[j - 1]);
                    assert(key(costs@, sorted[j - 1]) > key(costs@, x));
                    assert(r.take(i + 1) =~= sorted.take(j - 1).push(x) + sorted.skip(j - 1)) by {
                        assert forall|t: int| 0 <= t < i + 1 implies #[trigger] r.take(i + 1)[t]
                            == (sorted.take(j - 1).push(x) + sorted.skip(j - 1))[t] by {
                            if t < j - 1 {
                                assert(r[t] == q[t]);
                                assert(q[t] == q.take(i + 1)[t]);
                            } else if t == j - 1 {
                            } else if t == j {
                            } else {
                                assert(r[t] == q[t]);
                                assert(q[t] == q.take(i + 1)[t]);
                            }
                        }
                    }
                    assert(r.skip(i + 1) =~= q.skip(i + 1));
                    assert forall|x: int, y: int| 0 <= x < y <= i && x != j - 1 && y != j - 1
                        implies queue_key(costs@, r, x) <= queue_key(costs@, r, y) by {
                        if y == j {
                            assert(r[y] == q[j - 1]);
                            assert(r[x] == q[x]);
                            assert(queue_key(costs@, q, x) <= queue_key(costs@, q, j - 1));
                        } else if x == j {
                            assert(r[x] == q[j - 1]);
                            assert(r[y] == q[y]);
                            assert(queue_key(costs@, q, j - 1) <= queue_key(costs@, q, y));
                        } else {
                            assert(r[x] == q[x]);
                            assert(r[y] == q[y]);
                            assert(queue_key(costs@, q, x) <= queue_key(costs@, q, y));
                        }
                    }
                    assert forall|y: int| j - 1 < y <= i implies queue_key(costs@, r, j - 1) < #[trigger] queue_key(costs@, r, y) by {
                        assert(r[j - 1] == q[j as int]);
                        if y == j {
                            assert(r[y] == q[j - 1]);
                        } else {
                            assert(r[y] == q[y]);
                            assert(queue_key(costs@, q, j as int) < queue_key(costs@, q, y));
                        }
                    }
                }
                j = j - 1;
            }
            proof {
                let q = queue@;
                if j > 0 {
                    assert(q[j - 1] == q.take(i + 1)[j - 1]);
                    assert(q.take(i + 1)[j - 1] == sorted[j - 1]);
                }
                lemma_insert_at(sorted, x, costs@, j as int);
                let t = start.take(i + 1);
                assert(t.drop_last() =~= start.take(i as int));
                assert(t.last() == x);
                assert(q.take(i + 1) == order_by_cost(t, costs@));
                assert(q.skip(i + 1) == start.skip(i + 1));
                assert forall|x: int, y: int| 0 <= x < y < i + 1 && y < q.len()
                    implies queue_key(costs@, q, x) <= queue_key(costs@, q, y) by {
                    if y == j {
                        if x < j - 1 {
                            assert(queue_key(costs@, q, x) <= queue_key(costs@, q, j - 1));
                        }
                    } else if x == j {
                        assert(queue_key(costs@, q, j as int) < queue_key(costs@, q, y));
                    }
                }
            }
            i = i + 1;
        }
        proof {
            if start.len() >= 1 {
                assert(queue@.take(queue@.len() as int) =~= queue@);
                assert(start.take(start.len() as int) =~= start);
            }
        }
    }

    /// Cheapest-route search from the owner. Nodes are examined cheapest first;
    /// only the owner and drones pass packets on. Returns, per node id, the
    /// predecessor on the cheapest route found and that route's cost, with the
    /// order in which costs were set (`stamps`) as a ghost witness.
    fn get_paths(&self) -> (r: (Vec<Option<NodeId>>, Vec<Option<u128>>, Ghost<Seq<nat>>, Ghost<nat>))
        requires
            self.routable(),
            drops_bounded(self.nodes_view()),
        ensures
            tables_ok(self.nodes_view(), self.owner_node_id, r.1@, r.0@, r.2@, r.3@, Seq::empty()),
            settled_except(self.nodes_view(), self.owner_node_id, r.1@, Seq::empty(), -1),
            r.1@ == search_result(self.nodes_view(), self.owner_node_id).0,
            r.0@ == search_result(self.nodes_view(), self.owner_node_id).1,
            exists|n: nat| (#[trigger] search_after(self.nodes_view(), self.owner_node_id, n)).2.len() == 0,
    {
        let ghost ns = self.nodes_view();
        let owner = self.owner_node_id;
        let mut come_from: Vec<Option<NodeId>> = Vec::new();
        let mut costs: Vec<Option<u128>> = Vec::new();
        let mut n: usize = 0;
        while n < 256
            invariant
                n <= 256,
                come_from@.len() == n,
                costs@.len() == n,
                forall|i: int| 0 <= i < n ==> #[trigger] come_from@[i] is None,
                forall|i: int| 0 <= i < n ==> #[trigger] costs@[i] is None,
            decreases 256 - n,
        {
            come_from.push(None);
            costs.push(None);
            n = n + 1;
        }
        let ghost empty_costs = costs@;
        costs.set(owner as usize, Some(0));
        let ghost mut stamps: Seq<nat> = Seq::new(256, |i: int| 0nat);
        let ghost mut clock: nat = 1;
        let mut queue: Vec<NodeId> = Vec::new();
        queue.push(owner);
        let ghost mut steps: nat = 0;
        proof {
            assert(costs@ =~= initial_search(owner).0);
            assert(come_from@ =~= initial_search(owner).1);
            assert(queue@ =~= initial_search(owner).2);
            assert forall|x: int| 0 <= x < 256 && within(empty_costs, x, 0) implies within(costs@, x, 0) by {}
            lemma_count_within_grows(empty_costs, 0, costs@, 0, 256, owner as int);
            assert(bound_ok(costs@, owner));
            assert forall|x: NodeId| #[trigger] bound_ok(costs@, x) by {}
            assert forall|x: NodeId| #[trigger] pred_ok(ns, owner, costs@, come_from@, stamps, x) by {}
            assert forall|x: NodeId| costs@[x as int] is Some implies #[trigger] has_node(ns, x) by {
                assert(x == owner);
            }
            assert(queue@.contains(owner)) by {
                assert(queue@[0] == owner);
            }
            assert forall|u: NodeId|
                u as int != -1 && relays(ns, owner, u) && costs@[u as int] is Some && !queue@.contains(u)
                implies #[trigger] route_model::relaxed_upto(ns, costs@, u, nbrs(ns, u).len() as int) by {
                assert(u == owner);
            }
        }
        while queue.len() > 0
            invariant
                self.routable(),
                drops_bounded(ns),
                ns == self.nodes_view(),
                owner == self.owner_node_id,
                tables_ok(ns, owner, costs@, come_from@, stamps, clock, queue@),
                settled_except(ns, owner, costs@, queue@, -1),
                (costs@, come_from@, queue@) == search_after(ns, owner, steps),
            decreases potential(costs@, 256) + queue@.len(),
        {
            proof {
                lemma_pop(ns, owner, costs@, come_from@, stamps, clock, queue@);
                lemma_potential_nonneg(costs@, 256);
            }
            let ghost base = potential(costs@, 256) + queue@.len() - 1;
            let ghost before = search_after(ns, owner, steps);
            let current = queue.remove(0);
            proof {
                lemma_node_index(ns, current);
                assert(queue@ =~= before.2.drop_first());
            }
            let ghost popped = (costs@, come_from@, queue@);
            let idx = self.find_node(current).unwrap();
            if self.nodes[idx].node_type != NodeType::Drone && current != owner {
                proof {
                    assert(ns[idx as int] == self.nodes@[idx as int]@);
                    assert(!relays(ns, owner, current));
                    steps = steps + 1;
                }
                continue;
            }
            proof {
                assert(ns[idx as int] == self.nodes@[idx as int]@);
                assert(relays(ns, owner, current));
            }
            let current_cost = costs[current as usize].unwrap();
            let nbr_count = self.nodes[idx].neighbors.len();
            let mut k: usize = 0;
            while k < nbr_count
                invariant
                    self.routable(),
                    drops_bounded(ns),
                    ns == self.nodes_view(),
                    owner == self.owner_node_id,
                    idx as int == node_index(ns, current),
                    0 <= idx < ns.len(),
                    nbr_count == nbrs(ns, current).len(),
                    relaxing(ns, owner, costs@, come_from@, stamps, clock, queue@, current, current_cost, k as int),
                    potential(costs@, 256) + queue@.len() <= base,
                    (costs@, come_from@, queue@) == relax_upto(ns, popped, current, current_cost, k as int),
                decreases nbr_count - k,
            {
                let neighbor = self.nodes[idx].neighbors[k];
                proof {
                    assert(neighbor == nbrs(ns, current)[k as int]);
                    assert(has_node(ns, neighbor)) by {
                        assert(ns[idx as int].neighbors[k as int] == neighbor);
                    }
                    lemma_node_index(ns, neighbor);
                    lemma_weight_bounded(ns, neighbor);
                    assert(bound_ok(costs@, current));
                    lemma_cost_bounded(costs@, current);
                }
                let neighbor_current_cost = match costs[neighbor as usize] {
                    Some(c) => c,
                    None => u128::MAX,
                };
                let nidx = self.find_node(neighbor).unwrap();
                let proposed = current_cost + self.nodes[nidx].num_of_dropped_packets as u128;
                proof {
                    assert(proposed == current_cost + weight(ns, neighbor));
                }
                if proposed < neighbor_current_cost {
                    proof {
                        lemma_relax_step(ns, owner, costs@, come_from@, stamps, clock, queue@, current, current_cost, k as int, proposed);
                    }
                    let ghost prior = (costs@, come_from@, queue@);
                    come_from.set(neighbor as usize, Some(current));
                    costs.set(neighbor as usize, Some(proposed));
                    if !Self::queue_contains(&queue, neighbor) {
                        queue.push(neighbor);
                    }
                    proof {
                        stamps = stamps.update(neighbor as int, clock);
                        clock = clock + 1;
                        assert((costs@, come_from@, queue@) == relax(ns, prior, current, current_cost, neighbor));
                    }
                } else {
                    proof {
                        assert((costs@, come_from@, queue@) == relax(ns, (costs@, come_from@, queue@), current, current_cost, neighbor));
                        assert(costs@[neighbor as int] is Some);
                        assert(relaxed_to(ns, costs@, current, nbrs(ns, current)[k as int]));
                        assert forall|j: int| 0 <= j < k + 1 implies relaxed_to(ns, costs@, current, #[trigger] nbrs(ns, current)[j]) by {}
                    }
                }
                k = k + 1;
            }
            proof {
                lemma_relaxed_all(ns, owner, costs@, come_from@, stamps, clock, queue@, current, current_cost);
            }
            let ghost before_sort = queue@;
            Self::sort_by_cost(&mut queue, &costs);
            proof {
                lemma_reorder(ns, owner, costs@, come_from@, stamps, clock, before_sort, queue@);
                lemma_potential_nonneg(costs@, 256);
                assert(potential(costs@, 256) + queue@.len() <= base);
                assert(current_cost == before.0[current as int].unwrap());
                assert((costs@, come_from@, queue@) == search_step(ns, owner, before));
                steps = steps + 1;
            }
        }
        proof {
            lemma_search_result(ns, owner, steps);
            assert(search_after(ns, owner, steps).2.len() == 0);
        }
        (come_from, costs, Ghost(stamps), Ghost(clock))
    }

    /// The cheapest route from the owner to `to`, the cost of a route being the
    /// number of packets dropped by the nodes it enters; only the owner and
    /// drones may relay. `None` when `to` is the owner or cannot be reached.
    /// Among routes of equal cost, the one returned is read back from the
    /// predecessors that the search (see `search_order`) recorded.
    pub fn get_path_to(&self, to: NodeId) -> (r: Option<Vec<NodeId>>)
        requires
            self.routable(),
        ensures
            match r {
                Some(p) => {
                    &&& to != self.owner_node_id
                    &&& is_route(self.nodes_view(), self.owner_node_id, p@)
                    &&& p@.last() == to
                    &&& p@.no_duplicates()
                    &&& forall|q: Seq<NodeId>|
                        is_route(self.nodes_view(), self.owner_node_id, q) && q.last() == to
                            ==> route_cost(self.nodes_view(), p@) <= route_cost(self.nodes_view(), q)
                },
                None => to == self.owner_node_id || forall|q: Seq<NodeId>|
                    is_route(self.nodes_view(), self.owner_node_id, q) ==> q.last() != to,
            },
            match r {
                Some(p) => {
                    &&& p@[0] == self.owner_node_id
                    &&& forall|i: int| 0 <= i < p@.len() - 1
                        ==> search_result(self.nodes_view(), self.owner_node_id).1[#[trigger] p@[i + 1] as int] == Some(p@[i])
                },
                None => to == self.owner_node_id
                    || search_result(self.nodes_view(), self.owner_node_id).1[to as int] is None,
            },
            r matches Some(p) ==> (no_drops(self.nodes_view()) ==> forall|q: Seq<NodeId>|
                is_route(self.nodes_view(), self.owner_node_id, q) && q.last() == to ==> p@.len() <= q.len()),
    {
        let ghost ns = self.nodes_view();
        let owner = self.owner_node_id;
        proof {
            assert forall|i: int| 0 <= i < ns.len() implies #[trigger] ns[i].dropped <= DROP_LIMIT by {
                assert(ns[i] == self.nodes@[i]@);
            }
        }
        let (distances, costs, Ghost(stamps), Ghost(clock)) = self.get_paths();
        let first = match distances[to as usize] {
            Some(u) => u,
            None => {
                proof {
                    if to != owner {
                        assert(pred_ok(ns, owner, costs@, distances@, stamps, to));
                        assert forall|q: Seq<NodeId>| is_route(ns, owner, q) implies q.last() != to by {
                            lemma_cost_lower_bound(ns, owner, costs@, distances@, stamps, clock, q);
                        }
                    }
                }
                return None;
            },
        };
        proof {
            assert(pred_ok(ns, owner, costs@, distances@, stamps, to));
        }
        let mut result: Vec<NodeId> = Vec::new();
        result.push(to);
        let mut current = first;
        let ghost mut tail: Seq<NodeId> = seq![to];
        proof {
            // the route to `to` is exact: the search settled every relaying node
            assert(step_ok(ns, owner, first, to));
            assert(nbrs(ns, first).contains(to));
            let k = choose|k: int| 0 <= k < nbrs(ns, first).len() && nbrs(ns, first)[k] == to;
            assert(!Seq::<NodeId>::empty().contains(first));
            assert(relaxed_upto(ns, costs@, first, nbrs(ns, first).len() as int));
            assert(relaxed_to(ns, costs@, first, nbrs(ns, first)[k]));
            assert(tail.drop_last() =~= Seq::<NodeId>::empty());
            assert(weight_sum(ns, Seq::<NodeId>::empty()) == 0);
            assert(tail.last() == to);
            assert(weight_sum(ns, tail) == weight(ns, to));
        }
        while current != owner
            invariant
                ns == self.nodes_view(),
                owner == self.owner_node_id,
                tables_ok(ns, owner, costs@, distances@, stamps, clock, Seq::empty()),
                settled_except(ns, owner, costs@, Seq::empty(), -1),
                costs@[current as int] is Some,
                costs@[to as int] is Some,
                tail.len() >= 1,
                tail.last() == to,
                result@.len() == tail.len(),
                forall|i: int| 0 <= i < tail.len() ==> #[trigger] result@[i] == tail[tail.len() - 1 - i],
                step_ok(ns, owner, current, tail[0]),
                forall|i: int| 0 <= i < tail.len() - 1 ==> step_ok(ns, owner, #[trigger] tail[i], tail[i + 1]),
                costs@[to as int].unwrap() == costs@[current as int].unwrap() + weight_sum(ns, tail),
                tail.no_duplicates(),
                forall|i: int| 0 <= i < tail.len() ==> #[trigger] costs@[tail[i] as int] is Some,
                forall|i: int| 0 <= i < tail.len() ==> ranks_below(costs@, stamps, current, #[trigger] tail[i]),
                distances@[tail[0] as int] == Some(current),
                forall|i: int| 0 <= i < tail.len() - 1 ==> distances@[#[trigger] tail[i + 1] as int] == Some(tail[i]),
            decreases costs@[current as int].unwrap(), stamps[current as int],
        {
            result.push(current);
            let prev = current;
            proof {
                assert(pred_ok(ns, owner, costs@, distances@, stamps, prev));
            }
            current = distances[prev as usize].unwrap();
            proof {
                assert(pred_ok(ns, owner, costs@, distances@, stamps, prev));
                assert(nbrs(ns, current).contains(prev));
                let k = choose|k: int| 0 <= k < nbrs(ns, current).len() && nbrs(ns, current)[k] == prev;
                assert(!Seq::<NodeId>::empty().contains(current));
                assert(relaxed_upto(ns, costs@, current, nbrs(ns, current).len() as int));
                assert(relaxed_to(ns, costs@, current, nbrs(ns, current)[k]));
                let old_tail = tail;
                lemma_weight_sum_cons(ns, prev, old_tail);
                tail = seq![prev] + old_tail;
                assert(ranks_below(costs@, stamps, current, prev));
                assert forall|i: int| 0 <= i < tail.len() implies ranks_below(costs@, stamps, current, #[trigger] tail[i]) by {
                    if i > 0 {
                        assert(tail[i] == old_tail[i - 1]);
                        assert(ranks_below(costs@, stamps, prev, old_tail[i - 1]));
                    }
                }
                assert forall|i: int| 0 <= i < tail.len() implies #[trigger] costs@[tail[i] as int] is Some by {
                    if i > 0 {
                        assert(tail[i] == old_tail[i - 1]);
                    }
                }
                assert(tail.no_duplicates()) by {
                    assert forall|i: int, j: int| 0 <= i < tail.len() && 0 <= j < tail.len() && i != j implies tail[i] != tail[j] by {
                        if i == 0 && j > 0 {
                            assert(ranks_below(costs@, stamps, prev, old_tail[j - 1]));
                        } else if j == 0 && i > 0 {
                            assert(ranks_below(costs@, stamps, prev, old_tail[i - 1]));
                        } else if i > 0 && j > 0 {
                            assert(old_tail[i - 1] != old_tail[j - 1]);
                        }
                    }
                }
                assert(tail[0] == prev);
                assert forall|i: int| 0 <= i < tail.len() - 1 implies distances@[#[trigger] tail[i + 1] as int] == Some(tail[i]) by {
                    if i > 0 {
                        assert(tail[i] == old_tail[i - 1]);
                        assert(tail[i + 1] == old_tail[i]);
                    } else {
                        assert(tail[1] == old_tail[0]);
                    }
                }
                assert forall|i: int| 0 <= i < tail.len() - 1 implies step_ok(ns, owner, #[trigger] tail[i], tail[i + 1]) by {
                    if i > 0 {
                        assert(tail[i] == old_tail[i - 1]);
                        assert(tail[i + 1] == old_tail[i]);
                    }
                }
                assert forall|i: int| 0 <= i < tail.len() implies #[trigger] result@[i] == tail[tail.len() - 1 - i] by {
                    if i < old_tail.len() {
                        assert(result@[i] == old_tail[old_tail.len() - 1 - i]);
                    }
                }
            }
        }
        result.push(owner);
        let ghost full = seq![owner] + tail;
        proof {
            assert(full.no_duplicates()) by {
                assert forall|i: int, j: int| 0 <= i < full.len() && 0 <= j < full.len() && i != j implies full[i] != full[j] by {
                    if i == 0 && j > 0 {
                        assert(ranks_below(costs@, stamps, owner, tail[j - 1]));
                    } else if j == 0 && i > 0 {
                        assert(ranks_below(costs@, stamps, owner, tail[i - 1]));
                    } else if i > 0 && j > 0 {
                        assert(tail[i - 1] != tail[j - 1]);
                    }
                }
            }
            assert forall|i: int| 0 <= i < full.len() implies #[trigger] result@[i] == full[full.len() - 1 - i] by {
                if i < tail.len() {
                    assert(result@[i] == tail[tail.len() - 1 - i]);
                }
            }
        }
        let mut path: Vec<NodeId> = Vec::new();
        let mut m: usize = result.len();
        while m > 0
            invariant
                m <= result@.len(),
                result@.len() == full.len(),
                forall|i: int| 0 <= i < full.len() ==> #[trigger] result@[i] == full[full.len() - 1 - i],
                path@ == full.take(full.len() - m),
            decreases m,
        {
            m = m - 1;
            path.push(result[m]);
            proof {
                assert(path@ =~= full.take(full.len() - m));
            }
        }
        proof {
            assert(path@ =~= full);
            lemma_route_cost_cons(ns, owner, tail);
            assert(is_route(ns, owner, full)) by {
                assert forall|i: int| 0 <= i < full.len() - 1 implies step_ok(ns, owner, #[trigger] full[i], full[i + 1]) by {
                    if i > 0 {
                        assert(full[i] == tail[i - 1]);
                        assert(full[i + 1] == tail[i]);
                    }
                }
            }
            assert forall|q: Seq<NodeId>|
                is_route(ns, owner, q) && q.last() == to implies route_cost(ns, path@) <= route_cost(ns, q) by {
                lemma_cost_lower_bound(ns, owner, costs@, distances@, stamps, clock, q);
            }
            assert forall|i: int| 0 <= i < full.len() - 1 implies distances@[#[trigger] full[i + 1] as int] == Some(full[i]) by {
                if i > 0 {
                    assert(full[i] == tail[i - 1]);
                    assert(full[i + 1] == tail[i]);
                } else {
                    assert(full[1] == tail[0]);
                }
            }
            if no_drops(ns) {
                let n = choose|n: nat| (#[trigger] search_after(ns, owner, n)).2.len() == 0;
                assert forall|q: Seq<NodeId>| is_route(ns, owner, q) && q.last() == to implies path@.len() <= q.len() by {
                    assert(full.last() == to);
                    self::fewest_hops::law_no_drops_fewest_hops(ns, owner, n, full, q);
                }
            }
        }
        Some(path)
    }

    /// Whether the node `node_id`, if known, can count one more dropped packet.
    pub fn can_count_drop_of(&self, node_id: NodeId) -> (r: bool)
        ensures
            r == can_count_drop(self.nodes_view(), node_id),
    {
        match self.find_node(node_id) {
            Some(k) => {
                proof {
                    lemma_node_index(self.nodes_view(), node_id);
                    assert(self.nodes_view()[k as int] == self.nodes@[k as int]@);
                }
                self.nodes[k].num_of_dropped_packets < u64::MAX
            },
            None => true,
        }
    }

    /// Forgets everything but the owner.
    pub fn reset_graph(&mut self)
        ensures
            final(self).wf(),
            final(self).owner_node_id == old(self).owner_node_id,
            final(self).owner_node_type == old(self).owner_node_type,
            final(self).nodes_view() == seq![fresh_node(old(self).owner_node_id, old(self).owner_node_type)],
    {
        let owner_node = NetworkNode::new(self.owner_node_id, self.owner_node_type);
        let mut nodes = Vec::new();
        nodes.push(owner_node);
        self.nodes = nodes;
        proof {
            assert(self.nodes_view() =~= seq![fresh_node(self.owner_node_id, self.owner_node_type)]);
            assert(edges_closed(self.nodes_view()));
        }
    }
}

} // verus!
