//! Laws of the topology operations: what one operation undoes of another, and
//! what learning a flood's path makes possible.
use vstd::prelude::*;
use crate::packet::{NodeId, NodeType};
use crate::transmitter::gateway::trace_ids;
use super::network_node::{remove_first, lemma_remove_undoes_insert, lemma_first_index_of, NodeView};
use super::route_model::{is_route, linked, relays, step_ok};
use super::{
    has_node, node_index, node_of, with_bidirectional_edge, with_bidirectional_link, with_edge,
    with_link, with_node_if_absent, with_dropped_packet, with_trace_edges, with_trace_nodes, without_bidirectional_edge,
    without_edge, lemma_node_index, lemma_with_edge, lemma_with_link, lemma_trace_nodes,
    lemma_push_node, fresh_node,
};

verus! {

/// Inserting a node that is already known (under any type) changes nothing:
/// inserting the same id twice is the same as inserting it once.
pub proof fn law_insert_node_if_absent_idempotent(ns: Seq<NodeView>, id: NodeId, t1: NodeType, t2: NodeType)
    ensures
        with_node_if_absent(with_node_if_absent(ns, id, t1), id, t2) == with_node_if_absent(ns, id, t1),
{
    if !has_node(ns, id) {
        lemma_push_node(ns, fresh_node(id, t1), id);
    }
}

/// Deleting the link between two known nodes right after linking them gives
/// back the topology it started from, when neither had an edge to the other before.
pub proof fn law_delete_undoes_insert(ns: Seq<NodeView>, a: NodeId, b: NodeId)
    requires
        has_node(ns, a),
        has_node(ns, b),
        !node_of(ns, a).neighbors.contains(b),
        !node_of(ns, b).neighbors.contains(a),
    ensures
        without_bidirectional_edge(with_bidirectional_edge(ns, a, b), a, b) == ns,
{
    lemma_node_index(ns, a);
    lemma_node_index(ns, b);
    lemma_with_edge(ns, a, b);
    let ns1 = with_edge(ns, a, b);
    lemma_with_edge(ns1, b, a);
    let ns2 = with_edge(ns1, b, a);
    let ka = node_index(ns, a);
    let kb = node_index(ns, b);
    assert(node_index(ns2, a) == ka);
    assert(node_index(ns2, b) == kb);
    lemma_without_edge_indices(ns2, a, b);
    let ns3 = without_edge(ns2, a, b);
    let ns4 = without_edge(ns3, b, a);
    let sa = ns[ka].neighbors;
    if a != b {
        assert(ka != kb);
        assert(ns2[ka].neighbors == sa.push(b));
        lemma_remove_undoes_insert(sa, b);
        assert(ns3[ka].neighbors == sa);
        assert(ns3[kb].neighbors == ns[kb].neighbors.push(a));
        lemma_remove_undoes_insert(ns[kb].neighbors, a);
        assert(ns4 =~= ns);
    } else {
        assert(ns2[ka].neighbors == sa.push(a).push(a));
        let t = sa.push(a).push(a);
        lemma_first_index_of(t, a, sa.len() as int);
        assert(remove_first(t, a) =~= sa.push(a));
        assert(ns3[ka].neighbors == sa.push(a));
        lemma_remove_undoes_insert(sa, a);
        assert(ns4 =~= ns);
    }
}

proof fn lemma_without_edge_indices(ns: Seq<NodeView>, a: NodeId, b: NodeId)
    requires
        has_node(ns, a),
        has_node(ns, b),
    ensures
        forall|id: NodeId| #[trigger] node_index(without_edge(without_edge(ns, a, b), b, a), id) == node_index(ns, id),
        forall|id: NodeId| #[trigger] node_index(without_edge(ns, a, b), id) == node_index(ns, id),
{
    super::lemma_without_edge(ns, a, b);
    super::lemma_without_edge(without_edge(ns, a, b), b, a);
}

/// Adding an edge keeps every existing link.
proof fn lemma_with_edge_keeps_links(ns: Seq<NodeView>, a: NodeId, b: NodeId)
    requires
        has_node(ns, a),
    ensures
        forall|u: NodeId, v: NodeId| linked(ns, u, v) ==> #[trigger] linked(with_edge(ns, a, b), u, v),
        linked(with_edge(ns, a, b), a, b),
        forall|u: NodeId| #[trigger] node_of(with_edge(ns, a, b), u).node_type == node_of(ns, u).node_type
            || !has_node(ns, u),
{
    lemma_with_edge(ns, a, b);
    lemma_node_index(ns, a);
    let r = with_edge(ns, a, b);
    let ka = node_index(ns, a);
    assert forall|u: NodeId, v: NodeId| linked(ns, u, v) implies #[trigger] linked(r, u, v) by {
        lemma_node_index(ns, u);
        let ku = node_index(ns, u);
        let w = choose|w: int| 0 <= w < ns[ku].neighbors.len() && ns[ku].neighbors[w] == v;
        assert(r[ku].neighbors[w] == v);
    }
    assert(r[ka].neighbors[ns[ka].neighbors.len() as int] == b);
    assert forall|u: NodeId| #[trigger] node_of(r, u).node_type == node_of(ns, u).node_type || !has_node(ns, u) by {
        lemma_node_index(ns, u);
    }
}

/// Linking keeps every existing link and links the two nodes.
proof fn lemma_with_link_keeps_links(ns: Seq<NodeView>, a: NodeId, b: NodeId)
    requires
        has_node(ns, a),
    ensures
        forall|u: NodeId, v: NodeId| linked(ns, u, v) ==> #[trigger] linked(with_link(ns, a, b), u, v),
        linked(with_link(ns, a, b), a, b),
{
    if !node_of(ns, a).neighbors.contains(b) {
        lemma_with_edge_keeps_links(ns, a, b);
    }
}

/// After learning the path of a flood, every two consecutive nodes of the trace
/// are linked both ways.
proof fn lemma_trace_links(ns: Seq<NodeView>, trace: Seq<(NodeId, NodeType)>, n: int)
    requires
        0 <= n <= trace.len(),
        forall|k: int| 0 <= k < trace.len() ==> has_node(ns, #[trigger] trace[k].0),
    ensures
        forall|i: int| 0 <= i < n - 1 ==> linked(with_trace_edges(ns, trace.take(n)), #[trigger] trace[i].0, trace[i + 1].0),
        forall|i: int| 0 <= i < n - 1 ==> linked(with_trace_edges(ns, trace.take(n)), #[trigger] trace[i + 1].0, trace[i].0),
        forall|id: NodeId| #[trigger] node_index(with_trace_edges(ns, trace.take(n)), id) == node_index(ns, id),
    decreases n,
{
    let t = trace.take(n);
    if n < 2 {
        assert(with_trace_edges(ns, t) == ns);
    } else {
        lemma_trace_links(ns, trace, n - 1);
        let t1 = trace.take(n - 1);
        assert(t.drop_last() =~= t1);
        let prev = with_trace_edges(ns, t1);
        let a = trace[n - 2].0;
        let b = trace[n - 1].0;
        assert(t[t.len() - 2].0 == a);
        assert(t.last().0 == b);
        assert(has_node(prev, a));
        assert(has_node(prev, b));
        lemma_with_link_keeps_links(prev, a, b);
        let mid = with_link(prev, a, b);
        lemma_with_link(prev, a, b);
        assert(has_node(mid, b));
        lemma_with_link_keeps_links(mid, b, a);
        lemma_with_link(mid, b, a);
        assert(with_trace_edges(ns, t) == with_link(mid, b, a));
    }
}

/// Learning the path of a flood that started at the owner makes that path a
/// route from the owner, as long as the nodes inside it relay.
pub proof fn law_learned_trace_is_route(ns: Seq<NodeView>, owner: NodeId, trace: Seq<(NodeId, NodeType)>)
    requires
        trace.len() >= 1,
        trace[0].0 == owner,
        forall|i: int| 0 < i < trace.len() - 1 ==> relays(
            with_trace_edges(with_trace_nodes(ns, trace), trace),
            owner,
            #[trigger] trace[i].0,
        ),
    ensures
        is_route(with_trace_edges(with_trace_nodes(ns, trace), trace), owner, trace_ids(trace)),
{
    let n = with_trace_nodes(ns, trace);
    lemma_trace_nodes(ns, trace);
    lemma_trace_links(n, trace, trace.len() as int);
    assert(trace.take(trace.len() as int) =~= trace);
    let g = with_trace_edges(n, trace);
    let q = trace_ids(trace);
    assert forall|i: int| 0 <= i < q.len() - 1 implies step_ok(g, owner, #[trigger] q[i], q[i + 1]) by {
        assert(q[i] == trace[i].0);
        assert(q[i + 1] == trace[i + 1].0);
        assert(linked(g, trace[i].0, trace[i + 1].0));
        if i > 0 {
            assert(relays(g, owner, trace[i].0));
        }
    }
}

/// A link already stored in one direction is not stored again: linking two
/// nodes that are linked both ways changes nothing.
pub proof fn law_stored_link_not_duplicated(ns: Seq<NodeView>, a: NodeId, b: NodeId)
    requires
        linked(ns, a, b),
    ensures
        with_link(ns, a, b) == ns,
        linked(ns, b, a) ==> with_bidirectional_link(ns, a, b) == ns,
{
}

/// Inserting the nodes of a trace whose nodes are all known changes nothing.
proof fn lemma_known_trace_nodes(ns: Seq<NodeView>, trace: Seq<(NodeId, NodeType)>)
    requires
        forall|k: int| 0 <= k < trace.len() ==> has_node(ns, #[trigger] trace[k].0),
    ensures
        with_trace_nodes(ns, trace) == ns,
    decreases trace.len(),
{
    if trace.len() > 0 {
        let prev = trace.drop_last();
        assert forall|k: int| 0 <= k < prev.len() implies has_node(ns, #[trigger] prev[k].0) by {
            assert(prev[k] == trace[k]);
        }
        lemma_known_trace_nodes(ns, prev);
        assert(has_node(ns, trace[trace.len() - 1].0));
    }
}

/// Linking the consecutive nodes of a trace that are all linked both ways changes nothing.
proof fn lemma_linked_trace_edges(ns: Seq<NodeView>, trace: Seq<(NodeId, NodeType)>)
    requires
        forall|i: int| 0 <= i < trace.len() - 1 ==> linked(ns, #[trigger] trace[i].0, trace[i + 1].0),
        forall|i: int| 0 <= i < trace.len() - 1 ==> linked(ns, #[trigger] trace[i + 1].0, trace[i].0),
    ensures
        with_trace_edges(ns, trace) == ns,
    decreases trace.len(),
{
    if trace.len() >= 2 {
        let prev = trace.drop_last();
        assert forall|i: int| 0 <= i < prev.len() - 1 implies linked(ns, #[trigger] prev[i].0, prev[i + 1].0)
            && linked(ns, prev[i + 1].0, prev[i].0) by {
            assert(prev[i] == trace[i]);
            assert(prev[i + 1] == trace[i + 1]);
            assert(linked(ns, trace[i].0, trace[i + 1].0));
            assert(linked(ns, trace[i + 1].0, trace[i].0));
        }
        lemma_linked_trace_edges(ns, prev);
        let n = trace.len() - 2;
        assert(linked(ns, trace[n].0, trace[n + 1].0));
        assert(linked(ns, trace[n + 1].0, trace[n].0));
        law_stored_link_not_duplicated(ns, trace[n].0, trace[n + 1].0);
    }
}

/// Learning the path of a flood a second time changes nothing: the topology
/// learnt from one trace, learnt again from the same trace, gains no node and
/// no edge, so repeated floods along the same paths do not grow it.
pub proof fn law_learning_trace_again_changes_nothing(ns: Seq<NodeView>, trace: Seq<(NodeId, NodeType)>)
    ensures
        with_trace_edges(
            with_trace_nodes(with_trace_edges(with_trace_nodes(ns, trace), trace), trace),
            trace,
        ) == with_trace_edges(with_trace_nodes(ns, trace), trace),
{
    let n = with_trace_nodes(ns, trace);
    lemma_trace_nodes(ns, trace);
    lemma_trace_links(n, trace, trace.len() as int);
    assert(trace.take(trace.len() as int) =~= trace);
    let g = with_trace_edges(n, trace);
    assert forall|k: int| 0 <= k < trace.len() implies has_node(g, #[trigger] trace[k].0) by {
        assert(node_index(g, trace[k].0) == node_index(n, trace[k].0));
    }
    lemma_known_trace_nodes(g, trace);
    lemma_linked_trace_edges(g, trace);
}

/// Counting a dropped packet of a known node raises that node's count by
/// exactly one, whatever the count was, and changes nothing else: every other
/// node, and the node's id, type and edges, stay as they were.
pub proof fn law_dropped_packet_counts_one(ns: Seq<NodeView>, id: NodeId)
    requires
        has_node(ns, id),
    ensures
        with_dropped_packet(ns, id).len() == ns.len(),
        node_of(with_dropped_packet(ns, id), id).dropped == node_of(ns, id).dropped + 1,
        node_of(with_dropped_packet(ns, id), id).node_id == id,
        node_of(with_dropped_packet(ns, id), id).node_type == node_of(ns, id).node_type,
        node_of(with_dropped_packet(ns, id), id).neighbors == node_of(ns, id).neighbors,
        forall|j: int| 0 <= j < ns.len() && j != node_index(ns, id) ==> #[trigger] with_dropped_packet(ns, id)[j] == ns[j],
{
    lemma_node_index(ns, id);
    let r = with_dropped_packet(ns, id);
    let k = node_index(ns, id);
    assert(r[k].node_id == id);
    assert forall|j: int| 0 <= j < k implies r[j].node_id != id by {
        assert(r[j] == ns[j]);
    }
    super::lemma_node_index_at(r, id, k);
}

/// A dropped packet reported for a node the topology does not know (a late
/// report after a reset) changes nothing.
pub proof fn law_dropped_packet_of_unknown_node_ignored(ns: Seq<NodeView>, id: NodeId)
    requires
        !has_node(ns, id),
    ensures
        with_dropped_packet(ns, id) == ns,
{
}

} // verus!
