//! The order in which the route search examines nodes, step by step. Among
//! routes of equal cost, the one the search returns is decided by this order:
//! nodes are examined cheapest first, nodes of equal cost in the order they
//! joined the waiting list, and the edges of a node in the order they were
//! stored; a node's predecessor changes only for a strictly cheaper route.
use vstd::prelude::*;
use crate::packet::NodeId;
use super::network_node::NodeView;
use super::route_model::{nbrs, relays, weight};

verus! {

/// The tables of the search: the known cost of each id, the predecessor of
/// each id, and the ids waiting to be examined, in order.
pub type SearchState = (Seq<Option<u128>>, Seq<Option<NodeId>>, Seq<NodeId>);

/// The tables before the search starts: only the owner is known, at cost 0,
/// and it waits to be examined.
pub open spec fn initial_search(owner: NodeId) -> SearchState {
    (
        Seq::new(256, |i: int| if i == owner as int { Some(0u128) } else { None }),
        Seq::new(256, |i: int| None),
        seq![owner],
    )
}

/// The cost recorded for `v`, the largest `u128` when none is.
pub open spec fn recorded_cost(costs: Seq<Option<u128>>, v: NodeId) -> int {
    match costs[v as int] {
        Some(c) => c as int,
        None => u128::MAX as int,
    }
}

/// Following the edge from `cur` (of cost `c`) to `v`: when that is strictly
/// cheaper than what is recorded for `v`, `v` gets the new cost and `cur` as
/// predecessor, and joins the end of the waiting list unless already in it.
pub open spec fn relax(ns: Seq<NodeView>, st: SearchState, cur: NodeId, c: u128, v: NodeId) -> SearchState {
    let proposed = c + weight(ns, v);
    if proposed < recorded_cost(st.0, v) {
        (
            st.0.update(v as int, Some(proposed as u128)),
            st.1.update(v as int, Some(cur)),
            if st.2.contains(v) { st.2 } else { st.2.push(v) },
        )
    } else {
        st
    }
}

/// The first `k` edges of `cur` followed in the order they are stored.
pub open spec fn relax_upto(ns: Seq<NodeView>, st: SearchState, cur: NodeId, c: u128, k: int) -> SearchState
    decreases k,
{
    if k <= 0 {
        st
    } else {
        relax(ns, relax_upto(ns, st, cur, c, k - 1), cur, c, nbrs(ns, cur)[k - 1])
    }
}

/// The recorded cost of the id `x` (meaningful when one is recorded).
pub open spec fn key(costs: Seq<Option<u128>>, x: NodeId) -> int {
    costs[x as int].unwrap() as int
}

/// `x` put into `s` right after the last entry whose cost is not above its own.
pub open spec fn insert_by_cost(s: Seq<NodeId>, x: NodeId, costs: Seq<Option<u128>>) -> Seq<NodeId>
    decreases s.len(),
{
    if s.len() == 0 || key(costs, s.last()) <= key(costs, x) {
        s.push(x)
    } else {
        insert_by_cost(s.drop_last(), x, costs).push(s.last())
    }
}

/// The waiting list ordered by cost, entries of equal cost keeping their order.
pub open spec fn order_by_cost(q: Seq<NodeId>, costs: Seq<Option<u128>>) -> Seq<NodeId>
    decreases q.len(),
{
    if q.len() == 0 {
        q
    } else {
        insert_by_cost(order_by_cost(q.drop_last(), costs), q.last(), costs)
    }
}

/// One step of the search: the first waiting id is taken off the list; a
/// node that relays has its edges followed, after which the list is ordered
/// by cost again; any other node only leaves the list.
pub open spec fn search_step(ns: Seq<NodeView>, owner: NodeId, st: SearchState) -> SearchState {
    if st.2.len() == 0 {
        st
    } else {
        let cur = st.2[0];
        let rest = st.2.drop_first();
        if relays(ns, owner, cur) {
            let r = relax_upto(ns, (st.0, st.1, rest), cur, st.0[cur as int].unwrap(), nbrs(ns, cur).len() as int);
            (r.0, r.1, order_by_cost(r.2, r.0))
        } else {
            (st.0, st.1, rest)
        }
    }
}

/// The tables after `n` steps of the search.
pub open spec fn search_after(ns: Seq<NodeView>, owner: NodeId, n: nat) -> SearchState
    decreases n,
{
    if n == 0 {
        initial_search(owner)
    } else {
        search_step(ns, owner, search_after(ns, owner, (n - 1) as nat))
    }
}

/// The tables once nothing waits any more.
pub open spec fn search_result(ns: Seq<NodeView>, owner: NodeId) -> SearchState {
    search_after(ns, owner, choose|n: nat| search_after(ns, owner, n).2.len() == 0)
}

/// Once nothing waits, further steps change nothing.
proof fn lemma_search_stays_done(ns: Seq<NodeView>, owner: NodeId, n: nat, m: nat)
    requires
        search_after(ns, owner, n).2.len() == 0,
        n <= m,
    ensures
        search_after(ns, owner, m) == search_after(ns, owner, n),
    decreases m - n,
{
    if m > n {
        lemma_search_stays_done(ns, owner, n, (m - 1) as nat);
    }
}

/// A search that ran until nothing waits ended with the search's result.
pub proof fn lemma_search_result(ns: Seq<NodeView>, owner: NodeId, n: nat)
    requires
        search_after(ns, owner, n).2.len() == 0,
    ensures
        search_result(ns, owner) == search_after(ns, owner, n),
{
    let m = choose|m: nat| search_after(ns, owner, m).2.len() == 0;
    if m <= n {
        lemma_search_stays_done(ns, owner, m, n);
    } else {
        lemma_search_stays_done(ns, owner, n, m);
    }
}

/// Inserting `x` at position `j` of `s` is `insert_by_cost` when every entry
/// from `j` on costs more than `x` and the one before it does not.
pub proof fn lemma_insert_at(s: Seq<NodeId>, x: NodeId, costs: Seq<Option<u128>>, j: int)
    requires
        0 <= j <= s.len(),
        forall|t: int| j <= t < s.len() ==> key(costs, #[trigger] s[t]) > key(costs, x),
        j > 0 ==> key(costs, s[j - 1]) <= key(costs, x),
    ensures
        insert_by_cost(s, x, costs) == s.take(j).push(x) + s.skip(j),
    decreases s.len(),
{
    if j == s.len() {
        assert(s.skip(j) =~= Seq::<NodeId>::empty());
        assert(s.take(j) =~= s);
        assert(s.take(j).push(x) + s.skip(j) =~= s.push(x));
    } else {
        let d = s.drop_last();
        assert(key(costs, s[s.len() - 1]) > key(costs, x));
        assert forall|t: int| j <= t < d.len() implies key(costs, #[trigger] d[t]) > key(costs, x) by {
            assert(d[t] == s[t]);
        }
        if j > 0 {
            assert(d[j - 1] == s[j - 1]);
        }
        lemma_insert_at(d, x, costs, j);
        assert(d.take(j) =~= s.take(j));
        assert((d.take(j).push(x) + d.skip(j)).push(s.last()) =~= s.take(j).push(x) + s.skip(j));
    }
}

} // verus!
