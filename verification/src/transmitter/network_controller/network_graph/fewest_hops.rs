//! When no known node has dropped a packet, every route costs nothing, and the
//! search examines nodes in the order they joined the waiting list: it is a
//! breadth-first search, so the route it records to a node has the fewest hops.
use vstd::prelude::*;
use crate::packet::NodeId;
use super::network_node::NodeView;
use super::route_model::{is_route, linked, nbrs, relays, step_ok, weight};
use super::search_order::{
    insert_by_cost, key, lemma_search_result, order_by_cost, recorded_cost, relax, relax_upto,
    search_after, search_result, search_step, SearchState,
};
use super::{edges_closed, has_node, lemma_node_index, node_index};

verus! {

/// No known node has dropped a packet.
pub open spec fn no_drops(ns: Seq<NodeView>) -> bool {
    forall|i: int| 0 <= i < ns.len() ==> #[trigger] ns[i].dropped == 0
}

/// The search has given `x` a cost.
spec fn found(st: SearchState, x: NodeId) -> bool {
    st.0[x as int] is Some
}

/// `x` has a cost and no longer waits.
spec fn done(st: SearchState, x: NodeId) -> bool {
    found(st, x) && !st.2.contains(x)
}

/// The tables and hop counts common to every stage of a cost-free search.
spec fn tables_inv(ns: Seq<NodeView>, owner: NodeId, st: SearchState, lvl: Seq<int>) -> bool {
    &&& st.0.len() == 256
    &&& st.1.len() == 256
    &&& lvl.len() == 256
    &&& forall|x: NodeId| #[trigger] found(st, x) ==> st.0[x as int] == Some(0u128) && has_node(ns, x)
        && lvl[x as int] >= 0
    &&& found(st, owner)
    &&& st.1[owner as int] is None
    &&& lvl[owner as int] == 0
    &&& forall|x: NodeId| (#[trigger] st.1[x as int]) is Some ==> {
        &&& x != owner
        &&& found(st, x)
        &&& found(st, st.1[x as int].unwrap())
        &&& lvl[x as int] == lvl[st.1[x as int].unwrap() as int] + 1
    }
    &&& forall|k: int| 0 <= k < st.2.len() ==> found(st, #[trigger] st.2[k])
    &&& st.2.no_duplicates()
}

/// Between steps: waiting ids are ordered by hop count and span at most one
/// level; finished ids are no deeper than any waiting one; every finished
/// relaying node has all its neighbours found at most one hop deeper.
spec fn bfs_inv(ns: Seq<NodeView>, owner: NodeId, st: SearchState, lvl: Seq<int>) -> bool {
    &&& tables_inv(ns, owner, st, lvl)
    &&& forall|a: int, b: int| 0 <= a < b < st.2.len() ==> lvl[#[trigger] st.2[a] as int] <= lvl[#[trigger] st.2[b] as int]
    &&& st.2.len() > 0 ==> lvl[st.2.last() as int] <= lvl[st.2[0] as int] + 1
    &&& forall|x: NodeId, k: int| #[trigger] done(st, x) && 0 <= k < st.2.len() ==> lvl[x as int] <= lvl[#[trigger] st.2[k] as int]
    &&& forall|u: NodeId, j: int| #[trigger] done(st, u) && relays(ns, owner, u) && 0 <= j < nbrs(ns, u).len() ==> {
        &&& found(st, #[trigger] nbrs(ns, u)[j])
        &&& lvl[nbrs(ns, u)[j] as int] <= lvl[u as int] + 1
    }
}

/// While the edges of `cur` (at hop count `l`) are followed, `k` of them so far.
spec fn relax_inv(ns: Seq<NodeView>, owner: NodeId, st: SearchState, lvl: Seq<int>, cur: NodeId, l: int, k: int) -> bool {
    &&& tables_inv(ns, owner, st, lvl)
    &&& done(st, cur)
    &&& lvl[cur as int] == l
    &&& relays(ns, owner, cur)
    &&& 0 <= k <= nbrs(ns, cur).len()
    &&& forall|a: int| 0 <= a < st.2.len() ==> l <= lvl[#[trigger] st.2[a] as int] <= l + 1
    &&& forall|a: int, b: int| 0 <= a < b < st.2.len() ==> lvl[#[trigger] st.2[a] as int] <= lvl[#[trigger] st.2[b] as int]
    &&& forall|x: NodeId| #[trigger] done(st, x) ==> lvl[x as int] <= l
    &&& forall|u: NodeId, j: int| #[trigger] done(st, u) && u != cur && relays(ns, owner, u) && 0 <= j < nbrs(ns, u).len() ==> {
        &&& found(st, #[trigger] nbrs(ns, u)[j])
        &&& lvl[nbrs(ns, u)[j] as int] <= lvl[u as int] + 1
    }
    &&& forall|j: int| 0 <= j < k ==> {
        &&& found(st, #[trigger] nbrs(ns, cur)[j])
        &&& lvl[nbrs(ns, cur)[j] as int] <= l + 1
    }
}

/// A node with no drops weighs nothing, and every neighbour of a known node is known.
proof fn lemma_free_neighbour(ns: Seq<NodeView>, u: NodeId, j: int)
    requires
        no_drops(ns),
        edges_closed(ns),
        has_node(ns, u),
        0 <= j < nbrs(ns, u).len(),
    ensures
        has_node(ns, nbrs(ns, u)[j]),
        weight(ns, nbrs(ns, u)[j]) == 0,
{
    lemma_node_index(ns, u);
    let w = nbrs(ns, u)[j];
    assert(ns[node_index(ns, u)].neighbors[j] == w);
    lemma_node_index(ns, w);
    assert(ns[node_index(ns, w)].dropped == 0);
}

/// Following one more edge of `cur` keeps the invariant.
proof fn lemma_relax_one(
    ns: Seq<NodeView>,
    owner: NodeId,
    st: SearchState,
    lvl: Seq<int>,
    cur: NodeId,
    l: int,
    k: int,
) -> (lvl2: Seq<int>)
    requires
        no_drops(ns),
        edges_closed(ns),
        relax_inv(ns, owner, st, lvl, cur, l, k),
        k < nbrs(ns, cur).len(),
    ensures
        relax_inv(ns, owner, relax(ns, st, cur, 0u128, nbrs(ns, cur)[k]), lvl2, cur, l, k + 1),
{
    let w = nbrs(ns, cur)[k];
    lemma_free_neighbour(ns, cur, k);
    let r = relax(ns, st, cur, 0u128, w);
    if found(st, w) {
        assert(st.0[w as int] == Some(0u128));
        assert(recorded_cost(st.0, w) == 0);
        assert(r == st);
        if st.2.contains(w) {
            let a = choose|a: int| 0 <= a < st.2.len() && st.2[a] == w;
            assert(l <= lvl[st.2[a] as int] <= l + 1);
        } else {
            assert(done(st, w));
        }
        assert forall|j: int| 0 <= j < k + 1 implies {
            &&& found(r, #[trigger] nbrs(ns, cur)[j])
            &&& lvl[nbrs(ns, cur)[j] as int] <= l + 1
        } by {}
        lvl
    } else {
        assert(recorded_cost(st.0, w) == u128::MAX as int);
        let lvl2 = lvl.update(w as int, l + 1);
        assert(!st.2.contains(w)) by {
            if st.2.contains(w) {
                let a = choose|a: int| 0 <= a < st.2.len() && st.2[a] == w;
                assert(found(st, st.2[a]));
            }
        }
        assert(r.0 == st.0.update(w as int, Some(0u128)));
        assert(r.1 == st.1.update(w as int, Some(cur)));
        assert(r.2 == st.2.push(w));
        assert forall|x: NodeId| found(r, x) <==> (found(st, x) || x == w) by {}
        assert forall|x: NodeId| #[trigger] done(r, x) <==> done(st, x) by {
            if x == w {
                assert(r.2[r.2.len() - 1] == w);
            } else if st.2.contains(x) {
                let a = choose|a: int| 0 <= a < st.2.len() && st.2[a] == x;
                assert(r.2[a] == x);
            } else if r.2.contains(x) {
                let a = choose|a: int| 0 <= a < r.2.len() && r.2[a] == x;
                if a < st.2.len() {
                    assert(st.2[a] == x);
                }
            }
        }
        assert(tables_inv(ns, owner, r, lvl2)) by {
            assert forall|x: NodeId| #[trigger] found(r, x) implies r.0[x as int] == Some(0u128) && has_node(ns, x)
                && lvl2[x as int] >= 0 by {
                if x != w {
                    assert(found(st, x));
                }
            }
            assert forall|x: NodeId| (#[trigger] r.1[x as int]) is Some implies {
                &&& x != owner
                &&& found(r, x)
                &&& found(r, r.1[x as int].unwrap())
                &&& lvl2[x as int] == lvl2[r.1[x as int].unwrap() as int] + 1
            } by {
                if x != w {
                    assert(r.1[x as int] == st.1[x as int]);
                    let u = st.1[x as int].unwrap();
                    assert(found(st, u));
                    assert(u != w);
                }
            }
            assert forall|a: int| 0 <= a < r.2.len() implies found(r, #[trigger] r.2[a]) by {
                if a < st.2.len() {
                    assert(r.2[a] == st.2[a]);
                    assert(found(st, st.2[a]));
                }
            }
        }
        assert forall|a: int| 0 <= a < r.2.len() implies l <= lvl2[#[trigger] r.2[a] as int] <= l + 1 by {
            if a < st.2.len() {
                assert(r.2[a] == st.2[a]);
                assert(found(st, st.2[a]));
                assert(l <= lvl[st.2[a] as int] <= l + 1);
            }
        }
        assert forall|a: int, b: int| 0 <= a < b < r.2.len() implies lvl2[#[trigger] r.2[a] as int] <= lvl2[#[trigger] r.2[b] as int] by {
            assert(r.2[a] == st.2[a]);
            assert(found(st, st.2[a]));
            if b < st.2.len() {
                assert(r.2[b] == st.2[b]);
                assert(found(st, st.2[b]));
                assert(lvl[st.2[a] as int] <= lvl[st.2[b] as int]);
            } else {
                assert(l <= lvl[st.2[a] as int] <= l + 1);
            }
        }
        assert forall|x: NodeId| #[trigger] done(r, x) implies lvl2[x as int] <= l by {
            assert(done(st, x));
        }
        assert forall|u: NodeId, j: int| #[trigger] done(r, u) && u != cur && relays(ns, owner, u) && 0 <= j < nbrs(ns, u).len() implies {
            &&& found(r, #[trigger] nbrs(ns, u)[j])
            &&& lvl2[nbrs(ns, u)[j] as int] <= lvl2[u as int] + 1
        } by {
            assert(done(st, u));
            assert(found(st, nbrs(ns, u)[j]));
        }
        assert forall|j: int| 0 <= j < k + 1 implies {
            &&& found(r, #[trigger] nbrs(ns, cur)[j])
            &&& lvl2[nbrs(ns, cur)[j] as int] <= l + 1
        } by {
            if j < k {
                assert(found(st, nbrs(ns, cur)[j]));
            }
        }
        assert(done(r, cur));
        lvl2
    }
}

/// Following the first `k` edges of `cur` keeps the invariant.
proof fn lemma_relax_upto(
    ns: Seq<NodeView>,
    owner: NodeId,
    st: SearchState,
    lvl: Seq<int>,
    cur: NodeId,
    l: int,
    k: int,
) -> (lvl2: Seq<int>)
    requires
        no_drops(ns),
        edges_closed(ns),
        relax_inv(ns, owner, st, lvl, cur, l, 0),
        0 <= k <= nbrs(ns, cur).len(),
    ensures
        relax_inv(ns, owner, relax_upto(ns, st, cur, 0u128, k), lvl2, cur, l, k),
    decreases k,
{
    if k == 0 {
        lvl
    } else {
        let lvl1 = lemma_relax_upto(ns, owner, st, lvl, cur, l, k - 1);
        lemma_relax_one(ns, owner, relax_upto(ns, st, cur, 0u128, k - 1), lvl1, cur, l, k - 1)
    }
}

/// A waiting list whose entries all cost the same keeps its order.
proof fn lemma_order_equal_costs(q: Seq<NodeId>, costs: Seq<Option<u128>>)
    requires
        forall|k: int| 0 <= k < q.len() ==> key(costs, #[trigger] q[k]) == 0,
    ensures
        order_by_cost(q, costs) == q,
    decreases q.len(),
{
    if q.len() > 0 {
        let d = q.drop_last();
        assert forall|k: int| 0 <= k < d.len() implies key(costs, #[trigger] d[k]) == 0 by {
            assert(d[k] == q[k]);
        }
        lemma_order_equal_costs(d, costs);
        assert(key(costs, q[q.len() - 1]) == 0);
        if d.len() > 0 {
            assert(key(costs, d[d.len() - 1]) == 0);
        }
        assert(insert_by_cost(d, q.last(), costs) == d.push(q.last()));
        assert(d.push(q.last()) =~= q);
    }
}

/// One step of a cost-free search keeps the invariant.
proof fn lemma_step(ns: Seq<NodeView>, owner: NodeId, st: SearchState, lvl: Seq<int>) -> (lvl2: Seq<int>)
    requires
        no_drops(ns),
        edges_closed(ns),
        bfs_inv(ns, owner, st, lvl),
    ensures
        bfs_inv(ns, owner, search_step(ns, owner, st), lvl2),
{
    if st.2.len() == 0 {
        lvl
    } else {
        let cur = st.2[0];
        let rest = st.2.drop_first();
        let l = lvl[cur as int];
        let p: SearchState = (st.0, st.1, rest);
        assert(found(st, cur));
        assert forall|a: int| 0 <= a < rest.len() implies l <= lvl[#[trigger] rest[a] as int] <= l + 1 by {
            assert(rest[a] == st.2[a + 1]);
            assert(lvl[st.2[0] as int] <= lvl[st.2[a + 1] as int]);
            if a + 1 < st.2.len() - 1 {
                assert(lvl[st.2[a + 1] as int] <= lvl[st.2[st.2.len() - 1] as int]);
            }
        }
        assert(!rest.contains(cur)) by {
            if rest.contains(cur) {
                let a = choose|a: int| 0 <= a < rest.len() && rest[a] == cur;
                assert(st.2[a + 1] == st.2[0]);
            }
        }
        assert forall|x: NodeId| #[trigger] done(p, x) <==> (done(st, x) || x == cur) by {
            if rest.contains(x) {
                let a = choose|a: int| 0 <= a < rest.len() && rest[a] == x;
                assert(st.2[a + 1] == x);
            }
            if st.2.contains(x) && x != cur {
                let a = choose|a: int| 0 <= a < st.2.len() && st.2[a] == x;
                assert(a != 0);
                assert(rest[a - 1] == x);
            }
        }
        assert(tables_inv(ns, owner, p, lvl)) by {
            assert forall|x: NodeId| #[trigger] found(p, x) implies p.0[x as int] == Some(0u128) && has_node(ns, x)
                && lvl[x as int] >= 0 by {
                assert(found(st, x));
            }
            assert forall|x: NodeId| (#[trigger] p.1[x as int]) is Some implies {
                &&& x != owner
                &&& found(p, x)
                &&& found(p, p.1[x as int].unwrap())
                &&& lvl[x as int] == lvl[p.1[x as int].unwrap() as int] + 1
            } by {
                assert(st.1[x as int] is Some);
            }
            assert forall|a: int| 0 <= a < rest.len() implies found(p, #[trigger] rest[a]) by {
                assert(rest[a] == st.2[a + 1]);
            }
            assert(rest.no_duplicates()) by {
                assert forall|a: int, b: int| 0 <= a < b < rest.len() implies rest[a] != rest[b] by {
                    assert(rest[a] == st.2[a + 1]);
                    assert(rest[b] == st.2[b + 1]);
                }
            }
        }
        if relays(ns, owner, cur) {
            assert(st.0[cur as int] == Some(0u128));
            assert(relax_inv(ns, owner, p, lvl, cur, l, 0)) by {
                assert forall|a: int, b: int| 0 <= a < b < rest.len() implies lvl[#[trigger] rest[a] as int] <= lvl[#[trigger] rest[b] as int] by {
                    assert(rest[a] == st.2[a + 1]);
                    assert(rest[b] == st.2[b + 1]);
                }
                assert forall|x: NodeId| #[trigger] done(p, x) implies lvl[x as int] <= l by {
                    if x != cur {
                        assert(done(st, x));
                        assert(lvl[x as int] <= lvl[st.2[0] as int]);
                    }
                }
                assert forall|u: NodeId, j: int| #[trigger] done(p, u) && u != cur && relays(ns, owner, u) && 0 <= j < nbrs(ns, u).len() implies {
                    &&& found(p, #[trigger] nbrs(ns, u)[j])
                    &&& lvl[nbrs(ns, u)[j] as int] <= lvl[u as int] + 1
                } by {
                    assert(done(st, u));
                    assert(found(st, nbrs(ns, u)[j]));
                }
            }
            let n = nbrs(ns, cur).len() as int;
            let lvl2 = lemma_relax_upto(ns, owner, p, lvl, cur, l, n);
            let r = relax_upto(ns, p, cur, 0u128, n);
            assert forall|k: int| 0 <= k < r.2.len() implies key(r.0, #[trigger] r.2[k]) == 0 by {
                assert(found(r, r.2[k]));
            }
            lemma_order_equal_costs(r.2, r.0);
            let s2 = search_step(ns, owner, st);
            assert(s2 == r);
            assert(s2.2.len() > 0 ==> lvl2[s2.2.last() as int] <= lvl2[s2.2[0] as int] + 1) by {
                if s2.2.len() > 0 {
                    assert(l <= lvl2[s2.2[0] as int]);
                    assert(lvl2[s2.2[s2.2.len() - 1] as int] <= l + 1);
                }
            }
            assert forall|x: NodeId, k: int| #[trigger] done(s2, x) && 0 <= k < s2.2.len() implies lvl2[x as int] <= lvl2[#[trigger] s2.2[k] as int] by {
                assert(l <= lvl2[s2.2[k] as int]);
            }
            assert forall|u: NodeId, j: int| #[trigger] done(s2, u) && relays(ns, owner, u) && 0 <= j < nbrs(ns, u).len() implies {
                &&& found(s2, #[trigger] nbrs(ns, u)[j])
                &&& lvl2[nbrs(ns, u)[j] as int] <= lvl2[u as int] + 1
            } by {
                if u == cur {
                    assert(found(s2, nbrs(ns, cur)[j]));
                }
            }
            lvl2
        } else {
            let s2 = search_step(ns, owner, st);
            assert(s2 == p);
            assert forall|a: int, b: int| 0 <= a < b < rest.len() implies lvl[#[trigger] rest[a] as int] <= lvl[#[trigger] rest[b] as int] by {
                assert(rest[a] == st.2[a + 1]);
                assert(rest[b] == st.2[b + 1]);
            }
            assert(rest.len() > 0 ==> lvl[rest.last() as int] <= lvl[rest[0] as int] + 1) by {
                if rest.len() > 0 {
                    assert(rest[rest.len() - 1] == st.2[st.2.len() - 1]);
                    assert(rest[0] == st.2[1]);
                    assert(lvl[st.2[0] as int] <= lvl[st.2[1] as int]);
                }
            }
            assert forall|x: NodeId, k: int| #[trigger] done(p, x) && 0 <= k < rest.len() implies lvl[x as int] <= lvl[#[trigger] rest[k] as int] by {
                assert(rest[k] == st.2[k + 1]);
                if x == cur {
                    assert(lvl[st.2[0] as int] <= lvl[st.2[k + 1] as int]);
                } else {
                    assert(done(st, x));
                }
            }
            assert forall|u: NodeId, j: int| #[trigger] done(p, u) && relays(ns, owner, u) && 0 <= j < nbrs(ns, u).len() implies {
                &&& found(p, #[trigger] nbrs(ns, u)[j])
                &&& lvl[nbrs(ns, u)[j] as int] <= lvl[u as int] + 1
            } by {
                assert(done(st, u));
                assert(found(st, nbrs(ns, u)[j]));
            }
            lvl
        }
    }
}

/// Every stage of a cost-free search satisfies the invariant.
proof fn lemma_bfs_after(ns: Seq<NodeView>, owner: NodeId, n: nat) -> (lvl: Seq<int>)
    requires
        no_drops(ns),
        edges_closed(ns),
        has_node(ns, owner),
    ensures
        bfs_inv(ns, owner, search_after(ns, owner, n), lvl),
    decreases n,
{
    if n == 0 {
        let st = search_after(ns, owner, 0);
        let lvl = Seq::new(256, |i: int| 0int);
        assert forall|x: NodeId| #[trigger] found(st, x) implies x == owner by {}
        assert forall|x: NodeId| #[trigger] done(st, x) implies false by {
            assert(st.2[0] == owner);
        }
        assert(st.2.no_duplicates());
        lvl
    } else {
        let lvl0 = lemma_bfs_after(ns, owner, (n - 1) as nat);
        lemma_step(ns, owner, search_after(ns, owner, (n - 1) as nat), lvl0)
    }
}

/// When no known node has dropped a packet, the route the search records to
/// a node has the fewest hops: once the search is over, the chain of recorded
/// predecessors from the owner to any node is no longer than any route from
/// the owner to that node.
pub proof fn law_no_drops_fewest_hops(ns: Seq<NodeView>, owner: NodeId, n: nat, p: Seq<NodeId>, q: Seq<NodeId>)
    requires
        no_drops(ns),
        edges_closed(ns),
        has_node(ns, owner),
        search_after(ns, owner, n).2.len() == 0,
        p.len() >= 1,
        p[0] == owner,
        forall|i: int| 0 <= i < p.len() - 1 ==> search_result(ns, owner).1[#[trigger] p[i + 1] as int] == Some(p[i]),
        is_route(ns, owner, q),
        q.last() == p.last(),
    ensures
        p.len() <= q.len(),
{
    lemma_search_result(ns, owner, n);
    let st = search_after(ns, owner, n);
    let lvl = lemma_bfs_after(ns, owner, n);
    assert forall|x: NodeId| #[trigger] found(st, x) implies done(st, x) by {}
    // the recorded chain descends one hop per predecessor
    assert forall|i: int| 0 <= i < p.len() implies lvl[#[trigger] p[i] as int] == i by {
        lemma_chain_levels(st, lvl, ns, owner, p, i);
    }
    // any route reaches each node no earlier than its hop count
    assert forall|i: int| 0 <= i < q.len() implies found(st, #[trigger] q[i]) && lvl[q[i] as int] <= i by {
        lemma_route_levels(st, lvl, ns, owner, q, i);
    }
    assert(lvl[p[p.len() - 1] as int] == p.len() - 1);
    assert(lvl[q[q.len() - 1] as int] <= q.len() - 1);
}

proof fn lemma_chain_levels(st: SearchState, lvl: Seq<int>, ns: Seq<NodeView>, owner: NodeId, p: Seq<NodeId>, i: int)
    requires
        tables_inv(ns, owner, st, lvl),
        p.len() >= 1,
        p[0] == owner,
        forall|j: int| 0 <= j < p.len() - 1 ==> st.1[#[trigger] p[j + 1] as int] == Some(p[j]),
        0 <= i < p.len(),
    ensures
        lvl[p[i] as int] == i,
    decreases i,
{
    if i > 0 {
        lemma_chain_levels(st, lvl, ns, owner, p, i - 1);
        let j = i - 1;
        assert(st.1[p[j + 1] as int] == Some(p[j]));
        assert(p[j + 1] == p[i]);
    }
}

proof fn lemma_route_levels(st: SearchState, lvl: Seq<int>, ns: Seq<NodeView>, owner: NodeId, q: Seq<NodeId>, i: int)
    requires
        bfs_inv(ns, owner, st, lvl),
        st.2.len() == 0,
        is_route(ns, owner, q),
        0 <= i < q.len(),
    ensures
        found(st, q[i]),
        lvl[q[i] as int] <= i,
    decreases i,
{
    if i > 0 {
        lemma_route_levels(st, lvl, ns, owner, q, i - 1);
        let u = q[i - 1];
        let v = q[i];
        assert(step_ok(ns, owner, q[i - 1], q[i]));
        assert(linked(ns, u, v));
        let j = choose|j: int| 0 <= j < nbrs(ns, u).len() && nbrs(ns, u)[j] == v;
        assert(done(st, u));
        assert(found(st, nbrs(ns, u)[j]));
    }
}

} // verus!
