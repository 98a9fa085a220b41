//! Routes through the known topology, their cost, and the facts the route
//! search relies on.
use vstd::prelude::*;
use crate::packet::{NodeId, NodeType};
use super::network_node::NodeView;
use super::{has_node, node_of, node_index, edges_closed, lemma_node_index};

verus! {

/// The largest weight of a node: the largest count of dropped packets.
pub const DROP_LIMIT: u128 = 18446744073709551615;

/// The cost of entering node `id`: the packets it dropped so far.
pub open spec fn weight(ns: Seq<NodeView>, id: NodeId) -> int {
    node_of(ns, id).dropped as int
}

/// Whether packets may be routed through `id`: the owner and drones relay,
/// clients and servers only terminate routes.
pub open spec fn relays(ns: Seq<NodeView>, owner: NodeId, id: NodeId) -> bool {
    id == owner || node_of(ns, id).node_type == NodeType::Drone
}

/// Whether the node found for `u` has an edge to `v`.
pub open spec fn linked(ns: Seq<NodeView>, u: NodeId, v: NodeId) -> bool {
    has_node(ns, u) && node_of(ns, u).neighbors.contains(v)
}

/// One step of a route: leave a relaying node along one of its edges.
pub open spec fn step_ok(ns: Seq<NodeView>, owner: NodeId, u: NodeId, v: NodeId) -> bool {
    relays(ns, owner, u) && linked(ns, u, v)
}

/// A route: starts at the owner and every step follows an edge out of a relaying node.
pub open spec fn is_route(ns: Seq<NodeView>, owner: NodeId, q: Seq<NodeId>) -> bool {
    &&& q.len() >= 1
    &&& q[0] == owner
    &&& forall|i: int| 0 <= i < q.len() - 1 ==> step_ok(ns, owner, #[trigger] q[i], q[i + 1])
}

/// Sum of the weights of all nodes of `s`.
pub open spec fn weight_sum(ns: Seq<NodeView>, s: Seq<NodeId>) -> int
    decreases s.len(),
{
    if s.len() == 0 {
        0
    } else {
        weight_sum(ns, s.drop_last()) + weight(ns, s.last())
    }
}

/// The cost of a route: the weights of every node entered after the first.
pub open spec fn route_cost(ns: Seq<NodeView>, q: Seq<NodeId>) -> int
    decreases q.len(),
{
    if q.len() <= 1 {
        0
    } else {
        route_cost(ns, q.drop_last()) + weight(ns, q.last())
    }
}

/// `weight_sum` splits off a first element.
pub proof fn lemma_weight_sum_cons(ns: Seq<NodeView>, x: NodeId, s: Seq<NodeId>)
    ensures
        weight_sum(ns, seq![x] + s) == weight(ns, x) + weight_sum(ns, s),
    decreases s.len(),
{
    if s.len() == 0 {
        assert((seq![x] + s).drop_last() =~= Seq::<NodeId>::empty());
        assert((seq![x] + s).last() == x);
        assert(weight_sum(ns, Seq::<NodeId>::empty()) == 0);
        assert(weight_sum(ns, s) == 0);
    } else {
        lemma_weight_sum_cons(ns, x, s.drop_last());
        assert((seq![x] + s).drop_last() =~= seq![x] + s.drop_last());
        assert((seq![x] + s).last() == s.last());
    }
}

/// The cost of `[o] + s` is the weight of `s`.
pub proof fn lemma_route_cost_cons(ns: Seq<NodeView>, o: NodeId, s: Seq<NodeId>)
    ensures
        route_cost(ns, seq![o] + s) == weight_sum(ns, s),
    decreases s.len(),
{
    if s.len() > 0 {
        lemma_route_cost_cons(ns, o, s.drop_last());
        assert((seq![o] + s).drop_last() =~= seq![o] + s.drop_last());
        assert((seq![o] + s).last() == s.last());
    }
}

// ---------------------------------------------------------------------------
// Facts about the tables of the search: a best-known cost per node id
// ---------------------------------------------------------------------------

/// Whether `id` has a known cost of at most `bound`.
pub open spec fn within(costs: Seq<Option<u128>>, id: int, bound: int) -> bool {
    match costs[id] {
        Some(c) => c <= bound,
        None => false,
    }
}

/// How many of the ids below `n` have a known cost of at most `bound`.
pub open spec fn count_within(costs: Seq<Option<u128>>, bound: int, n: int) -> nat
    decreases n,
{
    if n <= 0 {
        0
    } else {
        count_within(costs, bound, n - 1) + if within(costs, n - 1, bound) { 1nat } else { 0nat }
    }
}

/// At most `n` ids below `n` are counted.
pub proof fn lemma_count_within_le(costs: Seq<Option<u128>>, bound: int, n: int)
    requires
        n >= 0,
    ensures
        count_within(costs, bound, n) <= n,
    decreases n,
{
    if n > 0 {
        lemma_count_within_le(costs, bound, n - 1);
    }
}

/// Counting is monotone in the counted set, and grows by one for each id that
/// is counted only in the second table.
pub proof fn lemma_count_within_grows(
    a: Seq<Option<u128>>,
    ba: int,
    b: Seq<Option<u128>>,
    bb: int,
    n: int,
    z: int,
)
    requires
        n >= 0,
        forall|x: int| 0 <= x < n && within(a, x, ba) ==> within(b, x, bb),
    ensures
        count_within(a, ba, n) <= count_within(b, bb, n),
        0 <= z < n && !within(a, z, ba) && within(b, z, bb) ==> count_within(a, ba, n) + 1 <= count_within(b, bb, n),
    decreases n,
{
    if n > 0 {
        lemma_count_within_grows(a, ba, b, bb, n - 1, z);
    }
}

/// The value a table entry contributes to the termination measure of the search.
pub open spec fn entry_potential(e: Option<u128>) -> int {
    match e {
        Some(c) => c as int,
        None => 256 * DROP_LIMIT + 1,
    }
}

/// Sum of the contributions of the entries below `n`.
pub open spec fn potential(costs: Seq<Option<u128>>, n: int) -> int
    decreases n,
{
    if n <= 0 {
        0
    } else {
        potential(costs, n - 1) + entry_potential(costs[n - 1])
    }
}

/// Changing one entry changes the sum by the difference of the contributions.
pub proof fn lemma_potential_update(costs: Seq<Option<u128>>, x: int, e: Option<u128>, n: int)
    requires
        0 <= x < costs.len(),
        0 <= n <= costs.len(),
    ensures
        potential(costs.update(x, e), n) == potential(costs, n) + if x < n {
            entry_potential(e) - entry_potential(costs[x])
        } else {
            0
        },
    decreases n,
{
    if n > 0 {
        lemma_potential_update(costs, x, e, n - 1);
    }
}

/// Every contribution is non-negative, so the sum is too.
pub proof fn lemma_potential_nonneg(costs: Seq<Option<u128>>, n: int)
    ensures
        potential(costs, n) >= 0,
    decreases n,
{
    if n > 0 {
        lemma_potential_nonneg(costs, n - 1);
    }
}


// ---------------------------------------------------------------------------
// Invariants of the search
// ---------------------------------------------------------------------------

/// The edges of the node found for `u`.
pub open spec fn nbrs(ns: Seq<NodeView>, u: NodeId) -> Seq<NodeId> {
    node_of(ns, u).neighbors
}

/// `v` has a known cost no larger than reaching it through `u`.
pub open spec fn relaxed_to(ns: Seq<NodeView>, costs: Seq<Option<u128>>, u: NodeId, v: NodeId) -> bool {
    &&& costs[v as int] is Some
    &&& costs[u as int] is Some
    &&& costs[v as int].unwrap() <= costs[u as int].unwrap() + weight(ns, v)
}

/// The first `n` edges of `u` have been relaxed.
pub open spec fn relaxed_upto(ns: Seq<NodeView>, costs: Seq<Option<u128>>, u: NodeId, n: int) -> bool {
    forall|k: int| 0 <= k < n ==> relaxed_to(ns, costs, u, #[trigger] nbrs(ns, u)[k])
}

/// Every relaying node with a known cost that is not waiting to be examined
/// (other than `skip`) has all its edges relaxed.
pub open spec fn settled_except(
    ns: Seq<NodeView>,
    owner: NodeId,
    costs: Seq<Option<u128>>,
    queue: Seq<NodeId>,
    skip: int,
) -> bool {
    forall|u: NodeId|
        u as int != skip && relays(ns, owner, u) && costs[u as int] is Some && !queue.contains(u)
            ==> #[trigger] relaxed_upto(ns, costs, u, nbrs(ns, u).len() as int)
}

/// What the predecessor table says about `x`: a known node other than the
/// owner has a relaying predecessor linked to it whose cost, plus the weight
/// of `x`, is at most that of `x`; the predecessor is strictly cheaper or was
/// given its cost earlier.
pub open spec fn pred_ok(
    ns: Seq<NodeView>,
    owner: NodeId,
    costs: Seq<Option<u128>>,
    preds: Seq<Option<NodeId>>,
    stamps: Seq<nat>,
    x: NodeId,
) -> bool {
    match preds[x as int] {
        Some(u) => {
            &&& costs[u as int] is Some
            &&& costs[x as int] is Some
            &&& step_ok(ns, owner, u, x)
            &&& costs[x as int].unwrap() >= costs[u as int].unwrap() + weight(ns, x)
            &&& (costs[u as int].unwrap() < costs[x as int].unwrap() || stamps[u as int] < stamps[x as int])
        },
        None => x == owner || costs[x as int] is None,
    }
}

/// `u` comes before `x` in the order in which the search fixed costs: it is
/// cheaper, or equally cheap and given its cost earlier.
pub open spec fn ranks_below(costs: Seq<Option<u128>>, stamps: Seq<nat>, u: NodeId, x: NodeId) -> bool {
    ||| costs[u as int].unwrap() < costs[x as int].unwrap()
    ||| (costs[u as int].unwrap() == costs[x as int].unwrap() && stamps[u as int] < stamps[x as int])
}

/// A known cost is at most `DROP_LIMIT` times the number of other ids known no dearer.
pub open spec fn bound_ok(costs: Seq<Option<u128>>, x: NodeId) -> bool {
    match costs[x as int] {
        Some(c) => c + DROP_LIMIT <= count_within(costs, c as int, 256) * DROP_LIMIT,
        None => true,
    }
}

/// The tables of the search are consistent with the graph.
pub open spec fn tables_ok(
    ns: Seq<NodeView>,
    owner: NodeId,
    costs: Seq<Option<u128>>,
    preds: Seq<Option<NodeId>>,
    stamps: Seq<nat>,
    clock: nat,
    queue: Seq<NodeId>,
) -> bool {
    &&& costs.len() == 256
    &&& preds.len() == 256
    &&& stamps.len() == 256
    &&& costs[owner as int] == Some(0u128)
    &&& preds[owner as int] is None
    &&& queue.no_duplicates()
    &&& forall|k: int| 0 <= k < queue.len() ==> (#[trigger] costs[queue[k] as int]) is Some
    &&& forall|x: NodeId| #[trigger] pred_ok(ns, owner, costs, preds, stamps, x)
    &&& forall|x: NodeId| #[trigger] bound_ok(costs, x)
    &&& forall|x: NodeId| costs[x as int] is Some ==> #[trigger] has_node(ns, x)
    &&& forall|x: NodeId| #[trigger] stamps[x as int] < clock
}

/// Every node of the list dropped at most `DROP_LIMIT` packets.
pub open spec fn drops_bounded(ns: Seq<NodeView>) -> bool {
    forall|i: int| 0 <= i < ns.len() ==> #[trigger] ns[i].dropped <= DROP_LIMIT
}

/// The node found for `id`, if any, can count one more dropped packet.
pub open spec fn can_count_drop(ns: Seq<NodeView>, id: NodeId) -> bool {
    has_node(ns, id) ==> node_of(ns, id).dropped < u64::MAX
}

/// State while the edges of `cur` (cost `cc`) are being relaxed, `k` of them so far.
pub open spec fn relaxing(
    ns: Seq<NodeView>,
    owner: NodeId,
    costs: Seq<Option<u128>>,
    preds: Seq<Option<NodeId>>,
    stamps: Seq<nat>,
    clock: nat,
    queue: Seq<NodeId>,
    cur: NodeId,
    cc: u128,
    k: int,
) -> bool {
    &&& tables_ok(ns, owner, costs, preds, stamps, clock, queue)
    &&& settled_except(ns, owner, costs, queue, cur as int)
    &&& !queue.contains(cur)
    &&& relays(ns, owner, cur)
    &&& has_node(ns, cur)
    &&& costs[cur as int] == Some(cc)
    &&& 0 <= k <= nbrs(ns, cur).len()
    &&& relaxed_upto(ns, costs, cur, k)
}

/// The weight of a known node is at most `DROP_LIMIT`.
pub proof fn lemma_weight_bounded(ns: Seq<NodeView>, v: NodeId)
    requires
        drops_bounded(ns),
        has_node(ns, v),
    ensures
        0 <= weight(ns, v) <= DROP_LIMIT,
{
    lemma_node_index(ns, v);
    assert(ns[node_index(ns, v)].dropped <= DROP_LIMIT);
}

/// A known cost is at most 255 times `DROP_LIMIT`.
pub proof fn lemma_cost_bounded(costs: Seq<Option<u128>>, x: NodeId)
    requires
        bound_ok(costs, x),
        costs[x as int] is Some,
    ensures
        costs[x as int].unwrap() + DROP_LIMIT <= 256 * DROP_LIMIT,
{
    let c = costs[x as int].unwrap();
    lemma_count_within_le(costs, c as int, 256);
    assert(count_within(costs, c as int, 256) * DROP_LIMIT <= 256 * DROP_LIMIT) by (nonlinear_arith)
        requires count_within(costs, c as int, 256) <= 256;
}

/// Lowering the cost of `v` to go through `cur` keeps the tables consistent and
/// relaxes one more edge of `cur`.
pub proof fn lemma_relax_step(
    ns: Seq<NodeView>,
    owner: NodeId,
    costs: Seq<Option<u128>>,
    preds: Seq<Option<NodeId>>,
    stamps: Seq<nat>,
    clock: nat,
    queue: Seq<NodeId>,
    cur: NodeId,
    cc: u128,
    k: int,
    p: u128,
)
    requires
        edges_closed(ns),
        drops_bounded(ns),
        relaxing(ns, owner, costs, preds, stamps, clock, queue, cur, cc, k),
        k < nbrs(ns, cur).len(),
        p == cc + weight(ns, nbrs(ns, cur)[k]),
        costs[nbrs(ns, cur)[k] as int] is None || p < costs[nbrs(ns, cur)[k] as int].unwrap(),
    ensures
        ({
            let v = nbrs(ns, cur)[k];
            let costs2 = costs.update(v as int, Some(p));
            let preds2 = preds.update(v as int, Some(cur));
            let stamps2 = stamps.update(v as int, clock);
            let queue2 = if queue.contains(v) { queue } else { queue.push(v) };
            &&& relaxing(ns, owner, costs2, preds2, stamps2, clock + 1, queue2, cur, cc, k + 1)
            &&& potential(costs2, 256) + queue2.len() < potential(costs, 256) + queue.len() + 1
        }),
{
    let v = nbrs(ns, cur)[k];
    let costs2 = costs.update(v as int, Some(p));
    let preds2 = preds.update(v as int, Some(cur));
    let stamps2 = stamps.update(v as int, clock);
    let queue2 = if queue.contains(v) { queue } else { queue.push(v) };
    lemma_node_index(ns, cur);
    assert(has_node(ns, v)) by {
        let i = node_index(ns, cur);
        assert(ns[i].neighbors[k] == v);
    }
    lemma_weight_bounded(ns, v);
    assert(bound_ok(costs, cur));
    lemma_cost_bounded(costs, cur);
    assert(v != cur);
    assert(v != owner);
    // costs only go down
    assert forall|x: int| 0 <= x < 256 && within(costs, x, cc as int) implies within(costs2, x, p as int) by {}
    lemma_count_within_grows(costs, cc as int, costs2, p as int, 256, v as int);
    assert forall|x: NodeId| #[trigger] bound_ok(costs2, x) by {
        if x != v {
            if costs2[x as int] is Some {
                let c = costs[x as int].unwrap();
                assert(bound_ok(costs, x));
                assert forall|y: int| 0 <= y < 256 && within(costs, y, c as int) implies within(costs2, y, c as int) by {}
                lemma_count_within_grows(costs, c as int, costs2, c as int, 256, v as int);
            }
        }
    }
    assert forall|x: NodeId| #[trigger] pred_ok(ns, owner, costs2, preds2, stamps2, x) by {
        assert(pred_ok(ns, owner, costs, preds, stamps, x));
        if x == v {
            assert(nbrs(ns, cur).contains(v));
            assert(stamps[cur as int] < clock);
        } else {
            match preds[x as int] {
                Some(u) => {
                    if u == v {
                        assert(weight(ns, x) >= 0) by {
                            lemma_node_index(ns, x);
                        }
                    }
                },
                None => {},
            }
        }
    }
    assert forall|x: NodeId| costs2[x as int] is Some implies #[trigger] has_node(ns, x) by {}
    assert forall|x: NodeId| #[trigger] stamps2[x as int] < clock + 1 by {
        assert(stamps[x as int] < clock);
    }
    assert(queue2.no_duplicates());
    assert forall|j: int| 0 <= j < queue2.len() implies (#[trigger] costs2[queue2[j] as int]) is Some by {
        if j < queue.len() {
            assert(costs[queue[j] as int] is Some);
        }
    }
    assert(queue2.contains(v)) by {
        if !queue.contains(v) {
            assert(queue2[queue.len() as int] == v);
        }
    }
    assert(!queue2.contains(cur)) by {
        if queue2.contains(cur) {
            let j = choose|j: int| 0 <= j < queue2.len() && queue2[j] == cur;
            if j < queue.len() {
                assert(queue.contains(cur));
            }
        }
    }
    assert forall|j: int| 0 <= j < k + 1 implies relaxed_to(ns, costs2, cur, #[trigger] nbrs(ns, cur)[j]) by {
        if j < k {
            assert(relaxed_to(ns, costs, cur, nbrs(ns, cur)[j]));
        }
    }
    assert forall|u: NodeId|
        u as int != cur as int && relays(ns, owner, u) && costs2[u as int] is Some && !queue2.contains(u)
        implies #[trigger] relaxed_upto(ns, costs2, u, nbrs(ns, u).len() as int) by {
        assert(u != v);
        assert(!queue.contains(u)) by {
            if queue.contains(u) {
                let j = choose|j: int| 0 <= j < queue.len() && queue[j] == u;
                assert(queue2[j] == u);
            }
        }
        assert(relaxed_upto(ns, costs, u, nbrs(ns, u).len() as int));
        assert forall|j: int| 0 <= j < nbrs(ns, u).len() implies relaxed_to(ns, costs2, u, #[trigger] nbrs(ns, u)[j]) by {
            assert(relaxed_to(ns, costs, u, nbrs(ns, u)[j]));
        }
    }
    lemma_potential_update(costs, v as int, Some(p), 256);
}


/// Taking the first node out of the queue: it is no longer waiting, and every
/// other settled node stays settled.
pub proof fn lemma_pop(
    ns: Seq<NodeView>,
    owner: NodeId,
    costs: Seq<Option<u128>>,
    preds: Seq<Option<NodeId>>,
    stamps: Seq<nat>,
    clock: nat,
    queue: Seq<NodeId>,
)
    requires
        tables_ok(ns, owner, costs, preds, stamps, clock, queue),
        settled_except(ns, owner, costs, queue, -1),
        queue.len() > 0,
    ensures
        tables_ok(ns, owner, costs, preds, stamps, clock, queue.remove(0)),
        settled_except(ns, owner, costs, queue.remove(0), queue[0] as int),
        !queue.remove(0).contains(queue[0]),
        costs[queue[0] as int] is Some,
        has_node(ns, queue[0]),
        !relays(ns, owner, queue[0]) ==> settled_except(ns, owner, costs, queue.remove(0), -1),
{
    let rest = queue.remove(0);
    let cur = queue[0];
    assert(costs[queue[0] as int] is Some);
    assert forall|j: int| 0 <= j < rest.len() implies rest[j] == queue[j + 1] by {}
    assert(rest.no_duplicates()) by {
        assert forall|i: int, j: int| 0 <= i < rest.len() && 0 <= j < rest.len() && i != j implies rest[i] != rest[j] by {
            assert(rest[i] == queue[i + 1] && rest[j] == queue[j + 1]);
        }
    }
    assert forall|j: int| 0 <= j < rest.len() implies (#[trigger] costs[rest[j] as int]) is Some by {
        assert(costs[queue[j + 1] as int] is Some);
    }
    assert(!rest.contains(cur)) by {
        if rest.contains(cur) {
            let j = choose|j: int| 0 <= j < rest.len() && rest[j] == cur;
            assert(queue[j + 1] == queue[0]);
        }
    }
    assert forall|u: NodeId| u as int != cur as int && !rest.contains(u) implies !queue.contains(u) by {
        if queue.contains(u) {
            let j = choose|j: int| 0 <= j < queue.len() && queue[j] == u;
            assert(j != 0);
            assert(rest[j - 1] == u);
        }
    }
    assert forall|u: NodeId| !rest.contains(u) && !relays(ns, owner, cur) && relays(ns, owner, u) implies !queue.contains(u) by {
        if queue.contains(u) {
            let j = choose|j: int| 0 <= j < queue.len() && queue[j] == u;
            assert(j != 0);
            assert(rest[j - 1] == u);
        }
    }
}

/// Once every edge of `cur` is relaxed, all settled nodes are relaxed.
pub proof fn lemma_relaxed_all(
    ns: Seq<NodeView>,
    owner: NodeId,
    costs: Seq<Option<u128>>,
    preds: Seq<Option<NodeId>>,
    stamps: Seq<nat>,
    clock: nat,
    queue: Seq<NodeId>,
    cur: NodeId,
    cc: u128,
)
    requires
        relaxing(ns, owner, costs, preds, stamps, clock, queue, cur, cc, nbrs(ns, cur).len() as int),
    ensures
        tables_ok(ns, owner, costs, preds, stamps, clock, queue),
        settled_except(ns, owner, costs, queue, -1),
{
    assert forall|u: NodeId|
        u as int != -1 && relays(ns, owner, u) && costs[u as int] is Some && !queue.contains(u)
        implies #[trigger] relaxed_upto(ns, costs, u, nbrs(ns, u).len() as int) by {
        if u != cur {
            assert(relaxed_upto(ns, costs, u, nbrs(ns, u).len() as int));
        }
    }
}

/// Reordering the queue (same length, same members, no duplicates) keeps the invariants.
pub proof fn lemma_reorder(
    ns: Seq<NodeView>,
    owner: NodeId,
    costs: Seq<Option<u128>>,
    preds: Seq<Option<NodeId>>,
    stamps: Seq<nat>,
    clock: nat,
    queue: Seq<NodeId>,
    queue2: Seq<NodeId>,
)
    requires
        tables_ok(ns, owner, costs, preds, stamps, clock, queue),
        settled_except(ns, owner, costs, queue, -1),
        queue2.no_duplicates(),
        forall|k: int| 0 <= k < queue2.len() ==> (#[trigger] costs[queue2[k] as int]) is Some,
        forall|x: NodeId| #[trigger] queue2.contains(x) == queue.contains(x),
    ensures
        tables_ok(ns, owner, costs, preds, stamps, clock, queue2),
        settled_except(ns, owner, costs, queue2, -1),
{
    assert forall|u: NodeId|
        u as int != -1 && relays(ns, owner, u) && costs[u as int] is Some && !queue2.contains(u)
        implies #[trigger] relaxed_upto(ns, costs, u, nbrs(ns, u).len() as int) by {
        assert(!queue.contains(u));
    }
}

/// Exchanging two neighbouring entries of a sequence.
pub open spec fn swap_adjacent(q: Seq<NodeId>, j: int) -> Seq<NodeId> {
    q.update(j - 1, q[j]).update(j, q[j - 1])
}

/// Exchanging two neighbouring entries keeps the members and their uniqueness.
pub proof fn lemma_swap_adjacent(q: Seq<NodeId>, j: int)
    requires
        1 <= j < q.len(),
    ensures
        swap_adjacent(q, j).len() == q.len(),
        forall|k: int| 0 <= k < q.len() ==> #[trigger] swap_adjacent(q, j)[k] == q[if k == j - 1 {
            j
        } else if k == j {
            j - 1
        } else {
            k
        }],
        forall|x: NodeId| #[trigger] swap_adjacent(q, j).contains(x) == q.contains(x),
        q.no_duplicates() ==> swap_adjacent(q, j).no_duplicates(),
{
    let r = swap_adjacent(q, j);
    assert forall|x: NodeId| #[trigger] r.contains(x) == q.contains(x) by {
        if q.contains(x) {
            let i = choose|i: int| 0 <= i < q.len() && q[i] == x;
            let i2 = if i == j - 1 { j } else if i == j { j - 1 } else { i };
            assert(r[i2] == x);
        }
        if r.contains(x) {
            let i = choose|i: int| 0 <= i < r.len() && r[i] == x;
            let i2 = if i == j - 1 { j } else if i == j { j - 1 } else { i };
            assert(q[i2] == x);
        }
    }
}

/// Every route ends at a node whose known cost is at most the cost of the route.
pub proof fn lemma_cost_lower_bound(
    ns: Seq<NodeView>,
    owner: NodeId,
    costs: Seq<Option<u128>>,
    preds: Seq<Option<NodeId>>,
    stamps: Seq<nat>,
    clock: nat,
    q: Seq<NodeId>,
)
    requires
        tables_ok(ns, owner, costs, preds, stamps, clock, Seq::empty()),
        settled_except(ns, owner, costs, Seq::empty(), -1),
        is_route(ns, owner, q),
    ensures
        costs[q.last() as int] is Some,
        costs[q.last() as int].unwrap() <= route_cost(ns, q),
    decreases q.len(),
{
    if q.len() > 1 {
        let q1 = q.drop_last();
        assert forall|i: int| 0 <= i < q1.len() - 1 implies step_ok(ns, owner, #[trigger] q1[i], q1[i + 1]) by {
            assert(step_ok(ns, owner, q[i], q[i + 1]));
        }
        lemma_cost_lower_bound(ns, owner, costs, preds, stamps, clock, q1);
        let u = q1.last();
        let v = q.last();
        assert(step_ok(ns, owner, q[q.len() - 2], q[q.len() - 1]));
        assert(u == q[q.len() - 2]);
        assert(nbrs(ns, u).contains(v));
        let k = choose|k: int| 0 <= k < nbrs(ns, u).len() && nbrs(ns, u)[k] == v;
        assert(!Seq::<NodeId>::empty().contains(u));
        assert(relaxed_upto(ns, costs, u, nbrs(ns, u).len() as int));
        assert(relaxed_to(ns, costs, u, nbrs(ns, u)[k]));
    }
}

/// The predecessors recorded by the search form a tree rooted at the owner:
/// the owner has none, each recorded predecessor is a relaying node with an
/// edge to its node, and following predecessors back from any node the search
/// reached comes to the owner without visiting a node twice. The returned
/// chain is that walk, from the owner to `x`.
pub proof fn law_predecessors_form_tree(
    ns: Seq<NodeView>,
    owner: NodeId,
    costs: Seq<Option<u128>>,
    preds: Seq<Option<NodeId>>,
    stamps: Seq<nat>,
    clock: nat,
    x: NodeId,
) -> (chain: Seq<NodeId>)
    requires
        tables_ok(ns, owner, costs, preds, stamps, clock, Seq::empty()),
        costs[x as int] is Some,
    ensures
        preds[owner as int] is None,
        preds[x as int] matches Some(u) ==> step_ok(ns, owner, u, x),
        chain.len() >= 1,
        chain[0] == owner,
        chain.last() == x,
        chain.no_duplicates(),
        forall|i: int| 0 <= i < chain.len() - 1 ==> #[trigger] preds[chain[i + 1] as int] == Some(chain[i]),
        forall|i: int| 0 <= i < chain.len() - 1 ==> ranks_below(costs, stamps, #[trigger] chain[i], x),
    decreases costs[x as int].unwrap(), stamps[x as int],
{
    assert(pred_ok(ns, owner, costs, preds, stamps, x));
    if x == owner {
        seq![owner]
    } else {
        let u = preds[x as int].unwrap();
        assert(weight(ns, x) >= 0);
        let prefix = law_predecessors_form_tree(ns, owner, costs, preds, stamps, clock, u);
        let chain = prefix.push(x);
        assert forall|i: int| 0 <= i < chain.len() - 1 implies ranks_below(costs, stamps, #[trigger] chain[i], x) by {
            if i < prefix.len() - 1 {
                assert(ranks_below(costs, stamps, prefix[i], u));
            }
        }
        assert forall|i: int| 0 <= i < chain.len() - 1 implies #[trigger] preds[chain[i + 1] as int] == Some(chain[i]) by {
            if i < prefix.len() - 1 {
                assert(preds[prefix[i + 1] as int] == Some(prefix[i]));
            }
        }
        assert forall|i: int, j: int| 0 <= i < j < chain.len() implies chain[i] != chain[j] by {
            if j == chain.len() - 1 {
                assert(ranks_below(costs, stamps, chain[i], x));
            } else {
                assert(prefix[i] != prefix[j]);
            }
        }
        chain
    }
}

} // verus!
