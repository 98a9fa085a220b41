//! The life of one message in transit: its fragments go out on a route,
//! acknowledgements are collected, dropped fragments are sent again and the
//! route is refreshed when it keeps failing.
use vstd::prelude::*;
use std::collections::HashSet;
use crate::packet::{Fragment, NodeId, Packet, PacketType, SourceRoutingHeader};

verus! {

broadcast use vstd::std_specs::hash::group_hash_axioms;

/// After this many resend requests the route is refreshed before resending.
pub const DROPPED_NUM_TO_UPDATE_HEADER: usize = 200;

/// A route is refreshed only when the previous refresh is older than this many
/// nanoseconds (a tenth of a second).
pub const HEADER_UPDATE_INTERVAL_NS: u128 = 100_000_000;

/// A command from the transmitter to the handler of one message.
#[derive(Clone, Copy, Debug, PartialEq, Eq, Structural)]
pub enum Command {
    Resend(u64),
    Confirmed(u64),
    Quit,
    UpdateHeader,
}

/// A report from a handler to the transmitter.
#[derive(Clone, Copy, Debug, PartialEq, Eq, Structural)]
pub enum Event {
    TransmissionCompleted(u64),
}

/// What the handler has to do after a command.
#[derive(Clone, Copy, Debug, PartialEq, Eq, Structural)]
pub enum Decision {
    /// Send fragment `fragment_index` again, refreshing the route first when `refresh_header`.
    Resend { fragment_index: u64, refresh_header: bool },
    /// Refresh the route, if the previous refresh is old enough.
    RefreshHeader,
    /// Keep waiting for commands.
    Wait,
    /// Every fragment is acknowledged: report success and stop.
    Completed,
    /// Stop without reporting success.
    Stop,
}

/// The count of resend requests after one more, and whether that request
/// refreshes the route: every `DROPPED_NUM_TO_UPDATE_HEADER`-th one does, and
/// the count starts again from zero.
pub open spec fn resend_step(count: nat) -> (nat, bool) {
    if count + 1 >= DROPPED_NUM_TO_UPDATE_HEADER {
        (0, true)
    } else {
        ((count + 1) as nat, false)
    }
}

/// The count after `n` resend requests in a row starting from `count`, and for
/// each of them whether it refreshed the route.
pub open spec fn resend_run(count: nat, n: nat) -> (nat, Seq<bool>)
    decreases n,
{
    if n == 0 {
        (count, Seq::empty())
    } else {
        let before = resend_run(count, (n - 1) as nat);
        let after = resend_step(before.0);
        (after.0, before.1.push(after.1))
    }
}

/// Over a run of resend requests, the route is refreshed exactly at every
/// `DROPPED_NUM_TO_UPDATE_HEADER`-th request counted from a count of zero: the
/// `k`-th request of the run (from 0) refreshes it exactly when `count + k + 1`
/// is a multiple of `DROPPED_NUM_TO_UPDATE_HEADER`, and the count left is the
/// number of requests since the last refresh.
pub proof fn law_route_refreshed_every_period(count: nat, n: nat)
    requires
        count < DROPPED_NUM_TO_UPDATE_HEADER,
    ensures
        resend_run(count, n).0 == (count + n) as int % (DROPPED_NUM_TO_UPDATE_HEADER as int),
        resend_run(count, n).1.len() == n,
        forall|k: int| 0 <= k < n ==> #[trigger] resend_run(count, n).1[k]
            == ((count + k + 1) % (DROPPED_NUM_TO_UPDATE_HEADER as int) == 0),
    decreases n,
{
    if n > 0 {
        law_route_refreshed_every_period(count, (n - 1) as nat);
        let before = resend_run(count, (n - 1) as nat);
        let m = count + n - 1;
        assert(before.0 == m % 200);
        assert((m + 1) % 200 == (if m % 200 + 1 >= 200 { 0 } else { m % 200 + 1 })) by {
            vstd::arithmetic::div_mod::lemma_add_mod_noop(m, 1, 200);
        }
        let run = resend_run(count, n);
        assert forall|k: int| 0 <= k < n implies #[trigger] run.1[k]
            == ((count + k + 1) % (DROPPED_NUM_TO_UPDATE_HEADER as int) == 0) by {
            if k < n - 1 {
                assert(run.1[k] == before.1[k]);
            }
        }
    }
}

/// What a handler has recorded depends only on which fragments were
/// acknowledged: acknowledging the same fragment again changes nothing, and
/// two acknowledgements give the same record in either order.
pub proof fn law_acknowledgements_repeat_and_commute(acks: Set<u64>, i: u64, j: u64)
    ensures
        acks.insert(i).insert(i) == acks.insert(i),
        acks.insert(i).insert(j) == acks.insert(j).insert(i),
{
    assert(acks.insert(i).insert(i) =~= acks.insert(i));
    assert(acks.insert(i).insert(j) =~= acks.insert(j).insert(i));
}

/// A message is not complete while one of its fragments is unacknowledged:
/// whatever else was acknowledged (other fragments, or indexes beyond the
/// message), a missing fragment index below the number of fragments keeps
/// the handler from completing.
pub proof fn law_missing_fragment_blocks_completion(h: TransmissionHandler, i: u64)
    requires
        i < h.fragments@.len(),
        !h.received_acks@.contains(i),
    ensures
        !h.all_acknowledged(),
{
}

/// Acknowledging the last missing fragment completes the message: if every
/// fragment but `i` was acknowledged, the handler whose acknowledgements
/// gained `i` is complete.
pub proof fn law_last_missing_fragment_completes(h: TransmissionHandler, after: TransmissionHandler, i: u64)
    requires
        i < h.fragments@.len(),
        forall|j: u64| j < h.fragments@.len() && j != i ==> #[trigger] h.received_acks@.contains(j),
        after.fragments@ == h.fragments@,
        after.received_acks@ == h.received_acks@.insert(i),
    ensures
        after.all_acknowledged(),
{
    assert forall|j: u64| j < after.fragments@.len() implies #[trigger] after.received_acks@.contains(j) by {
        if j != i {
            assert(h.received_acks@.contains(j));
        }
    }
}

/// Copies a route element by element.
fn copy_header(header: &SourceRoutingHeader) -> (r: SourceRoutingHeader)
    ensures
        r.hop_index == header.hop_index,
        r.hops@ == header.hops@,
{
    let mut hops: Vec<NodeId> = Vec::new();
    let mut k: usize = 0;
    while k < header.hops.len()
        invariant
            k <= header.hops@.len(),
            hops@ == header.hops@.take(k as int),
        decreases header.hops@.len() - k,
    {
        hops.push(header.hops[k]);
        proof {
            assert(hops@ =~= header.hops@.take(k + 1));
        }
        k = k + 1;
    }
    proof {
        assert(hops@ =~= header.hops@);
    }
    SourceRoutingHeader { hop_index: header.hop_index, hops }
}

/// The state of the transmission of one message.
pub struct TransmissionHandler {
    pub fragments: Vec<Fragment>,
    pub session_id: u64,
    pub destination: NodeId,
    pub received_acks: HashSet<u64>,
    pub dropped_count: usize,
}

impl TransmissionHandler {
    /// Fewer resend requests are pending than trigger a route refresh.
    pub open spec fn wf(&self) -> bool {
        self.dropped_count < DROPPED_NUM_TO_UPDATE_HEADER
    }

    /// A handler for the message of `session_id`, cut into `fragments`, bound to `destination`.
    pub fn new(session_id: u64, destination: NodeId, fragments: Vec<Fragment>) -> (r: Self)
        ensures
            r.wf(),
            r.session_id == session_id,
            r.destination == destination,
            r.fragments@ == fragments@,
            r.received_acks@ == Set::<u64>::empty(),
            r.dropped_count == 0,
    {
        TransmissionHandler { fragments, session_id, destination, received_acks: HashSet::new(), dropped_count: 0 }
    }

    /// The route along `hops`, starting at its first node.
    pub fn routing_header_for(hops: Vec<NodeId>) -> (r: SourceRoutingHeader)
        ensures
            r.hop_index == 0,
            r.hops@ == hops@,
    {
        SourceRoutingHeader { hop_index: 0, hops }
    }

    /// Whether a route refresh is allowed `elapsed_ns` nanoseconds after the previous one.
    pub fn header_refresh_due(elapsed_ns: u128) -> (r: bool)
        ensures
            r == (elapsed_ns > HEADER_UPDATE_INTERVAL_NS),
    {
        elapsed_ns > HEADER_UPDATE_INTERVAL_NS
    }

    /// The packet carrying `fragment` of this session along `source_routing_header`.
    pub fn create_packet_for_fragment(&self, fragment: Fragment, source_routing_header: SourceRoutingHeader) -> (r: Packet)
        ensures
            r.routing_header == source_routing_header,
            r.session_id == self.session_id,
            r.pack_type == PacketType::MsgFragment(fragment),
    {
        Packet {
            routing_header: source_routing_header,
            session_id: self.session_id,
            pack_type: PacketType::MsgFragment(fragment),
        }
    }

    /// One packet per fragment, in order, all on the route `header`.
    pub fn initial_packets(&self, header: &SourceRoutingHeader) -> (r: Vec<Packet>)
        ensures
            r@.len() == self.fragments@.len(),
            forall|i: int| 0 <= i < r@.len() ==> {
                &&& (#[trigger] r@[i]).session_id == self.session_id
                &&& r@[i].pack_type == PacketType::MsgFragment(self.fragments@[i])
                &&& r@[i].routing_header.hop_index == header.hop_index
                &&& r@[i].routing_header.hops@ == header.hops@
            },
    {
        let mut packets: Vec<Packet> = Vec::new();
        let mut i: usize = 0;
        while i < self.fragments.len()
            invariant
                i <= self.fragments@.len(),
                packets@.len() == i,
                forall|j: int| 0 <= j < i ==> {
                    &&& (#[trigger] packets@[j]).session_id == self.session_id
                    &&& packets@[j].pack_type == PacketType::MsgFragment(self.fragments@[j])
                    &&& packets@[j].routing_header.hop_index == header.hop_index
                    &&& packets@[j].routing_header.hops@ == header.hops@
                },
            decreases self.fragments@.len() - i,
        {
            let packet = self.create_packet_for_fragment(self.fragments[i], copy_header(header));
            packets.push(packet);
            i = i + 1;
        }
        packets
    }

    /// The packet that sends fragment `fragment_index` again on `source_routing_header`;
    /// `None` when the index is out of range.
    pub fn process_resend_command(&self, fragment_index: u64, source_routing_header: &SourceRoutingHeader) -> (r: Option<Packet>)
        ensures
            match r {
                Some(p) => {
                    &&& fragment_index < self.fragments@.len()
                    &&& p.session_id == self.session_id
                    &&& p.pack_type == PacketType::MsgFragment(self.fragments@[fragment_index as int])
                    &&& p.routing_header.hop_index == source_routing_header.hop_index
                    &&& p.routing_header.hops@ == source_routing_header.hops@
                },
                None => fragment_index >= self.fragments@.len(),
            },
    {
        if fragment_index < self.fragments.len() as u64 {
            let fragment = self.fragments[fragment_index as usize];
            Some(self.create_packet_for_fragment(fragment, copy_header(source_routing_header)))
        } else {
            None
        }
    }

    /// Every fragment index of this message is among the acknowledged ones.
    pub open spec fn all_acknowledged(&self) -> bool {
        forall|i: u64| i < self.fragments@.len() ==> #[trigger] self.received_acks@.contains(i)
    }

    /// Whether every fragment index below `fragments.len()` has been acknowledged.
    fn every_fragment_acknowledged(&self) -> (r: bool)
        ensures
            r == self.all_acknowledged(),
    {
        let n = self.fragments.len();
        let mut i: usize = 0;
        while i < n
            invariant
                n == self.fragments@.len(),
                i <= n,
                forall|j: u64| j < i ==> #[trigger] self.received_acks@.contains(j),
            decreases n - i,
        {
            let index = i as u64;
            if !self.received_acks.contains(&index) {
                return false;
            }
            i = i + 1;
        }
        true
    }

    /// Records the acknowledgement of fragment `fragment_index`; true once
    /// every fragment of the message has been acknowledged.
    pub fn process_confirmed_command(&mut self, fragment_index: u64) -> (r: bool)
        ensures
            final(self).received_acks@ == old(self).received_acks@.insert(fragment_index),
            final(self).fragments@ == old(self).fragments@,
            final(self).session_id == old(self).session_id,
            final(self).destination == old(self).destination,
            final(self).dropped_count == old(self).dropped_count,
            r == final(self).all_acknowledged(),
    {
        self.received_acks.insert(fragment_index);
        self.every_fragment_acknowledged()
    }

    /// Decides what to do with a command from the transmitter:
    /// - `Resend(i)`: count the request; every `DROPPED_NUM_TO_UPDATE_HEADER`-th
    ///   one also asks for a route refresh; fragment `i` is sent again;
    /// - `Confirmed(i)`: record the acknowledgement; done once every fragment is;
    /// - `UpdateHeader`: refresh the route;
    /// - `Quit`: stop.
    pub fn handle_command(&mut self, command: Command) -> (r: Decision)
        requires
            command is Resend ==> old(self).dropped_count < usize::MAX,
        ensures
            old(self).wf() ==> final(self).wf(),
            final(self).fragments@ == old(self).fragments@,
            final(self).session_id == old(self).session_id,
            final(self).destination == old(self).destination,
            match command {
                Command::Resend(i) => {
                    let step = resend_step(old(self).dropped_count as nat);
                    &&& r == (Decision::Resend { fragment_index: i, refresh_header: step.1 })
                    &&& final(self).dropped_count == step.0
                    &&& final(self).received_acks@ == old(self).received_acks@
                },
                Command::Confirmed(i) => {
                    &&& final(self).received_acks@ == old(self).received_acks@.insert(i)
                    &&& final(self).dropped_count == old(self).dropped_count
                    &&& r == (if final(self).all_acknowledged() {
                        Decision::Completed
                    } else {
                        Decision::Wait
                    })
                },
                Command::UpdateHeader => {
                    &&& r == Decision::RefreshHeader
                    &&& final(self).dropped_count == old(self).dropped_count
                    &&& final(self).received_acks@ == old(self).received_acks@
                },
                Command::Quit => {
                    &&& r == Decision::Stop
                    &&& final(self).dropped_count == old(self).dropped_count
                    &&& final(self).received_acks@ == old(self).received_acks@
                },
            },
    {
        match command {
            Command::Resend(fragment_index) => {
                self.dropped_count = self.dropped_count + 1;
                let mut refresh_header = false;
                if self.dropped_count >= DROPPED_NUM_TO_UPDATE_HEADER {
                    self.dropped_count = 0;
                    refresh_header = true;
                }
                Decision::Resend { fragment_index, refresh_header }
            },
            Command::Confirmed(fragment_index) => {
                if self.process_confirmed_command(fragment_index) {
                    Decision::Completed
                } else {
                    Decision::Wait
                }
            },
            Command::UpdateHeader => Decision::RefreshHeader,
            Command::Quit => Decision::Stop,
        }
    }

    /// The report sent to the transmitter when the handler stops.
    pub fn completion_event(&self) -> (r: Event)
        ensures
            r == Event::TransmissionCompleted(self.session_id),
    {
        Event::TransmissionCompleted(self.session_id)
    }
}

} // verus!
