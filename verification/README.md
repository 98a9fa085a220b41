# ap_transmitter

The transmitting side of a node of a drone network, as a verified library.

A node keeps a picture of the network (which nodes exist, how they are linked,
how many packets each one dropped), learns it from the paths of flood
responses and corrects it from negative acknowledgements, and sends every
packet on the cheapest known route: the route whose nodes dropped the fewest
packets so far, relaying only through drones.

## Layout

- `src/packet.rs` — the packet vocabulary (node types, acknowledgements,
  floods, source routes, fragments, packets).
- `src/transmitter/network_controller/network_graph/` — the known topology:
  `network_node.rs` (one node and its edges), `network_graph.rs` (the graph,
  its updates and the cheapest-route search), `route_model.rs` (routes, their
  cost and the invariants of the search), `search_order.rs` (the search step
  by step, which decides among routes of equal cost), `topology_laws.rs`
  (laws relating the updates).
- `src/transmitter/network_controller.rs` — reactions of the topology to
  flood responses, negative acknowledgements and neighbour changes.
- `src/transmitter/gateway.rs` — the channel table of the neighbours and the
  preparation of packets for their next hop.
- `src/transmitter/transmission_handler.rs`,
  `src/transmitter/single_packet_transmission_handler.rs` — the state machine
  of one message in transit, and the sending of a single packet.
- `src/transmitter.rs` — the decisions of the transmitter for every request
  it receives.
- `app/` — the threads, channels and clocks that run the library, and the
  conversions to and from the `wg_2024` packet types.

The main result is `NetworkGraph::get_path_to`: it returns a route from the
owner to the destination exactly when one exists, no route costs less, and
among equally cheap routes it is the one the search's order of examination
picks.
