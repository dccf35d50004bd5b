# routing

The routing table of a node in a peer-to-peer network, written in Rust and verified with Verus.

A node keeps the graph of connections that peers report, computes for every peer which of its own
neighbors start a shortest way there, and spreads messages evenly over these neighbors. It also
remembers which peer owns an account, where a message came from, and which pings wait for an answer.
Peers that were out of reach for long are moved to disk with their edges, and come back when they are
heard of again.

## Layout

- `src/types.rs`, `src/store.rs`: plain data, and what is asked of the store on disk.
- `src/topology.rs`: the network as a mathematical object, and what a shortest way is.
- `src/graph.rs`, `src/graph/search.rs`: the stored graph and the breadth-first search.
- `src/lru.rs`, `src/caches.rs`: what a bounded cache holds, and the caches, which are
  `cached::SizedCache`s.
- `src/route_back.rs`: where messages came from.
- `src/clock.rs`: arithmetic on times, which is `chrono`'s.
- `src/state.rs`: all that a table knows, and how each event changes it.
- `src/routing.rs`, `src/routing/`: the table itself.
- `src/laws.rs`, `src/laws/`: what holds over more than one call.
- `app/`: the table of a running node, with its store, clocks, log and counters.

The library reads neither the disk nor a clock. A function that needs one takes the reply of the store
or the time as an argument, and hands back the changes that are to be written. `process_edges` stops
where it needs the disk and says what for; the caller answers and goes on.

What is believed without proof stands in `src/caches.rs` and `src/clock.rs`.
