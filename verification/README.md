# netwayste

The networking of a multiplayer Conway's Game of Life, written in Verus: the packet
protocol, the reordering and retransmission queues, the server's and the client's state
machines, and the layered filter and transport of the newer protocol, each with contracts
that Verus proves.

Layout:

- `src/net/`: the first protocol's packets, reordering queues (`queue.rs`), network
  manager with retransmission (`manager.rs`) and version check.
- `src/server/`, `src/client.rs`: the first protocol's server and client state.
- `src/transport/`, `src/filter/`: the newer protocol's transport layer (endpoints, packet
  retry) and filter layer (ordering, deduplication and acknowledgement of requests,
  responses and game updates; latency measurement).
- `src/app/server/`: the server's rooms, players and registry.
- `app/`: the programs around the library: sockets, the async loops that drive the layers
  and their shutdown watchers, the daemon's configuration file, and serialization.
- `tests/`: tests run against the compiled library.

Outside crates (`lz4_flex`, `semver`, `snowflake`, `indexmap`, `rand`, `base64`, `regex`,
`std`'s clock) are called through small wrappers whose contracts state what their documentation
promises; everything else in `src/` is verified.
