# murmur

Peer-to-peer swarm coordination for resilient file distribution, as a
Verus-verified library with a thin daemon around it.

- `src/` — the library. Every function is verified by Verus against its
  `requires`/`ensures` contract: overlay state table, election and
  coordinator lifecycle, heartbeats, scheduling strategies, transfer
  tracking, bonded (multi-WAN) downloads, frame encoding, SOCKS5 parsing,
  and `daemon::NodeState`, which turns each network event into the next
  state and a list of actions. Calls into `blake3`, `uuid` and `rand` go
  through a few trusted wrappers in `digest.rs`, `types.rs` and `proxy.rs`.
- `app/` — the daemon binary: sockets, the on-disk chunk store, HTTP range
  requests, mDNS discovery, the SOCKS5 server and the timers. It performs
  the actions the library returns and feeds back their outcomes.
- `tests/` — executable tests of the library.
