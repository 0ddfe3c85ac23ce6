//! Murmur: peer-to-peer swarm coordination for resilient file distribution.
//!
//! The verified core of the runtime: identifiers, chunks, tasks, manifests,
//! the overlay state table, coordinator election and lifecycle, heartbeat
//! monitoring, scheduling strategies, transfer bookkeeping, bonded
//! multi-node downloads, the wire framing, the SOCKS5 handshake, and the
//! node's decisions on every network event (`daemon`), which the program
//! around the library carries out.
pub mod types;
pub mod flags;
pub mod digest;
pub mod manifest;
pub mod text;
pub mod chunk;
pub mod task;
pub mod node;
pub mod ordered_map;
pub mod id_table;
pub mod heartbeat;
pub mod peer_health;
pub mod membership;
pub mod election;
pub mod lifecycle;
pub mod recovery;
pub mod cluster;
pub mod error;
pub mod state_table;
pub mod topology;
pub mod strategy;
pub mod task_queue;
pub mod chunk_scheduler;
pub mod reassignment;
pub mod transfer;
pub mod url_manifest;
pub mod bonded;
pub mod wan_fetch;
pub mod event;
pub mod link;
pub mod net;
pub mod rpc;
pub mod framing;
pub mod socks5;
pub mod proxy;
pub mod throughput;
pub mod daemon;
