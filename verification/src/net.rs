//! Messages exchanged between peers.
use vstd::prelude::*;

use crate::manifest::Manifest;
use crate::types::{ChunkId, ManifestId, NodeId};

verus! {

/// A message on the peer-to-peer wire.
#[derive(Debug, Clone)]
pub enum NetMessage {
    Handshake { node_id: NodeId },
    HeartbeatPing,
    HeartbeatAck,
    RequestManifest { manifest_id: ManifestId },
    ManifestData { manifest: Manifest },
    RequestChunk { manifest_id: ManifestId, chunk_id: ChunkId },
    ChunkData { manifest_id: ManifestId, chunk_id: ChunkId, data: Vec<u8> },
    ChunkNotFound { manifest_id: ManifestId, chunk_id: ChunkId },
    Bitfield { manifest_id: ManifestId, chunks: Vec<ChunkId> },
    Have { manifest_id: ManifestId, chunk_id: ChunkId },
    /// Byte ranges a coordinator hands to a node: (chunk id, offset, size).
    AssignFetchRanges { url: String, manifest_id: ManifestId, coordinator_id: NodeId, assignments: Vec<(ChunkId, u64, u32)> },
    /// A node asking the coordinator for its next batch.
    RequestMoreWork { manifest_id: ManifestId, node_id: NodeId },
    ProxyConnect { stream_id: u32, host: String, port: u16 },
    ProxyConnectResult { stream_id: u32, success: bool },
    ProxyData { stream_id: u32, data: Vec<u8> },
    ProxyClose { stream_id: u32 },
}

} // verus!
