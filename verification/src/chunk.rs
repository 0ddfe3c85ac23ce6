//! Chunks: the atomic unit of data transfer, and their ownership lifecycle.
use vstd::prelude::*;

use crate::types::{ChunkId, NodeId, SimTime};

verus! {

/// Metadata for a single chunk within a manifest.
#[derive(Debug, Clone, Copy, PartialEq, Eq)]
pub struct ChunkMeta {
    /// Chunk identifier (index within the manifest).
    pub id: ChunkId,
    /// Byte offset of this chunk in the whole file.
    pub offset: u64,
    /// Size of this chunk in bytes.
    pub size: u32,
    /// BLAKE3 hash of the chunk data.
    pub hash: [u8; 32],
}

/// Monotonic chunk lifecycle. A status only ever advances:
/// `Unassigned < Assigned < InProgress < Verified`, and two views of the same
/// chunk merge by taking the larger status.
#[derive(Debug, Clone, Copy, PartialEq, Eq, Structural)]
pub enum ChunkStatus {
    Unassigned,
    Assigned,
    InProgress,
    /// Terminal state: a verified chunk is never reassigned.
    Verified,
}

/// Position of a status in the lifecycle order.
pub open spec fn status_rank(s: ChunkStatus) -> nat {
    match s {
        ChunkStatus::Unassigned => 0,
        ChunkStatus::Assigned => 1,
        ChunkStatus::InProgress => 2,
        ChunkStatus::Verified => 3,
    }
}

impl ChunkStatus {
    /// Returns true if this status is terminal (a terminal chunk is never reassigned).
    pub fn is_terminal(&self) -> (r: bool)
        ensures
            r == (*self == ChunkStatus::Verified),
    {
        matches!(self, ChunkStatus::Verified)
    }

    /// Position of this status in the lifecycle order.
    pub fn rank(&self) -> (r: u8)
        ensures
            r == status_rank(*self),
    {
        match self {
            ChunkStatus::Unassigned => 0,
            ChunkStatus::Assigned => 1,
            ChunkStatus::InProgress => 2,
            ChunkStatus::Verified => 3,
        }
    }
}

/// The ownership and transfer state of a chunk.
#[derive(Debug, Clone, Copy, PartialEq, Eq, Structural)]
pub struct ChunkOwnership {
    pub chunk_id: ChunkId,
    pub status: ChunkStatus,
    /// `None` while unassigned.
    pub assigned_to: Option<NodeId>,
    /// Set permanently once verified.
    pub verified_by: Option<NodeId>,
    /// Which coordinator epoch set this entry.
    pub epoch: u64,
}

impl ChunkOwnership {
    /// A fresh, unassigned entry for `chunk_id`.
    pub fn new(chunk_id: ChunkId) -> (r: Self)
        ensures
            r == (ChunkOwnership {
                chunk_id,
                status: ChunkStatus::Unassigned,
                assigned_to: None,
                verified_by: None,
                epoch: 0,
            }),
    {
        ChunkOwnership {
            chunk_id,
            status: ChunkStatus::Unassigned,
            assigned_to: None,
            verified_by: None,
            epoch: 0,
        }
    }

    /// Returns true if this chunk still needs to be downloaded.
    pub fn needs_download(&self) -> (r: bool)
        ensures
            r == (self.status == ChunkStatus::Unassigned),
    {
        matches!(self.status, ChunkStatus::Unassigned)
    }

    /// Returns true if this chunk has been successfully verified.
    pub fn is_verified(&self) -> (r: bool)
        ensures
            r == (self.status == ChunkStatus::Verified),
    {
        matches!(self.status, ChunkStatus::Verified)
    }

    /// The nodes that hold a verified copy of this chunk.
    pub fn holders(&self) -> (r: Vec<NodeId>)
        ensures
            r@ == match self.verified_by {
                Some(n) => seq![n],
                None => Seq::<NodeId>::empty(),
            },
    {
        let mut v = Vec::new();
        if let Some(node_id) = self.verified_by {
            v.push(node_id);
        }
        proof {
            if self.verified_by is Some {
                assert(v@ =~= seq![self.verified_by->0]);
            } else {
                assert(v@ =~= Seq::<NodeId>::empty());
            }
        }
        v
    }
}

/// A node's local view of the chunks it owns, reported to a new coordinator.
#[derive(Debug, Clone, PartialEq, Eq)]
pub struct OstFragment {
    pub node_id: NodeId,
    pub epoch: u64,
    pub owned_chunks: Vec<(ChunkId, ChunkStatus)>,
    pub last_updated: SimTime,
}

} // verus!
