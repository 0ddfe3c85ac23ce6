use murmur::chunk::{ChunkOwnership, ChunkStatus};
use murmur::types::{ChunkId, NodeId};

#[test]
fn unassigned_needs_download() {
    let chunk = ChunkOwnership::new(ChunkId(0));
    assert!(chunk.needs_download());
}

#[test]
fn verified_is_complete() {
    let mut chunk = ChunkOwnership::new(ChunkId(1));
    chunk.status = ChunkStatus::Verified;
    chunk.verified_by = Some(NodeId(2));
    assert!(chunk.is_verified());
    assert!(!chunk.needs_download());
    assert_eq!(chunk.holders().len(), 1);
}

#[test]
fn in_progress_chunk_is_neither_new_nor_done() {
    let mut chunk = ChunkOwnership::new(ChunkId(4));
    chunk.status = ChunkStatus::InProgress;
    chunk.assigned_to = Some(NodeId(3));
    assert!(!chunk.needs_download());
    assert!(!chunk.is_verified());
    assert!(chunk.holders().is_empty());
}

#[test]
fn status_rank_orders_progress() {
    assert!(ChunkStatus::Unassigned.rank() < ChunkStatus::Assigned.rank());
    assert!(ChunkStatus::Assigned.rank() < ChunkStatus::InProgress.rank());
    assert!(ChunkStatus::InProgress.rank() < ChunkStatus::Verified.rank());
    assert!(ChunkStatus::Verified.is_terminal());
    assert!(!ChunkStatus::InProgress.is_terminal());
}
