use murmur::reassignment::reassign_chunks;
use murmur::types::{ChunkId, NodeId};

#[test]
fn reassign_to_survivors() {
    let orphaned = vec![ChunkId(0), ChunkId(1), ChunkId(2), ChunkId(3)];
    let survivors = vec![NodeId(2), NodeId(4)];

    let result = reassign_chunks(&orphaned, &survivors);
    assert_eq!(result.reassigned.len(), 4);
    assert!(result.failed.is_empty());

    assert_eq!(result.reassigned[0].node_id, NodeId(2));
    assert_eq!(result.reassigned[1].node_id, NodeId(4));
    assert_eq!(result.reassigned[2].node_id, NodeId(2));
    assert_eq!(result.reassigned[3].node_id, NodeId(4));
}

#[test]
fn no_survivors_all_fail() {
    let orphaned = vec![ChunkId(0), ChunkId(1)];
    let result = reassign_chunks(&orphaned, &[]);
    assert!(result.reassigned.is_empty());
    assert_eq!(result.failed.len(), 2);
}

#[test]
fn empty_orphans() {
    let result = reassign_chunks(&[], &[NodeId(1)]);
    assert!(result.reassigned.is_empty());
    assert!(result.failed.is_empty());
}

#[test]
fn failed_chunks_keep_their_order() {
    let result = reassign_chunks(&[ChunkId(9), ChunkId(3)], &[]);
    assert_eq!(result.failed, vec![ChunkId(9), ChunkId(3)]);
    let ok = reassign_chunks(&[ChunkId(9), ChunkId(3)], &[NodeId(7)]);
    assert_eq!(ok.reassigned[1].chunk_id, ChunkId(3));
    assert_eq!(ok.reassigned[1].node_id, NodeId(7));
}
