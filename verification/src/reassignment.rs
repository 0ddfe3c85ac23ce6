//! Reassigning the chunks of a failed node to the nodes that survive it.
use vstd::prelude::*;

use crate::strategy::ChunkAssignment;
use crate::types::{ChunkId, NodeId};

verus! {

/// Result of a reassignment operation.
#[derive(Debug, Clone)]
pub struct ReassignmentResult {
    /// New assignments for orphaned chunks.
    pub reassigned: Vec<ChunkAssignment>,
    /// Chunks that could not be reassigned (no surviving nodes).
    pub failed: Vec<ChunkId>,
}

/// Reassign orphaned chunks to surviving nodes round robin: chunk `k` goes to
/// survivor `k mod m`. With no survivors every chunk is reported as failed.
pub fn reassign_chunks(orphaned_chunks: &[ChunkId], surviving_nodes: &[NodeId]) -> (r: ReassignmentResult)
    ensures
        surviving_nodes@.len() == 0 ==> r.reassigned@.len() == 0 && r.failed@ == orphaned_chunks@,
        surviving_nodes@.len() > 0 ==> r.failed@.len() == 0 && r.reassigned@.len() == orphaned_chunks@.len()
            && forall|k: int| 0 <= k < orphaned_chunks@.len() ==> (#[trigger] r.reassigned@[k]).chunk_id == orphaned_chunks@[k]
                && r.reassigned@[k].node_id == surviving_nodes@[k % (surviving_nodes@.len() as int)],
{
    if surviving_nodes.len() == 0 {
        let mut failed: Vec<ChunkId> = Vec::new();
        let mut i: usize = 0;
        while i < orphaned_chunks.len()
            invariant
                i <= orphaned_chunks@.len(),
                failed@ == orphaned_chunks@.take(i as int),
            decreases orphaned_chunks.len() - i,
        {
            failed.push(orphaned_chunks[i]);
            i = i + 1;
            assert(failed@ =~= orphaned_chunks@.take(i as int));
        }
        assert(orphaned_chunks@.take(i as int) =~= orphaned_chunks@);
        return ReassignmentResult { reassigned: Vec::new(), failed };
    }
    let m = surviving_nodes.len();
    let mut reassigned: Vec<ChunkAssignment> = Vec::new();
    let mut k: usize = 0;
    while k < orphaned_chunks.len()
        invariant
            m == surviving_nodes@.len(),
            m > 0,
            k <= orphaned_chunks@.len(),
            reassigned@.len() == k,
            forall|j: int| 0 <= j < k ==> (#[trigger] reassigned@[j]).chunk_id == orphaned_chunks@[j]
                && reassigned@[j].node_id == surviving_nodes@[j % (m as int)],
        decreases orphaned_chunks.len() - k,
    {
        reassigned.push(ChunkAssignment { chunk_id: orphaned_chunks[k], node_id: surviving_nodes[k % m] });
        k = k + 1;
    }
    ReassignmentResult { reassigned, failed: Vec::new() }
}

} // verus!
