//! Tasks: schedulable units of cooperative work.
use vstd::prelude::*;

use crate::types::{ChunkId, NodeId, SimTime, TaskId};

verus! {

/// The kind of work a task represents.
#[derive(Debug, Clone, PartialEq, Eq)]
pub enum TaskKind {
    /// Download a chunk from the internet (WAN).
    DownloadChunk { chunk_id: ChunkId },
    /// Download a specific byte range from a URL (WAN bonding).
    FetchUrlRange {
        chunk_ids: Vec<ChunkId>,
        /// The URL to download from.
        url: String,
        /// Byte offset to start downloading from.
        offset: u64,
        /// Number of bytes to download.
        size: u32,
    },
    /// Receive a chunk from a peer node (LAN).
    ReceiveChunkFromPeer { chunk_id: ChunkId, source: NodeId },
    /// Send a chunk to a peer node (LAN).
    SendChunkToPeer { chunk_id: ChunkId, target: NodeId },
    /// Verify the integrity of a chunk against the manifest.
    VerifyChunk { chunk_id: ChunkId },
}

/// All chunk ids a task kind operates on.
pub open spec fn kind_chunk_ids(k: TaskKind) -> Seq<ChunkId> {
    match k {
        TaskKind::DownloadChunk { chunk_id } => seq![chunk_id],
        TaskKind::FetchUrlRange { chunk_ids, .. } => chunk_ids@,
        TaskKind::ReceiveChunkFromPeer { chunk_id, .. } => seq![chunk_id],
        TaskKind::SendChunkToPeer { chunk_id, .. } => seq![chunk_id],
        TaskKind::VerifyChunk { chunk_id } => seq![chunk_id],
    }
}

/// A task kind is well formed unless it is a range fetch naming no chunk.
pub open spec fn kind_has_chunk(k: TaskKind) -> bool {
    kind_chunk_ids(k).len() > 0
}

impl TaskKind {
    /// The primary chunk the task operates on (the first one of a range fetch).
    pub fn chunk_id(&self) -> (r: ChunkId)
        requires
            kind_has_chunk(*self),
        ensures
            r == kind_chunk_ids(*self)[0],
    {
        match self {
            TaskKind::DownloadChunk { chunk_id } => *chunk_id,
            TaskKind::ReceiveChunkFromPeer { chunk_id, .. } => *chunk_id,
            TaskKind::SendChunkToPeer { chunk_id, .. } => *chunk_id,
            TaskKind::VerifyChunk { chunk_id } => *chunk_id,
            TaskKind::FetchUrlRange { chunk_ids, .. } => chunk_ids[0],
        }
    }

    /// All chunk ids the task operates on, in order.
    pub fn chunk_ids(&self) -> (r: Vec<ChunkId>)
        ensures
            r@ == kind_chunk_ids(*self),
    {
        match self {
            TaskKind::FetchUrlRange { chunk_ids, .. } => {
                let mut out: Vec<ChunkId> = Vec::new();
                let mut i: usize = 0;
                while i < chunk_ids.len()
                    invariant
                        i <= chunk_ids.len(),
                        out@ == chunk_ids@.take(i as int),
                    decreases chunk_ids.len() - i,
                {
                    out.push(chunk_ids[i]);
                    i = i + 1;
                    assert(out@ =~= chunk_ids@.take(i as int));
                }
                assert(chunk_ids@.take(i as int) =~= chunk_ids@);
                out
            },
            _ => {
                let mut out: Vec<ChunkId> = Vec::new();
                out.push(self.chunk_id());
                assert(out@ =~= kind_chunk_ids(*self));
                out
            },
        }
    }
}

/// The current status of a task.
#[derive(Debug, Clone, PartialEq, Eq)]
pub enum TaskStatus {
    /// Queued and waiting to be executed.
    Queued,
    /// Currently being executed.
    InProgress { started_at: SimTime },
    /// Completed successfully.
    Completed { completed_at: SimTime },
    /// Failed.
    Failed { failed_at: SimTime, reason: String },
    /// Cancelled (e.g. because its node failed).
    Cancelled,
}

impl TaskStatus {
    /// Returns true if the task is in a terminal state.
    pub fn is_terminal(&self) -> (r: bool)
        ensures
            r == (self is Completed || self is Failed || self is Cancelled),
    {
        matches!(
            self,
            TaskStatus::Completed { .. } | TaskStatus::Failed { .. } | TaskStatus::Cancelled
        )
    }
}

/// Traffic priority / QoS classification for tasks.
#[derive(Debug, Clone, Copy, PartialEq, Eq, Structural)]
pub enum TrafficClass {
    Interactive,
    Bulk,
    Background,
}

impl Default for TrafficClass {
    fn default() -> (r: Self)
        ensures
            r == TrafficClass::Bulk,
    {
        TrafficClass::Bulk
    }
}

/// A schedulable unit of cooperative work.
#[derive(Debug, Clone)]
pub struct Task {
    /// Unique task identifier.
    pub id: TaskId,
    /// What kind of work the task represents.
    pub kind: TaskKind,
    /// Which node the task is assigned to.
    pub assigned_to: NodeId,
    /// Current task status.
    pub status: TaskStatus,
    /// When the task was created.
    pub created_at: SimTime,
    /// How many times the task has been retried.
    pub retry_count: u32,
    /// Maximum number of retries allowed.
    pub max_retries: u32,
    /// The QoS classification of the task.
    pub traffic_class: TrafficClass,
}

impl Task {
    /// Create a new queued task.
    pub fn new(id: TaskId, kind: TaskKind, assigned_to: NodeId, created_at: SimTime, max_retries: u32) -> (r: Self)
        ensures
            r.id == id,
            r.kind == kind,
            r.assigned_to == assigned_to,
            r.status == TaskStatus::Queued,
            r.created_at == created_at,
            r.retry_count == 0,
            r.max_retries == max_retries,
            r.traffic_class == TrafficClass::Bulk,
    {
        Task {
            id,
            kind,
            assigned_to,
            status: TaskStatus::Queued,
            created_at,
            retry_count: 0,
            max_retries,
            traffic_class: TrafficClass::Bulk,
        }
    }

    /// Start executing the task.
    pub fn start(&mut self, at: SimTime)
        ensures
            *final(self) == (Task { status: TaskStatus::InProgress { started_at: at }, ..*old(self) }),
    {
        self.status = TaskStatus::InProgress { started_at: at };
    }

    /// Mark the task as completed.
    pub fn complete(&mut self, at: SimTime)
        ensures
            *final(self) == (Task { status: TaskStatus::Completed { completed_at: at }, ..*old(self) }),
    {
        self.status = TaskStatus::Completed { completed_at: at };
    }

    /// Mark the task as failed.
    pub fn fail(&mut self, at: SimTime, reason: String)
        ensures
            *final(self) == (Task { status: TaskStatus::Failed { failed_at: at, reason }, ..*old(self) }),
    {
        self.status = TaskStatus::Failed { failed_at: at, reason };
    }

    /// Cancel the task.
    pub fn cancel(&mut self)
        ensures
            *final(self) == (Task { status: TaskStatus::Cancelled, ..*old(self) }),
    {
        self.status = TaskStatus::Cancelled;
    }

    /// Whether the task may be retried once more.
    pub fn can_retry(&self) -> (r: bool)
        ensures
            r == (self.retry_count < self.max_retries),
    {
        self.retry_count < self.max_retries
    }

    /// Count one more retry and put the task back in the queue.
    pub fn retry(&mut self)
        requires
            old(self).retry_count < u32::MAX,
        ensures
            *final(self) == (Task {
                retry_count: (old(self).retry_count + 1) as u32,
                status: TaskStatus::Queued,
                ..*old(self)
            }),
    {
        self.retry_count = self.retry_count + 1;
        self.status = TaskStatus::Queued;
    }
}

} // verus!
