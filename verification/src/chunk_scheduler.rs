//! Turning chunk assignments into tasks.
//!
//! A [`ChunkScheduler`] runs a scheduling strategy and wraps each assignment
//! in a download task, numbering tasks in the order they are created.
use vstd::prelude::*;

use crate::strategy::{total_bandwidth, ChunkAssignment, SchedulingStrategy};
use crate::task::{Task, TaskKind, TaskStatus, TrafficClass};
use crate::types::{ChunkId, NodeId, SimTime, TaskId};

verus! {

/// A freshly created, queued task.
pub open spec fn queued_task(id: u64, kind: TaskKind, node: NodeId, at: SimTime, max_retries: u32) -> Task {
    Task {
        id: TaskId(id),
        kind,
        assigned_to: node,
        status: TaskStatus::Queued,
        created_at: at,
        retry_count: 0,
        max_retries,
        traffic_class: TrafficClass::Bulk,
    }
}

/// Issues tasks with consecutive ids for chunk downloads, transfers and checks.
#[derive(Debug)]
pub struct ChunkScheduler {
    next_task_id: u64,
    max_retries: u32,
}

impl ChunkScheduler {
    /// The id the next task will get; also the number of tasks created so far.
    pub closed spec fn next_id(&self) -> u64 {
        self.next_task_id
    }

    /// Retries allowed for download and transfer tasks.
    pub closed spec fn retries(&self) -> u32 {
        self.max_retries
    }

    /// Create a scheduler whose tasks allow `max_retries` retries.
    pub fn new(max_retries: u32) -> (r: Self)
        ensures
            r.next_id() == 0,
            r.retries() == max_retries,
    {
        ChunkScheduler { next_task_id: 0, max_retries }
    }

    /// One queued download task per assignment, with consecutive ids.
    pub fn download_tasks(&mut self, assignments: &[ChunkAssignment], at: SimTime) -> (r: Vec<Task>)
        requires
            old(self).next_id() + assignments@.len() <= u64::MAX,
        ensures
            final(self).retries() == old(self).retries(),
            final(self).next_id() == old(self).next_id() + assignments@.len(),
            r@.len() == assignments@.len(),
            forall|k: int| 0 <= k < r@.len() ==> #[trigger] r@[k] == queued_task(
                (old(self).next_id() + k) as u64,
                TaskKind::DownloadChunk { chunk_id: assignments@[k].chunk_id },
                assignments@[k].node_id,
                at,
                old(self).retries(),
            ),
    {
        let mut r: Vec<Task> = Vec::new();
        let mut k: usize = 0;
        while k < assignments.len()
            invariant
                k <= assignments@.len(),
                self.max_retries == old(self).max_retries,
                self.next_task_id == old(self).next_task_id + k,
                old(self).next_task_id + assignments@.len() <= u64::MAX,
                r@.len() == k,
                forall|j: int| 0 <= j < k ==> #[trigger] r@[j] == queued_task(
                    (old(self).next_task_id + j) as u64,
                    TaskKind::DownloadChunk { chunk_id: assignments@[j].chunk_id },
                    assignments@[j].node_id,
                    at,
                    old(self).max_retries,
                ),
            decreases assignments.len() - k,
        {
            let a = assignments[k];
            let task = Task::new(
                TaskId(self.next_task_id),
                TaskKind::DownloadChunk { chunk_id: a.chunk_id },
                a.node_id,
                at,
                self.max_retries,
            );
            self.next_task_id = self.next_task_id + 1;
            r.push(task);
            k = k + 1;
        }
        r
    }

    /// Run `strategy` over `chunks` and `nodes` and turn every assignment it
    /// makes into a queued download task, ids continuing from the last task.
    /// The strategy admits one assignment only, and the tasks follow it.
    pub fn schedule_downloads<S: SchedulingStrategy>(
        &mut self,
        strategy: &S,
        chunks: &[ChunkId],
        nodes: &[(NodeId, u64)],
        at: SimTime,
    ) -> (r: Vec<Task>)
        requires
            strategy.accepts(nodes@),
            old(self).next_id() + chunks@.len() <= u64::MAX,
        ensures
            final(self).retries() == old(self).retries(),
            final(self).next_id() == old(self).next_id() + r@.len(),
            r@.len() <= chunks@.len(),
            exists|a: Seq<ChunkAssignment>|
                #[trigger] strategy.assigns(chunks@, nodes@, a) && a.len() == r@.len() && forall|k: int|
                    0 <= k < r@.len() ==> #[trigger] r@[k] == queued_task(
                        (old(self).next_id() + k) as u64,
                        TaskKind::DownloadChunk { chunk_id: a[k].chunk_id },
                        a[k].node_id,
                        at,
                        old(self).retries(),
                    ),
            forall|a: Seq<ChunkAssignment>| #[trigger] strategy.assigns(chunks@, nodes@, a) ==> a.len() == r@.len() && forall|k: int|
                0 <= k < r@.len() ==> #[trigger] r@[k] == queued_task(
                    (old(self).next_id() + k) as u64,
                    TaskKind::DownloadChunk { chunk_id: a[k].chunk_id },
                    a[k].node_id,
                    at,
                    old(self).retries(),
                ),
    {
        let assignments = strategy.assign(chunks, nodes);
        let r = self.download_tasks(&assignments, at);
        assert(strategy.assigns(chunks@, nodes@, assignments@));
        proof {
            assert forall|a: Seq<ChunkAssignment>| #[trigger] strategy.assigns(chunks@, nodes@, a) implies a.len() == r@.len() && forall|k: int|
                0 <= k < r@.len() ==> #[trigger] r@[k] == queued_task(
                    (old(self).next_id() + k) as u64,
                    TaskKind::DownloadChunk { chunk_id: a[k].chunk_id },
                    a[k].node_id,
                    at,
                    old(self).retries(),
                ) by {
                strategy.lemma_assigns_unique(chunks@, nodes@, a, assignments@);
            }
        }
        r
    }

    /// A pair of tasks moving `chunk_id` over the LAN: `source` sends it, `target` receives it.
    pub fn create_redistribution_task(&mut self, chunk_id: ChunkId, source: NodeId, target: NodeId, at: SimTime) -> (r: (
        Task,
        Task,
    ))
        requires
            old(self).next_id() + 2 <= u64::MAX,
        ensures
            final(self).retries() == old(self).retries(),
            final(self).next_id() == old(self).next_id() + 2,
            r.0 == queued_task(
                old(self).next_id(),
                TaskKind::SendChunkToPeer { chunk_id, target },
                source,
                at,
                old(self).retries(),
            ),
            r.1 == queued_task(
                (old(self).next_id() + 1) as u64,
                TaskKind::ReceiveChunkFromPeer { chunk_id, source },
                target,
                at,
                old(self).retries(),
            ),
    {
        let send_task = Task::new(
            TaskId(self.next_task_id),
            TaskKind::SendChunkToPeer { chunk_id, target },
            source,
            at,
            self.max_retries,
        );
        self.next_task_id = self.next_task_id + 1;
        let recv_task = Task::new(
            TaskId(self.next_task_id),
            TaskKind::ReceiveChunkFromPeer { chunk_id, source },
            target,
            at,
            self.max_retries,
        );
        self.next_task_id = self.next_task_id + 1;
        (send_task, recv_task)
    }

    /// A task for `node_id` to verify `chunk_id`; verification is never retried.
    pub fn create_verify_task(&mut self, chunk_id: ChunkId, node_id: NodeId, at: SimTime) -> (r: Task)
        requires
            old(self).next_id() < u64::MAX,
        ensures
            final(self).retries() == old(self).retries(),
            final(self).next_id() == old(self).next_id() + 1,
            r == queued_task(old(self).next_id(), TaskKind::VerifyChunk { chunk_id }, node_id, at, 0),
    {
        let task = Task::new(TaskId(self.next_task_id), TaskKind::VerifyChunk { chunk_id }, node_id, at, 0);
        self.next_task_id = self.next_task_id + 1;
        task
    }

    /// Total tasks created so far.
    pub fn total_tasks_created(&self) -> (n: u64)
        ensures
            n == self.next_id(),
    {
        self.next_task_id
    }
}

} // verus!
