use murmur::chunk_scheduler::ChunkScheduler;
use murmur::strategy::{BandwidthWeightedStrategy, RoundRobinStrategy};
use murmur::task::{TaskKind, TaskStatus};
use murmur::types::{ChunkId, NodeId, SimTime, TaskId};

fn node(id: u64, wan_bw: u64) -> (NodeId, u64) {
    (NodeId(id), wan_bw)
}

fn chunks(n: u32) -> Vec<ChunkId> {
    (0..n).map(ChunkId).collect()
}

#[test]
fn schedule_downloads_creates_tasks() {
    let mut scheduler = ChunkScheduler::new(3);
    let strategy = RoundRobinStrategy;
    let nodes = vec![node(1, 5_000_000), node(2, 5_000_000)];
    let chunk_ids = chunks(4);

    let tasks = scheduler.schedule_downloads(&strategy, &chunk_ids, &nodes, SimTime(0));

    assert_eq!(tasks.len(), 4);
    assert_eq!(tasks[0].assigned_to, NodeId(1));
    assert_eq!(tasks[1].assigned_to, NodeId(2));
    assert_eq!(tasks[2].assigned_to, NodeId(1));
    assert_eq!(tasks[3].assigned_to, NodeId(2));
    assert_eq!(scheduler.total_tasks_created(), 4);
}

#[test]
fn redistribution_creates_send_recv_pair() {
    let mut scheduler = ChunkScheduler::new(2);

    let (send, recv) = scheduler.create_redistribution_task(ChunkId(5), NodeId(1), NodeId(2), SimTime(1000));

    assert!(matches!(send.kind, TaskKind::SendChunkToPeer { chunk_id: ChunkId(5), target: NodeId(2) }));
    assert_eq!(send.assigned_to, NodeId(1));

    assert!(matches!(recv.kind, TaskKind::ReceiveChunkFromPeer { chunk_id: ChunkId(5), source: NodeId(1) }));
    assert_eq!(recv.assigned_to, NodeId(2));
}

#[test]
fn verify_task() {
    let mut scheduler = ChunkScheduler::new(3);
    let task = scheduler.create_verify_task(ChunkId(0), NodeId(1), SimTime(500));

    assert!(matches!(task.kind, TaskKind::VerifyChunk { chunk_id: ChunkId(0) }));
    assert_eq!(task.max_retries, 0);
}

#[test]
fn task_ids_are_sequential() {
    let mut scheduler = ChunkScheduler::new(3);
    let strategy = RoundRobinStrategy;
    let nodes = vec![node(1, 5_000_000)];

    let tasks = scheduler.schedule_downloads(&strategy, &chunks(3), &nodes, SimTime(0));
    assert_eq!(tasks[0].id, TaskId(0));
    assert_eq!(tasks[1].id, TaskId(1));
    assert_eq!(tasks[2].id, TaskId(2));

    let verify = scheduler.create_verify_task(ChunkId(0), NodeId(1), SimTime(100));
    assert_eq!(verify.id, TaskId(3));
}

#[test]
fn scheduled_tasks_are_queued_downloads() {
    let mut scheduler = ChunkScheduler::new(5);
    let tasks = scheduler.schedule_downloads(
        &BandwidthWeightedStrategy,
        &chunks(2),
        &[node(3, 10), node(4, 0)],
        SimTime(42),
    );
    assert_eq!(tasks.len(), 2);
    for (k, t) in tasks.iter().enumerate() {
        assert_eq!(t.status, TaskStatus::Queued);
        assert_eq!(t.created_at, SimTime(42));
        assert_eq!(t.max_retries, 5);
        assert_eq!(t.assigned_to, NodeId(3));
        assert_eq!(t.kind, TaskKind::DownloadChunk { chunk_id: ChunkId(k as u32) });
    }
    let (send, recv) = scheduler.create_redistribution_task(ChunkId(1), NodeId(3), NodeId(4), SimTime(50));
    assert_eq!((send.id, recv.id), (TaskId(2), TaskId(3)));
    assert_eq!(send.max_retries, 5);
    assert_eq!(scheduler.total_tasks_created(), 4);
}
