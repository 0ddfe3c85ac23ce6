use murmur::task::{Task, TaskKind, TaskStatus};
use murmur::types::{ChunkId, NodeId, SimTime, TaskId};

#[test]
fn task_lifecycle() {
    let mut task = Task::new(
        TaskId(1),
        TaskKind::DownloadChunk { chunk_id: ChunkId(0) },
        NodeId(1),
        SimTime(0),
        3,
    );

    assert_eq!(task.status, TaskStatus::Queued);
    assert!(!task.status.is_terminal());

    task.start(SimTime(100));
    assert!(matches!(task.status, TaskStatus::InProgress { .. }));

    task.complete(SimTime(200));
    assert!(task.status.is_terminal());
}

#[test]
fn task_retry() {
    let mut task = Task::new(
        TaskId(1),
        TaskKind::DownloadChunk { chunk_id: ChunkId(0) },
        NodeId(1),
        SimTime(0),
        2,
    );

    task.fail(SimTime(100), "timeout".into());
    assert!(task.can_retry());
    task.retry();
    assert_eq!(task.retry_count, 1);
    assert_eq!(task.status, TaskStatus::Queued);

    task.fail(SimTime(200), "timeout".into());
    assert!(task.can_retry());
    task.retry();

    task.fail(SimTime(300), "timeout".into());
    assert!(!task.can_retry());
}

#[test]
fn failure_keeps_its_reason_and_cancel_is_terminal() {
    let mut task = Task::new(
        TaskId(2),
        TaskKind::VerifyChunk { chunk_id: ChunkId(3) },
        NodeId(4),
        SimTime(0),
        1,
    );
    task.fail(SimTime(9), String::from("bad hash"));
    assert_eq!(
        task.status,
        TaskStatus::Failed { failed_at: SimTime(9), reason: String::from("bad hash") }
    );
    task.cancel();
    assert_eq!(task.status, TaskStatus::Cancelled);
    assert!(task.status.is_terminal());
    assert_eq!(task.kind.chunk_id(), ChunkId(3));
}
