use murmur::task::{Task, TaskKind};
use murmur::task_queue::{TaskPriority, TaskQueue};
use murmur::types::{ChunkId, NodeId, SimTime, TaskId};

fn make_task(id: u64) -> Task {
    Task::new(
        TaskId(id),
        TaskKind::DownloadChunk { chunk_id: ChunkId(id as u32) },
        NodeId(1),
        SimTime(0),
        3,
    )
}

#[test]
fn empty_queue() {
    let queue = TaskQueue::new();
    assert!(queue.is_empty());
    assert_eq!(queue.len(), 0);
}

#[test]
fn priority_ordering() {
    let mut queue = TaskQueue::new();

    queue.push(make_task(1), TaskPriority::Normal);
    queue.push(make_task(2), TaskPriority::Critical);
    queue.push(make_task(3), TaskPriority::High);

    assert_eq!(queue.pop().unwrap().task.id, TaskId(2));
    assert_eq!(queue.pop().unwrap().task.id, TaskId(3));
    assert_eq!(queue.pop().unwrap().task.id, TaskId(1));
}

#[test]
fn fifo_within_same_priority() {
    let mut queue = TaskQueue::new();

    queue.push(make_task(1), TaskPriority::Normal);
    queue.push(make_task(2), TaskPriority::Normal);
    queue.push(make_task(3), TaskPriority::Normal);

    assert_eq!(queue.pop().unwrap().task.id, TaskId(1));
    assert_eq!(queue.pop().unwrap().task.id, TaskId(2));
    assert_eq!(queue.pop().unwrap().task.id, TaskId(3));
}

#[test]
fn peek_does_not_consume() {
    let mut queue = TaskQueue::new();
    queue.push(make_task(1), TaskPriority::Normal);

    assert!(queue.peek().is_some());
    assert_eq!(queue.len(), 1);
}

#[test]
fn mixed_priorities_and_fifo() {
    let mut queue = TaskQueue::new();

    queue.push(make_task(1), TaskPriority::Normal);
    queue.push(make_task(2), TaskPriority::High);
    queue.push(make_task(3), TaskPriority::Normal);
    queue.push(make_task(4), TaskPriority::High);

    assert_eq!(queue.pop().unwrap().task.id, TaskId(2));
    assert_eq!(queue.pop().unwrap().task.id, TaskId(4));
    assert_eq!(queue.pop().unwrap().task.id, TaskId(1));
    assert_eq!(queue.pop().unwrap().task.id, TaskId(3));
}

#[test]
fn peek_shows_next_and_clear_empties() {
    let mut queue = TaskQueue::default();
    queue.push(make_task(1), TaskPriority::Normal);
    queue.push(make_task(2), TaskPriority::High);
    assert_eq!(queue.peek().unwrap().task.id, TaskId(2));
    assert_eq!(queue.peek().unwrap().priority, TaskPriority::High);
    queue.clear();
    assert!(queue.is_empty());
    assert!(queue.pop().is_none());
    assert!(TaskPriority::Critical.level() > TaskPriority::High.level());
    assert!(TaskPriority::High.level() > TaskPriority::Normal.level());
}
