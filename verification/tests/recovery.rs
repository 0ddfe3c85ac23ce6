use murmur::recovery::{RecoveryPlan, StateRecovery};
use murmur::types::{ChunkId, NodeId, SimTime, TaskId};

#[test]
fn empty_plan_has_no_work() {
    let plan = RecoveryPlan::new(SimTime(0));
    assert!(!plan.has_work());
}

#[test]
fn plan_with_orphans_has_work() {
    let mut plan = RecoveryPlan::new(SimTime(5000));
    plan.add_orphaned_task(TaskId(1));
    plan.add_orphaned_chunk(ChunkId(0));
    assert!(plan.has_work());
}

#[test]
fn build_plan_partitions_nodes() {
    let all = vec![NodeId(1), NodeId(2), NodeId(3), NodeId(4), NodeId(5)];
    let dead = vec![NodeId(3)];

    let plan = StateRecovery::build_plan(NodeId(5), &all, &dead, SimTime(10000));

    assert_eq!(plan.dead_nodes.len(), 2);
    assert!(plan.dead_nodes.contains(&NodeId(5)));
    assert!(plan.dead_nodes.contains(&NodeId(3)));

    assert_eq!(plan.surviving_nodes.len(), 3);
    assert!(plan.surviving_nodes.contains(&NodeId(1)));
    assert!(plan.surviving_nodes.contains(&NodeId(2)));
    assert!(plan.surviving_nodes.contains(&NodeId(4)));
}

#[test]
fn summary_format() {
    let mut plan = RecoveryPlan::new(SimTime(0));
    plan.add_orphaned_task(TaskId(1));
    plan.add_orphaned_task(TaskId(2));
    plan.add_orphaned_chunk(ChunkId(3));
    plan.add_survivor(NodeId(1));
    plan.add_dead_node(NodeId(5));

    let summary = plan.summary();
    assert!(summary.contains("2 orphaned tasks"));
    assert!(summary.contains("1 orphaned chunks"));
    assert!(summary.contains("1 survivors"));
    assert!(summary.contains("1 dead"));
}

#[test]
fn summary_exact_text() {
    let mut plan = RecoveryPlan::new(SimTime(0));
    plan.add_orphaned_task(TaskId(10));
    plan.add_survivor(NodeId(1));
    plan.add_survivor(NodeId(2));
    assert_eq!(
        plan.summary(),
        "RecoveryPlan: 1 orphaned tasks, 0 orphaned chunks, 2 survivors, 0 dead"
    );
}

#[test]
fn build_plan_keeps_member_order() {
    let all = vec![NodeId(7), NodeId(3), NodeId(9), NodeId(1)];
    let plan = StateRecovery::build_plan(NodeId(9), &all, &[NodeId(1)], SimTime(3));
    assert_eq!(plan.surviving_nodes, vec![NodeId(7), NodeId(3)]);
    assert_eq!(plan.dead_nodes, vec![NodeId(9), NodeId(1)]);
    assert_eq!(plan.created_at, SimTime(3));
    assert!(!plan.has_work());
}
