use murmur::node::{Node, NodeConfig, NodeStatus};
use murmur::types::{ChunkId, NodeId, SimTime};

fn test_node(id: u64) -> Node {
    Node::new(NodeId(id), NodeConfig::default(), SimTime(0))
}

#[test]
fn new_node_starts_as_joining() {
    let node = test_node(1);
    assert_eq!(node.status, NodeStatus::Joining);
    assert!(!node.status.is_available());
}

#[test]
fn node_lifecycle() {
    let mut node = test_node(1);
    node.activate();
    assert!(node.status.is_available());

    node.promote_to_coordinator();
    assert_eq!(node.status, NodeStatus::Coordinator);
    assert!(node.status.is_available());

    node.demote_to_active();
    assert_eq!(node.status, NodeStatus::Active);

    node.crash();
    assert!(node.status.is_dead());
}

#[test]
fn chunk_ownership() {
    let mut node = test_node(1);
    let chunk = ChunkId(0);
    assert!(!node.has_chunk(&chunk));
    node.add_chunk(chunk);
    assert!(node.has_chunk(&chunk));
}

#[test]
fn transfer_time_calculation() {
    let node = test_node(1);
    let time = node.wan_transfer_time_ms(1_048_576);
    assert_eq!(time, 259);
}

#[test]
fn lan_transfer_time_and_missing_bandwidth() {
    let node = test_node(2);
    assert_eq!(node.lan_transfer_time_ms(1_048_576), 22);
    let mut cfg = NodeConfig::default();
    cfg.wan_bandwidth = 0;
    let cut_off = Node::new(NodeId(3), cfg, SimTime(0));
    assert_eq!(cut_off.wan_transfer_time_ms(10), u64::MAX);
}

#[test]
fn adding_a_chunk_twice_keeps_one_copy() {
    let mut node = test_node(1);
    node.add_chunk(ChunkId(4));
    node.add_chunk(ChunkId(4));
    assert_eq!(node.owned_chunks, vec![ChunkId(4)]);
}

#[test]
fn disconnected_node_is_dead_and_unavailable() {
    let mut node = test_node(1);
    node.activate();
    node.disconnect();
    assert!(node.status.is_dead());
    assert!(!node.status.is_available());
}
