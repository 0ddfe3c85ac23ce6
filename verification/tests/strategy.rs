use murmur::strategy::{BandwidthWeightedStrategy, RoundRobinStrategy, SchedulingStrategy};
use murmur::types::{ChunkId, NodeId};

fn node(id: u64, wan_bw: u64) -> (NodeId, u64) {
    (NodeId(id), wan_bw)
}

fn chunks(n: u32) -> Vec<ChunkId> {
    (0..n).map(ChunkId).collect()
}

#[test]
fn round_robin_distributes_evenly() {
    let strategy = RoundRobinStrategy;
    let nodes = vec![node(1, 5_000_000), node(2, 5_000_000), node(3, 5_000_000)];
    let chunk_ids = chunks(6);

    let assignments = strategy.assign(&chunk_ids, &nodes);
    assert_eq!(assignments.len(), 6);

    assert_eq!(assignments[0].node_id, NodeId(1));
    assert_eq!(assignments[1].node_id, NodeId(2));
    assert_eq!(assignments[2].node_id, NodeId(3));
    assert_eq!(assignments[3].node_id, NodeId(1));
    assert_eq!(assignments[4].node_id, NodeId(2));
    assert_eq!(assignments[5].node_id, NodeId(3));
}

#[test]
fn round_robin_empty_nodes() {
    let strategy = RoundRobinStrategy;
    let assignments = strategy.assign(&chunks(5), &[]);
    assert!(assignments.is_empty());
}

#[test]
fn bandwidth_weighted_assigns_more_to_fast_nodes() {
    let strategy = BandwidthWeightedStrategy;
    let nodes = vec![node(1, 10_000_000), node(2, 5_000_000), node(3, 5_000_000)];
    let chunk_ids = chunks(20);

    let assignments = strategy.assign(&chunk_ids, &nodes);
    assert_eq!(assignments.len(), 20);

    let n1 = assignments.iter().filter(|a| a.node_id == NodeId(1)).count();
    let n2 = assignments.iter().filter(|a| a.node_id == NodeId(2)).count();
    let n3 = assignments.iter().filter(|a| a.node_id == NodeId(3)).count();

    assert_eq!(n1, 10);
    assert_eq!(n2, 5);
    assert_eq!(n3, 5);
}

#[test]
fn bandwidth_weighted_handles_remainder() {
    let strategy = BandwidthWeightedStrategy;
    let nodes = vec![node(1, 10_000_000), node(2, 5_000_000)];
    let chunk_ids = chunks(7);

    let assignments = strategy.assign(&chunk_ids, &nodes);
    assert_eq!(assignments.len(), 7);

    let n1 = assignments.iter().filter(|a| a.node_id == NodeId(1)).count();
    let n2 = assignments.iter().filter(|a| a.node_id == NodeId(2)).count();
    assert_eq!(n1, 5);
    assert_eq!(n2, 2);
}

#[test]
fn bandwidth_weighted_empty() {
    let strategy = BandwidthWeightedStrategy;
    assert!(strategy.assign(&chunks(5), &[]).is_empty());
    assert!(strategy.assign(&[], &[node(1, 5_000_000)]).is_empty());
}

#[test]
fn bandwidth_weighted_hands_out_chunks_in_order_node_by_node() {
    let strategy = BandwidthWeightedStrategy::default();
    let nodes = vec![node(1, 1), node(2, 3)];
    let a = strategy.assign(&chunks(4), &nodes);
    let pairs: Vec<(u32, u64)> = a.iter().map(|x| (x.chunk_id.0, x.node_id.0)).collect();
    assert_eq!(pairs, vec![(0, 1), (1, 2), (2, 2), (3, 2)]);
}

#[test]
fn bandwidth_weighted_without_bandwidth_is_round_robin() {
    let strategy = BandwidthWeightedStrategy::new();
    let nodes = vec![node(4, 0), node(8, 0)];
    let a = strategy.assign(&chunks(3), &nodes);
    let ids: Vec<u64> = a.iter().map(|x| x.node_id.0).collect();
    assert_eq!(ids, vec![4, 8, 4]);
    assert_eq!(RoundRobinStrategy::default().assign(&chunks(1), &nodes)[0].node_id, NodeId(4));
}
