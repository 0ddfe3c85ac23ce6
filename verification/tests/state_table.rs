use murmur::chunk::{ChunkOwnership, ChunkStatus, OstFragment};
use murmur::cluster::ClusterConfig;
use murmur::error::MurmurError;
use murmur::node::{Node, NodeConfig, NodeStatus};
use murmur::state_table::OverlayStateTable;
use murmur::types::{ChunkId, NodeId, SimTime};

fn make_node(id: u64) -> Node {
    Node::new(NodeId(id), NodeConfig::default(), SimTime(0))
}

fn default_table() -> OverlayStateTable {
    OverlayStateTable::new(ClusterConfig::default())
}

fn ownership(status: ChunkStatus, assigned_to: Option<NodeId>, verified_by: Option<NodeId>) -> ChunkOwnership {
    ChunkOwnership { chunk_id: ChunkId(1), status, assigned_to, verified_by, epoch: 0 }
}

fn fragment(node: u64, epoch: u64, status: ChunkStatus) -> OstFragment {
    OstFragment {
        node_id: NodeId(node),
        epoch,
        owned_chunks: vec![(ChunkId(1), status)],
        last_updated: SimTime(0),
    }
}

#[test]
fn new_table_is_empty() {
    let table = default_table();
    assert_eq!(table.node_count(), 0);
    assert!(table.coordinator().is_none());
    assert_eq!(table.current_term(), 0);
}

#[test]
fn add_and_get_node() {
    let mut table = default_table();
    table.add_node(make_node(1)).unwrap();
    assert_eq!(table.node_count(), 1);
    assert!(table.get_node(NodeId(1)).is_some());
    assert!(table.get_node(NodeId(99)).is_none());
}

#[test]
fn remove_node_returns_it() {
    let mut table = default_table();
    table.add_node(make_node(1)).unwrap();
    let removed = table.remove_node(NodeId(1));
    assert!(removed.is_some());
    assert_eq!(removed.unwrap().id, NodeId(1));
    assert_eq!(table.node_count(), 0);
}

#[test]
fn remove_nonexistent_returns_none() {
    let mut table = default_table();
    assert!(table.remove_node(NodeId(42)).is_none());
}

#[test]
fn cluster_full_error() {
    let config = ClusterConfig { max_nodes: 2, ..ClusterConfig::default() };
    let mut table = OverlayStateTable::new(config);
    table.add_node(make_node(1)).unwrap();
    table.add_node(make_node(2)).unwrap();
    let result = table.add_node(make_node(3));
    assert!(result.is_err());
    assert_eq!(result.unwrap_err(), MurmurError::ClusterFull(2));
}

#[test]
fn active_nodes_filters_correctly() {
    let mut table = default_table();

    let mut n1 = make_node(1);
    n1.activate();
    table.add_node(n1).unwrap();

    table.add_node(make_node(2)).unwrap();

    let mut n3 = make_node(3);
    n3.promote_to_coordinator();
    table.add_node(n3).unwrap();

    let active = table.active_nodes();
    assert_eq!(active, vec![NodeId(1), NodeId(3)]);
}

#[test]
fn all_node_ids_returns_sorted() {
    let mut table = default_table();
    table.add_node(make_node(5)).unwrap();
    table.add_node(make_node(1)).unwrap();
    table.add_node(make_node(3)).unwrap();
    assert_eq!(table.all_node_ids(), vec![NodeId(1), NodeId(3), NodeId(5)]);
}

#[test]
fn coordinator_lifecycle() {
    let mut table = default_table();
    table.add_node(make_node(1)).unwrap();
    table.add_node(make_node(2)).unwrap();

    assert!(table.coordinator().is_none());
    assert_eq!(table.current_term(), 0);

    table.set_coordinator(NodeId(1), 1);
    assert_eq!(table.coordinator(), Some(NodeId(1)));
    assert_eq!(table.current_term(), 1);

    table.set_coordinator(NodeId(2), 2);
    assert_eq!(table.coordinator(), Some(NodeId(2)));
    assert_eq!(table.current_term(), 2);

    table.clear_coordinator();
    assert!(table.coordinator().is_none());
    assert_eq!(table.current_term(), 2);
}

#[test]
fn remove_coordinator_clears_it() {
    let mut table = default_table();
    table.add_node(make_node(1)).unwrap();
    table.set_coordinator(NodeId(1), 1);
    assert_eq!(table.coordinator(), Some(NodeId(1)));

    table.remove_node(NodeId(1));
    assert!(table.coordinator().is_none());
}

#[test]
fn get_node_mut_allows_mutation() {
    let mut table = default_table();
    table.add_node(make_node(1)).unwrap();

    let node = table.get_node_mut(NodeId(1)).unwrap();
    node.activate();

    assert_eq!(table.get_node(NodeId(1)).unwrap().status, NodeStatus::Active);
}

#[test]
fn config_accessor() {
    let config = ClusterConfig { max_nodes: 7, ..ClusterConfig::default() };
    let table = OverlayStateTable::new(config);
    assert_eq!(table.config().max_nodes, 7);
}

#[test]
fn merge_fragment_takes_max_status() {
    let mut table = default_table();
    table.chunk_ownership.insert(1, ownership(ChunkStatus::Assigned, Some(NodeId(5)), None));

    table.merge_fragment(fragment(5, 0, ChunkStatus::InProgress));

    let owner = table.chunk_ownership.get(1).unwrap();
    assert_eq!(owner.status, ChunkStatus::InProgress);
    assert_eq!(owner.assigned_to, Some(NodeId(5)));
}

#[test]
fn merge_does_not_regress_verified_chunks() {
    let mut table = default_table();
    table.chunk_ownership.insert(1, ownership(ChunkStatus::Verified, None, Some(NodeId(2))));

    table.merge_fragment(fragment(5, 0, ChunkStatus::Assigned));

    let owner = table.chunk_ownership.get(1).unwrap();
    assert_eq!(owner.status, ChunkStatus::Verified);
    assert_eq!(owner.verified_by, Some(NodeId(2)));
}

#[test]
fn merge_from_multiple_fragments_is_idempotent() {
    let mut table = default_table();

    let frag1 = fragment(5, 0, ChunkStatus::InProgress);
    let frag2 = fragment(6, 0, ChunkStatus::Assigned);

    table.merge_fragment(frag1.clone());
    table.merge_fragment(frag2);
    table.merge_fragment(frag1);

    let owner = table.chunk_ownership.get(1).unwrap();
    assert_eq!(owner.status, ChunkStatus::InProgress);
    assert_eq!(owner.assigned_to, Some(NodeId(5)));
}

#[test]
fn old_epoch_fragment_is_rejected() {
    let mut table = default_table();
    table.set_coordinator(NodeId(9), 2);

    table.merge_fragment(fragment(5, 1, ChunkStatus::Verified));

    assert!(!table.chunk_ownership.contains_key(1));
}

#[test]
fn duplicate_node_replaces_entry() {
    let mut table = default_table();
    table.add_node(make_node(1)).unwrap();
    let mut again = make_node(1);
    again.activate();
    table.add_node(again).unwrap();
    assert_eq!(table.node_count(), 1);
    assert_eq!(table.get_node(NodeId(1)).unwrap().status, NodeStatus::Active);
}

#[test]
fn fragment_lists_owned_chunks() {
    let mut table = default_table();
    table.chunk_ownership.insert(1, ownership(ChunkStatus::InProgress, Some(NodeId(5)), None));
    let mut other = ownership(ChunkStatus::Verified, None, Some(NodeId(5)));
    other.chunk_id = ChunkId(2);
    table.chunk_ownership.insert(2, other);
    let mut foreign = ownership(ChunkStatus::Assigned, Some(NodeId(6)), None);
    foreign.chunk_id = ChunkId(3);
    table.chunk_ownership.insert(3, foreign);
    let frag = table.to_fragment(NodeId(5), SimTime(77));
    assert_eq!(frag.node_id, NodeId(5));
    assert_eq!(frag.last_updated, SimTime(77));
    assert_eq!(
        frag.owned_chunks,
        vec![(ChunkId(1), ChunkStatus::InProgress), (ChunkId(2), ChunkStatus::Verified)]
    );
}
