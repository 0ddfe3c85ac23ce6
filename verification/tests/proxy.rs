use murmur::cluster::ClusterConfig;
use murmur::node::{Node, NodeConfig};
use murmur::proxy::{pick_weighted, proxy_candidates, select_node, total_weight};
use murmur::state_table::OverlayStateTable;
use murmur::types::{NodeId, SimTime};

fn overlay() -> OverlayStateTable {
    let mut t = OverlayStateTable::new(ClusterConfig::default());
    let mut a = Node::new(NodeId(7), NodeConfig { wan_bandwidth: 300, ..Default::default() }, SimTime(0));
    a.activate();
    t.add_node(a).unwrap();
    let b = Node::new(NodeId(3), NodeConfig { wan_bandwidth: 900, ..Default::default() }, SimTime(0));
    t.add_node(b).unwrap();
    let mut c = Node::new(NodeId(2), NodeConfig { wan_bandwidth: 0, ..Default::default() }, SimTime(0));
    c.promote_to_coordinator();
    t.add_node(c).unwrap();
    t
}

#[test]
fn candidates_are_local_then_active_by_id() {
    let c = proxy_candidates(NodeId(1), 50, &overlay());
    assert_eq!(c, vec![(NodeId(1), 50), (NodeId(2), 0), (NodeId(7), 300)]);
}

#[test]
fn weighted_pick_by_point() {
    let c = vec![(NodeId(1), 50), (NodeId(2), 0), (NodeId(7), 300)];
    assert_eq!(pick_weighted(&c, 0), Some((NodeId(1), 50)));
    assert_eq!(pick_weighted(&c, 49), Some((NodeId(1), 50)));
    assert_eq!(pick_weighted(&c, 50), Some((NodeId(2), 1)));
    assert_eq!(pick_weighted(&c, 51), Some((NodeId(7), 300)));
    assert_eq!(pick_weighted(&c, 350), Some((NodeId(7), 300)));
    assert_eq!(pick_weighted(&c, 351), None);
    assert_eq!(pick_weighted(&[], 0), None);
}

#[test]
fn selected_node_is_a_candidate() {
    let o = overlay();
    for _ in 0..50 {
        let (id, w) = select_node(NodeId(1), 50, &o).unwrap();
        assert!(matches!((id.0, w), (1, 50) | (2, 1) | (7, 300)));
    }
    let empty = OverlayStateTable::new(ClusterConfig::default());
    assert_eq!(select_node(NodeId(4), 0, &empty), Some((NodeId(4), 1)));
}

#[test]
fn total_weight_counts_zero_bandwidth_as_one() {
    assert_eq!(total_weight(&[(NodeId(1), 50), (NodeId(2), 0), (NodeId(7), 300)]), 351);
    assert_eq!(total_weight(&[]), 0);
}
