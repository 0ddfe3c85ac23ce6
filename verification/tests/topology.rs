use murmur::topology::Topology;
use murmur::types::NodeId;

#[test]
fn empty_topology() {
    let topo = Topology::new();
    assert_eq!(topo.node_count(), 0);
    assert!(topo.is_fully_connected());
}

#[test]
fn add_and_query_edges() {
    let mut topo = Topology::new();
    topo.add_edge(NodeId(1), NodeId(2));

    assert!(topo.can_reach(NodeId(1), NodeId(2)));
    assert!(!topo.can_reach(NodeId(2), NodeId(1)));
    assert_eq!(topo.node_count(), 2);
}

#[test]
fn bidirectional_edges() {
    let mut topo = Topology::new();
    topo.add_bidirectional(NodeId(1), NodeId(2));

    assert!(topo.can_reach(NodeId(1), NodeId(2)));
    assert!(topo.can_reach(NodeId(2), NodeId(1)));
}

#[test]
fn remove_edge() {
    let mut topo = Topology::new();
    topo.add_bidirectional(NodeId(1), NodeId(2));

    topo.remove_edge(NodeId(1), NodeId(2));
    assert!(!topo.can_reach(NodeId(1), NodeId(2)));
    assert!(topo.can_reach(NodeId(2), NodeId(1)));

    topo.remove_bidirectional(NodeId(1), NodeId(2));
    assert!(!topo.can_reach(NodeId(2), NodeId(1)));
}

#[test]
fn remove_node_clears_all_edges() {
    let mut topo = Topology::new();
    topo.add_bidirectional(NodeId(1), NodeId(2));
    topo.add_bidirectional(NodeId(1), NodeId(3));
    topo.add_bidirectional(NodeId(2), NodeId(3));

    topo.remove_node(NodeId(1));

    assert!(!topo.can_reach(NodeId(1), NodeId(2)));
    assert!(!topo.can_reach(NodeId(2), NodeId(1)));
    assert!(!topo.can_reach(NodeId(1), NodeId(3)));
    assert!(!topo.can_reach(NodeId(3), NodeId(1)));
    assert!(topo.can_reach(NodeId(2), NodeId(3)));
    assert!(topo.can_reach(NodeId(3), NodeId(2)));
}

#[test]
fn neighbors_sorted() {
    let mut topo = Topology::new();
    topo.add_edge(NodeId(1), NodeId(5));
    topo.add_edge(NodeId(1), NodeId(3));
    topo.add_edge(NodeId(1), NodeId(2));

    assert_eq!(topo.neighbors(NodeId(1)), vec![NodeId(2), NodeId(3), NodeId(5)]);
    assert!(topo.neighbors(NodeId(99)).is_empty());
}

#[test]
fn fully_connected_bidirectional() {
    let mut topo = Topology::new();
    topo.add_bidirectional(NodeId(1), NodeId(2));
    topo.add_bidirectional(NodeId(2), NodeId(3));
    topo.add_bidirectional(NodeId(1), NodeId(3));

    assert!(topo.is_fully_connected());
}

#[test]
fn not_fully_connected_directed() {
    let mut topo = Topology::new();
    topo.add_edge(NodeId(1), NodeId(2));
    topo.add_edge(NodeId(2), NodeId(3));

    assert!(!topo.is_fully_connected());
}

#[test]
fn single_node_is_connected() {
    let mut topo = Topology::new();
    topo.add_edge(NodeId(1), NodeId(1));
    assert!(topo.is_fully_connected());
}

#[test]
fn fully_connected_directed_cycle() {
    let mut topo = Topology::new();
    topo.add_edge(NodeId(1), NodeId(2));
    topo.add_edge(NodeId(2), NodeId(3));
    topo.add_edge(NodeId(3), NodeId(1));

    assert!(topo.is_fully_connected());
}

#[test]
fn path_reach_is_not_edge_reach() {
    let mut topo = Topology::default();
    topo.add_edge(NodeId(1), NodeId(2));
    topo.add_edge(NodeId(2), NodeId(3));
    assert!(!topo.can_reach(NodeId(1), NodeId(3)));
    topo.add_edge(NodeId(3), NodeId(2));
    assert!(!topo.is_fully_connected());
    topo.add_edge(NodeId(2), NodeId(1));
    assert!(topo.is_fully_connected());
}

#[test]
fn removed_node_leaves_the_count() {
    let mut topo = Topology::new();
    topo.add_bidirectional(NodeId(1), NodeId(2));
    topo.add_edge(NodeId(3), NodeId(1));
    assert_eq!(topo.node_count(), 3);
    topo.remove_node(NodeId(1));
    assert!(topo.neighbors(NodeId(3)).is_empty());
    assert!(topo.neighbors(NodeId(2)).is_empty());
    assert_eq!(topo.node_count(), 0);
}

#[test]
fn nodes_without_edges_leave_the_graph() {
    let mut topo = Topology::new();
    topo.add_edge(NodeId(1), NodeId(2));
    topo.remove_edge(NodeId(1), NodeId(2));
    assert_eq!(topo.node_count(), 0);
    assert!(topo.is_fully_connected());

    topo.add_bidirectional(NodeId(1), NodeId(2));
    topo.remove_bidirectional(NodeId(1), NodeId(2));
    assert_eq!(topo.node_count(), 0);
    assert!(topo.is_fully_connected());

    topo.add_bidirectional(NodeId(1), NodeId(2));
    topo.add_edge(NodeId(3), NodeId(1));
    topo.remove_node(NodeId(1));
    assert_eq!(topo.node_count(), 0);

    topo.add_bidirectional(NodeId(1), NodeId(2));
    topo.add_edge(NodeId(3), NodeId(2));
    topo.remove_edge(NodeId(1), NodeId(2));
    assert_eq!(topo.node_count(), 3);
    topo.remove_edge(NodeId(2), NodeId(1));
    assert_eq!(topo.node_count(), 2);
}
