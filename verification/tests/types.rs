use murmur::types::{ChunkId, ClusterId, ManifestId, NodeId, SimTime, TaskId};

#[test]
fn sim_time_arithmetic() {
    let t1 = SimTime(1000);
    let t2 = t1.add_ms(500);
    assert_eq!(t2, SimTime(1500));
    assert_eq!(t2.duration_since(t1), 500);
    assert_eq!(t1.duration_since(t2), 0);
}

#[test]
fn sim_time_display() {
    assert_eq!(SimTime(500).to_string(), "500ms");
    assert_eq!(SimTime(1500).to_string(), "1.500s");
    assert_eq!(SimTime(65000).to_string(), "1m5s");
}

#[test]
fn node_id_ordering() {
    let a = NodeId(1);
    let b = NodeId(5);
    let c = NodeId(3);
    let mut ids = vec![b, c, a];
    ids.sort();
    assert_eq!(ids, vec![NodeId(1), NodeId(3), NodeId(5)]);
}

#[test]
fn sim_time_saturates_and_pads_millis() {
    assert_eq!(SimTime(u64::MAX - 1).add_ms(10), SimTime(u64::MAX));
    assert_eq!(SimTime(2005).to_string(), "2.005s");
    assert_eq!(SimTime(0).to_string(), "0ms");
    assert_eq!(SimTime(60000).to_string(), "1m0s");
    assert_eq!(SimTime::default(), SimTime(0));
}

#[test]
fn id_labels() {
    assert_eq!(NodeId(5).to_string(), "Node(5)");
    assert_eq!(ChunkId(0).to_string(), "Chunk(0)");
    assert_eq!(TaskId(42).to_string(), "Task(42)");
}

#[test]
fn uuid_ids_are_fresh_and_print_their_prefix() {
    let a = ManifestId::new();
    let b = ManifestId::new();
    assert_ne!(a, b);
    let id = ManifestId(0x0123_4567_89ab_cdef_0000_0000_0000_0000);
    assert_eq!(id.to_string(), "Manifest(01234567)");
    let c = ClusterId(0xdead_beef_0000_0000_0000_0000_0000_0001);
    assert_eq!(c.to_string(), "Cluster(deadbeef)");
    assert_ne!(ClusterId::new(), ClusterId::new());
    let text = uuid::Uuid::from_u128(a.0).to_string();
    assert_eq!(a.to_string(), format!("Manifest({})", &text[..8]));
}

#[test]
fn fresh_ids_are_version_four_uuids() {
    for _ in 0..16 {
        let m = ManifestId::new().0;
        assert_eq!((m >> 76) & 0xf, 4);
        assert_eq!((m >> 62) & 3, 2);
        let c = ClusterId::new().0;
        assert_eq!((c >> 76) & 0xf, 4);
        assert_eq!((c >> 62) & 3, 2);
    }
}
