use murmur::chunk::ChunkMeta;
use murmur::manifest::{Manifest, ManifestSource};
use murmur::transfer::{TransferProgress, TransferTracker};
use murmur::types::{ChunkId, ManifestId, NodeId, SimTime};

fn manifest_with(id: ManifestId, ids: &[u32], size: u32) -> Manifest {
    let chunks: Vec<ChunkMeta> = ids
        .iter()
        .enumerate()
        .map(|(k, &i)| ChunkMeta { id: ChunkId(i), offset: k as u64 * size as u64, size, hash: [0; 32] })
        .collect();
    Manifest {
        id,
        name: "test.txt".into(),
        total_size: ids.len() as u64 * size as u64,
        chunks,
        file_hash: [0; 32],
        chunk_size: size,
        source: ManifestSource::LocalFile { path: String::from("test.txt") },
        created_at: SimTime(0),
    }
}

fn dummy_manifest() -> Manifest {
    manifest_with(ManifestId::new(), &[1, 2, 3], 100)
}

fn percentage(p: &TransferProgress) -> f64 {
    let total = p.manifest.chunk_count();
    if total == 0 {
        return 100.0;
    }
    (p.chunks_received.len() as f64 / total as f64) * 100.0
}

#[test]
fn test_tracker_updates_on_chunk_receive() {
    let mut tracker = TransferTracker::new();
    let manifest = dummy_manifest();
    tracker.start_transfer(manifest.clone(), 0);

    tracker.mark_chunk_received(manifest.id, ChunkId(1));

    let progress = tracker.get_progress(manifest.id).unwrap();
    assert!(progress.chunks_received.contains_key(1));
    assert!(!progress.chunks_pending.contains_key(1));
}

#[test]
fn test_tracker_detects_completion() {
    let mut tracker = TransferTracker::new();
    let manifest = dummy_manifest();
    tracker.start_transfer(manifest.clone(), 0);

    tracker.mark_chunk_received(manifest.id, ChunkId(1));
    tracker.mark_chunk_received(manifest.id, ChunkId(2));
    assert!(!tracker.get_progress(manifest.id).unwrap().is_complete());

    tracker.mark_chunk_received(manifest.id, ChunkId(3));
    assert!(tracker.get_progress(manifest.id).unwrap().is_complete());
}

#[test]
fn test_tracker_reports_percentage() {
    let mut tracker = TransferTracker::new();
    let manifest = dummy_manifest();
    tracker.start_transfer(manifest.clone(), 0);

    assert_eq!(percentage(tracker.get_progress(manifest.id).unwrap()), 0.0);
    tracker.mark_chunk_received(manifest.id, ChunkId(1));
    assert!((percentage(tracker.get_progress(manifest.id).unwrap()) - 33.33).abs() < 0.1);
}

#[test]
fn test_in_flight_tracking() {
    let mut tracker = TransferTracker::new();
    let manifest = dummy_manifest();
    tracker.start_transfer(manifest.clone(), 0);

    tracker.mark_chunk_in_flight(manifest.id, ChunkId(1), NodeId(42), 10);

    let progress = tracker.get_progress(manifest.id).unwrap();
    assert!(!progress.chunks_pending.contains_key(1));
    assert_eq!(progress.chunks_in_flight.get(1).map(|(n, _)| *n), Some(NodeId(42)));

    tracker.mark_chunk_received(manifest.id, ChunkId(1));

    let progress = tracker.get_progress(manifest.id).unwrap();
    assert!(!progress.chunks_in_flight.contains_key(1));
    assert!(progress.chunks_received.contains_key(1));
}

#[test]
fn test_rarest_first_scheduling() {
    let manifest_id = ManifestId::new();
    let mut tracker = TransferTracker::new();

    let manifest = manifest_with(manifest_id, &[0, 1, 2, 3], 1000);
    tracker.start_transfer(manifest, 0);

    tracker.register_peer_chunk(manifest_id, ChunkId(0), NodeId(1));
    tracker.register_peer_chunk(manifest_id, ChunkId(1), NodeId(1));
    tracker.register_peer_chunk(manifest_id, ChunkId(2), NodeId(1));
    tracker.register_peer_chunk(manifest_id, ChunkId(3), NodeId(1));

    tracker.register_peer_chunk(manifest_id, ChunkId(0), NodeId(2));
    tracker.register_peer_chunk(manifest_id, ChunkId(1), NodeId(2));

    tracker.register_peer_chunk(manifest_id, ChunkId(0), NodeId(3));

    let pending = tracker.get_rarest_pending_chunks(manifest_id);

    assert_eq!(pending, vec![ChunkId(2), ChunkId(3), ChunkId(1), ChunkId(0)]);
}

#[test]
fn unknown_transfer_reports_nothing() {
    let tracker = TransferTracker::default();
    let id = ManifestId::new();
    assert!(tracker.get_progress(id).is_none());
    assert!(tracker.get_rarest_pending_chunks(id).is_empty());
    assert!(tracker.get_chunk_holders(id, ChunkId(0)).is_none());
    assert!(tracker.get_all_pending_chunks().is_empty());
}

#[test]
fn holders_sorted_and_removed() {
    let mut tracker = TransferTracker::new();
    let m = dummy_manifest();
    tracker.start_transfer(m.clone(), 0);
    tracker.register_peer_chunk(m.id, ChunkId(2), NodeId(9));
    tracker.register_peer_chunk(m.id, ChunkId(2), NodeId(4));
    tracker.register_peer_chunk(m.id, ChunkId(2), NodeId(9));
    assert_eq!(tracker.get_chunk_holders(m.id, ChunkId(2)), Some(vec![NodeId(4), NodeId(9)]));
    tracker.remove_peer_chunk_availability(m.id, ChunkId(2), NodeId(4));
    assert_eq!(tracker.get_chunk_holders(m.id, ChunkId(2)), Some(vec![NodeId(9)]));
    tracker.remove_peer_availability(NodeId(9));
    assert_eq!(tracker.get_chunk_holders(m.id, ChunkId(2)), Some(vec![]));
}

#[test]
fn disconnect_requeues_requests_to_that_node() {
    let mut tracker = TransferTracker::new();
    let m = dummy_manifest();
    tracker.start_transfer(m.clone(), 0);
    tracker.mark_chunk_in_flight(m.id, ChunkId(1), NodeId(5), 0);
    tracker.mark_chunk_in_flight(m.id, ChunkId(2), NodeId(6), 0);
    tracker.register_peer_chunk(m.id, ChunkId(3), NodeId(5));
    let back = tracker.handle_node_disconnect(NodeId(5));
    assert_eq!(back, vec![(m.id, ChunkId(1))]);
    let p = tracker.get_progress(m.id).unwrap();
    assert!(p.chunks_pending.contains_key(1));
    assert!(p.chunks_in_flight.contains_key(2));
    assert_eq!(tracker.get_chunk_holders(m.id, ChunkId(3)), Some(vec![]));
}

#[test]
fn timeouts_requeue_overdue_requests() {
    let mut tracker = TransferTracker::new();
    let m = dummy_manifest();
    tracker.start_transfer(m.clone(), 0);
    tracker.mark_chunk_in_flight(m.id, ChunkId(1), NodeId(8), 100);
    tracker.mark_chunk_in_flight(m.id, ChunkId(2), NodeId(3), 500);
    let (none_m, none_n) = tracker.check_timeouts(1000, 1100);
    assert!(none_m.is_empty() && none_n.is_empty());
    let (ms, nodes) = tracker.check_timeouts(1000, 1101);
    assert_eq!(ms, vec![m.id]);
    assert_eq!(nodes, vec![NodeId(8)]);
    let p = tracker.get_progress(m.id).unwrap();
    assert!(p.chunks_pending.contains_key(1));
    assert!(p.chunks_in_flight.contains_key(2));
    let (_, later) = tracker.check_timeouts(10, 5000);
    assert_eq!(later, vec![NodeId(3)]);
}

#[test]
fn restarting_a_transfer_keeps_its_progress() {
    let mut tracker = TransferTracker::new();
    let m = dummy_manifest();
    tracker.start_transfer(m.clone(), 0);
    tracker.mark_chunk_received(m.id, ChunkId(3));
    tracker.start_transfer(m.clone(), 99);
    let p = tracker.get_progress(m.id).unwrap();
    assert!(p.chunks_received.contains_key(3));
    assert_eq!(p.started_at, 0);
    let all = tracker.get_all_progress();
    assert_eq!(all.len(), 1);
    assert_eq!(all[0].0, m.id);
    assert!(all[0].1.chunks_received.contains_key(3));
    assert_eq!(all[0].1.chunks_received.len(), p.chunks_received.len());
    assert_eq!(all[0].1.chunks_pending.len(), p.chunks_pending.len());
    assert_eq!(all[0].1.manifest.id, m.id);
    let pending = tracker.get_all_pending_chunks();
    assert_eq!(pending, vec![(m.id, ChunkId(1)), (m.id, ChunkId(2))]);
}

#[test]
fn unmark_puts_request_back() {
    let mut tracker = TransferTracker::new();
    let m = dummy_manifest();
    tracker.start_transfer(m.clone(), 0);
    tracker.mark_chunk_in_flight(m.id, ChunkId(2), NodeId(1), 0);
    tracker.unmark_chunk_in_flight(m.id, ChunkId(2));
    let p = tracker.get_progress(m.id).unwrap();
    assert!(p.chunks_pending.contains_key(2));
    assert!(!p.chunks_in_flight.contains_key(2));
    tracker.mark_chunk_received(m.id, ChunkId(7));
    assert!(!tracker.get_progress(m.id).unwrap().chunks_received.contains_key(7));
}
