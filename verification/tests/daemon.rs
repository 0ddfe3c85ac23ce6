use murmur::bonded::BondedDownload;
use murmur::chunk::ChunkMeta;
use murmur::daemon::{Action, NodeState};
use murmur::manifest::{copy_manifest, Manifest, ManifestSource};
use murmur::net::NetMessage;
use murmur::throughput::granular_batch_size;
use murmur::types::{ChunkId, ManifestId, NodeId, SimTime};
use murmur::url_manifest::{manifest_from_url_info, ServerTier, UrlResourceInfo};

fn manifest(id: u128, n: u32) -> Manifest {
    let data: Vec<u8> = (0..n * 4).map(|i| i as u8).collect();
    let mut m = Manifest::from_data(
        "file.bin",
        &data,
        4,
        ManifestSource::LocalFile { path: String::from("file.bin") },
        SimTime(0),
    );
    m.id = ManifestId(id);
    m
}

fn requests(actions: &[Action]) -> Vec<(u64, u32)> {
    actions
        .iter()
        .filter_map(|a| match a {
            Action::Send { to, msg: NetMessage::RequestChunk { chunk_id, .. } } => Some((to.0, chunk_id.0)),
            _ => None,
        })
        .collect()
}

fn node_with_transfer(n: u32) -> (NodeState, Manifest) {
    let mut s = NodeState::new(NodeId(1), 1000, false, false);
    let m = manifest(7, n);
    let actions = s.handle_net_message(NodeId(2), NetMessage::ManifestData { manifest: copy_manifest(&m) }, 0);
    assert!(matches!(actions[0], Action::GossipManifest { except: NodeId(2), manifest_id: ManifestId(7) }));
    assert_eq!(actions.len(), 1);
    (s, m)
}

#[test]
fn heartbeat_ping_is_acknowledged() {
    let mut s = NodeState::new(NodeId(1), 0, false, false);
    let r = s.handle_net_message(NodeId(9), NetMessage::HeartbeatPing, 0);
    assert_eq!(r.len(), 1);
    assert!(matches!(r[0], Action::Send { to: NodeId(9), msg: NetMessage::HeartbeatAck }));
}

#[test]
fn manifest_is_kept_once_and_chunks_requested_rarest_first() {
    let (mut s, m) = node_with_transfer(7);
    assert!(s.tracker.get_progress(m.id).is_some());
    let again = s.handle_net_message(NodeId(3), NetMessage::ManifestData { manifest: copy_manifest(&m) }, 0);
    assert!(again.is_empty());
    let bitfield = NetMessage::Bitfield { manifest_id: m.id, chunks: vec![ChunkId(0), ChunkId(1), ChunkId(2)] };
    let r = s.handle_net_message(NodeId(2), bitfield, 10);
    assert_eq!(requests(&r), vec![(2, 0), (2, 1), (2, 2)]);
    let have = NetMessage::Have { manifest_id: m.id, chunk_id: ChunkId(5) };
    let r = s.handle_net_message(NodeId(4), have, 11);
    assert_eq!(requests(&r), vec![(4, 5)]);
    let more = NetMessage::Bitfield { manifest_id: m.id, chunks: vec![ChunkId(3), ChunkId(4), ChunkId(6)] };
    let r = s.handle_net_message(NodeId(4), more, 12);
    assert_eq!(requests(&r), vec![(4, 3)]);
    let p = s.tracker.get_progress(m.id).unwrap();
    assert_eq!(p.chunks_in_flight.len(), 5);
    assert_eq!(p.chunks_in_flight.get(3), Some(&(NodeId(4), 12)));
}

#[test]
fn own_announcements_are_not_asked() {
    let (mut s, m) = node_with_transfer(2);
    let r = s.handle_net_message(NodeId(1), NetMessage::Have { manifest_id: m.id, chunk_id: ChunkId(0) }, 0);
    assert!(r.is_empty());
}

#[test]
fn chunk_request_reads_known_chunks_only() {
    let (mut s, m) = node_with_transfer(3);
    let r = s.handle_net_message(NodeId(5), NetMessage::RequestChunk { manifest_id: m.id, chunk_id: ChunkId(1) }, 0);
    assert!(matches!(
        r[0],
        Action::ReadChunk { to: NodeId(5), manifest_id: ManifestId(7), chunk_id: ChunkId(1), offset: 4, size: 4 }
    ));
    let r = s.handle_net_message(NodeId(5), NetMessage::RequestChunk { manifest_id: m.id, chunk_id: ChunkId(9) }, 0);
    assert!(matches!(r[0], Action::Send { to: NodeId(5), msg: NetMessage::ChunkNotFound { .. } }));
    let r = s.handle_net_message(NodeId(5), NetMessage::RequestManifest { manifest_id: m.id }, 0);
    assert!(matches!(r[0], Action::SendManifest { to: NodeId(5), manifest_id: ManifestId(7) }));
    let r = s.handle_net_message(NodeId(5), NetMessage::RequestManifest { manifest_id: ManifestId(8) }, 0);
    assert!(r.is_empty());
}

#[test]
fn good_chunk_is_stored_then_announced() {
    let (mut s, m) = node_with_transfer(2);
    s.handle_net_message(NodeId(2), NetMessage::Bitfield { manifest_id: m.id, chunks: vec![ChunkId(0), ChunkId(1)] }, 0);
    s.download_destinations.push(m.id.0, String::from("/tmp/out.bin"));
    let data = vec![0u8, 1, 2, 3];
    let r = s.handle_net_message(NodeId(2), NetMessage::ChunkData { manifest_id: m.id, chunk_id: ChunkId(0), data: data.clone() }, 1);
    assert_eq!(r.len(), 1);
    assert!(matches!(&r[0], Action::StoreChunk { from: NodeId(2), chunk_id: ChunkId(0), offset: 0, data: d, .. } if *d == data));
    let r = s.on_chunk_stored(NodeId(2), m.id, ChunkId(0), true, 2);
    assert!(matches!(r[0], Action::Broadcast { except: NodeId(2), msg: NetMessage::Have { chunk_id: ChunkId(0), .. } }));
    assert_eq!(r.len(), 1);
    s.handle_net_message(NodeId(2), NetMessage::ChunkData { manifest_id: m.id, chunk_id: ChunkId(1), data: vec![4, 5, 6, 7] }, 3);
    let r = s.on_chunk_stored(NodeId(2), m.id, ChunkId(1), true, 4);
    assert_eq!(r.len(), 2);
    assert!(matches!(&r[1], Action::Reassemble { manifest_id: ManifestId(7), dest } if dest == "/tmp/out.bin"));
    assert!(s.on_chunk_stored(NodeId(2), m.id, ChunkId(1), false, 5).is_empty());
}

#[test]
fn corrupted_chunk_bans_the_sender() {
    let (mut s, m) = node_with_transfer(2);
    s.handle_net_message(NodeId(2), NetMessage::Have { manifest_id: m.id, chunk_id: ChunkId(0) }, 0);
    let r = s.handle_net_message(NodeId(2), NetMessage::ChunkData { manifest_id: m.id, chunk_id: ChunkId(0), data: vec![9, 9, 9, 9] }, 1);
    assert!(matches!(r[0], Action::Disconnect { peer: NodeId(2) }));
    assert!(s.banned_peers.contains_key(2));
    assert!(s.tracker.get_progress(m.id).unwrap().chunks_pending.contains_key(0));
    assert!(!s.on_handshake(NodeId(2)));
    assert!(!s.on_peer_discovered(NodeId(2)));
}

#[test]
fn not_found_forgets_the_holder_and_asks_elsewhere() {
    let (mut s, m) = node_with_transfer(1);
    s.handle_net_message(NodeId(2), NetMessage::Have { manifest_id: m.id, chunk_id: ChunkId(0) }, 0);
    s.tracker.register_peer_chunk(m.id, ChunkId(0), NodeId(3));
    let r = s.handle_net_message(NodeId(2), NetMessage::ChunkNotFound { manifest_id: m.id, chunk_id: ChunkId(0) }, 1);
    assert_eq!(requests(&r), vec![(3, 0)]);
    assert_eq!(s.tracker.get_chunk_holders(m.id, ChunkId(0)), Some(vec![NodeId(3)]));
}

#[test]
fn served_chunks_follow_the_fault_modes() {
    let honest = NodeState::new(NodeId(1), 0, false, false);
    let r = honest.on_chunk_read(NodeId(4), ManifestId(1), ChunkId(2), Some(vec![1, 2]));
    assert!(matches!(r, Some(Action::Send { to: NodeId(4), msg: NetMessage::ChunkData { ref data, .. } }) if *data == vec![1, 2]));
    let r = honest.on_chunk_read(NodeId(4), ManifestId(1), ChunkId(2), None);
    assert!(matches!(r, Some(Action::Send { msg: NetMessage::ChunkNotFound { .. }, .. })));
    let liar = NodeState::new(NodeId(1), 0, true, false);
    let r = liar.on_chunk_read(NodeId(4), ManifestId(1), ChunkId(2), Some(vec![0x00, 0x0f]));
    assert!(matches!(r, Some(Action::Send { msg: NetMessage::ChunkData { ref data, .. }, .. }) if *data == vec![0xff, 0xf0]));
    let staller = NodeState::new(NodeId(1), 0, false, true);
    assert!(staller.on_chunk_read(NodeId(4), ManifestId(1), ChunkId(2), Some(vec![1])).is_none());
}

#[test]
fn handshake_and_discovery_add_active_peers() {
    let mut s = NodeState::new(NodeId(5), 0, false, false);
    assert!(s.on_handshake(NodeId(9)));
    assert!(s.on_peer_discovered(NodeId(3)));
    assert!(!s.on_peer_discovered(NodeId(8)));
    assert_eq!(s.overlay.active_nodes(), vec![NodeId(3), NodeId(8), NodeId(9)]);
    s.handle_net_message(NodeId(3), NetMessage::HeartbeatAck, 0);
    assert_eq!(s.overlay.node_count(), 3);
}

#[test]
fn stalled_requests_time_out_and_ban() {
    let (mut s, m) = node_with_transfer(2);
    s.handle_net_message(NodeId(2), NetMessage::Have { manifest_id: m.id, chunk_id: ChunkId(0) }, 1000);
    s.tracker.register_peer_chunk(m.id, ChunkId(0), NodeId(3));
    assert!(s.on_request_timeouts(6000).is_empty());
    let r = s.on_request_timeouts(6001);
    assert!(matches!(r[0], Action::Disconnect { peer: NodeId(2) }));
    assert!(s.banned_peers.contains_key(2));
    assert_eq!(requests(&r[1..]), vec![(2, 0)]);
}

#[test]
fn lost_peer_requests_go_to_another_holder() {
    let (mut s, m) = node_with_transfer(2);
    s.on_handshake(NodeId(2));
    s.on_handshake(NodeId(6));
    s.handle_net_message(NodeId(6), NetMessage::ManifestData { manifest: copy_manifest(&m) }, 0);
    s.handle_net_message(NodeId(2), NetMessage::Have { manifest_id: m.id, chunk_id: ChunkId(1) }, 0);
    let r = s.on_peer_lost(NodeId(2), &[NodeId(6)], false, 50);
    assert_eq!(requests(&r), vec![(6, 1)]);
    assert_eq!(s.tracker.get_progress(m.id).unwrap().chunks_in_flight.get(1), Some(&(NodeId(6), 50)));
    assert_eq!(s.overlay.active_nodes(), vec![NodeId(6)]);
    let r = s.on_peer_lost(NodeId(6), &[], true, 60);
    assert!(r.is_empty());
    assert!(s.tracker.get_progress(m.id).unwrap().chunks_pending.contains_key(1));
}

fn bonded() -> BondedDownload {
    let info = UrlResourceInfo {
        tier: ServerTier::Tier1FullRange,
        total_size: 3_000_000,
        supports_ranges: true,
        etag: None,
        last_modified: None,
        content_type: None,
        suggested_filename: None,
    };
    let manifest = manifest_from_url_info(&info, "http://x/f", "f", 1_000_000);
    BondedDownload::new("http://x/f".into(), info, manifest, "/tmp/f".into(), NodeId(1))
}

#[test]
fn more_work_goes_out_in_batches() {
    let mut s = NodeState::new(NodeId(1), 0, false, false);
    let d = bonded();
    let id = d.manifest.id;
    s.bonded_downloads.push(id.0, d);
    let r = s.handle_net_message(NodeId(4), NetMessage::RequestMoreWork { manifest_id: id, node_id: NodeId(4) }, 0);
    match &r[0] {
        Action::Send { to: NodeId(4), msg: NetMessage::AssignFetchRanges { assignments, coordinator_id: NodeId(1), url, .. } } => {
            assert_eq!(assignments.len(), 3);
            assert_eq!(url, "http://x/f");
        }
        _ => panic!("expected an assignment"),
    }
    let r = s.handle_request_more_work(id, NodeId(1));
    assert!(r.is_empty());
    assert!(s.handle_request_more_work(ManifestId(99), NodeId(1)).is_empty());
}

#[test]
fn local_batches_are_fetched_here() {
    let mut s = NodeState::new(NodeId(1), 0, false, false);
    let d = bonded();
    let id = d.manifest.id;
    s.bonded_downloads.push(id.0, d);
    let r = s.handle_request_more_work(id, NodeId(1));
    assert!(matches!(&r[0], Action::FetchRanges { coordinator_id: NodeId(1), assignments, .. } if assignments.len() == 3));
}

#[test]
fn batch_sizes_are_whole_granular_chunks() {
    assert_eq!(granular_batch_size(0), 524_288);
    assert_eq!(granular_batch_size(524_289), 1_048_576);
    assert_eq!(granular_batch_size(3_000_000), 3_145_728);
    assert_eq!(granular_batch_size(u64::MAX), 16_777_216);
}

#[test]
fn copied_manifest_is_identical() {
    let m = manifest(3, 2);
    let c = copy_manifest(&m);
    assert_eq!(c.id, m.id);
    assert_eq!(c.chunks, m.chunks);
    assert_eq!(c.file_hash, m.file_hash);
    assert_eq!(c.name, m.name);
    let _ = ChunkMeta { id: ChunkId(0), offset: 0, size: 0, hash: [0; 32] };
}

#[test]
fn seeding_marks_everything_received_and_announces() {
    let mut s = NodeState::new(NodeId(1), 0, false, false);
    let m = manifest(11, 3);
    let r = s.seed(copy_manifest(&m), 5);
    assert_eq!(r.len(), 2);
    assert!(matches!(r[0], Action::GossipManifest { except: NodeId(1), manifest_id: ManifestId(11) }));
    assert!(matches!(&r[1], Action::Broadcast { msg: NetMessage::Bitfield { chunks, .. }, .. } if *chunks == vec![ChunkId(0), ChunkId(1), ChunkId(2)]));
    let p = s.tracker.get_progress(m.id).unwrap();
    assert!(p.is_complete());
    assert_eq!(p.chunks_pending.len(), 0);
    let r = s.start_download(m.id, String::from("/tmp/copy.bin"));
    assert_eq!(r.len(), 1);
    assert!(matches!(&r[0], Action::Reassemble { manifest_id: ManifestId(11), dest } if dest == "/tmp/copy.bin"));
}

#[test]
fn download_of_unknown_manifest_asks_peers() {
    let mut s = NodeState::new(NodeId(1), 0, false, false);
    let r = s.start_download(ManifestId(5), String::from("/tmp/x"));
    assert_eq!(r.len(), 1);
    assert!(matches!(r[0], Action::Broadcast { except: NodeId(1), msg: NetMessage::RequestManifest { manifest_id: ManifestId(5) } }));
}

#[test]
fn bonded_download_hands_out_first_batches() {
    let mut s = NodeState::new(NodeId(1), 0, false, false);
    let d = bonded();
    let id = d.manifest.id;
    let per_node = vec![
        (NodeId(1), vec![(ChunkId(0), 0, 1_000_000)]),
        (NodeId(3), vec![(ChunkId(1), 1_000_000, 1_000_000)]),
    ];
    let r = s.start_bonded_download(d, per_node, 0);
    assert_eq!(r.len(), 3);
    assert!(matches!(r[0], Action::SendManifest { to: NodeId(3), .. }));
    assert!(matches!(&r[1], Action::FetchRanges { coordinator_id: NodeId(1), assignments, .. } if assignments.len() == 1));
    assert!(matches!(&r[2], Action::Send { to: NodeId(3), msg: NetMessage::AssignFetchRanges { .. } }));
    assert!(s.tracker.get_progress(id).is_some());
    assert!(s.bonded_downloads.find(id.0).is_some());
}

#[test]
fn test_node_state_initialization() {
    let state = NodeState::new(NodeId(10), 50_000_000, false, false);
    assert_eq!(state.node_id.0, 10);
    assert_eq!(state.overlay.active_nodes().len(), 0);
    assert!(state.overlay.coordinator().is_none());
    assert_eq!(state.overlay.node_count(), 0);
}

#[test]
fn test_manifest_store_add_retrieve() {
    let mut state = NodeState::new(NodeId(1), 50_000_000, false, false);
    let manifest = Manifest {
        id: ManifestId::new(),
        name: "test.txt".into(),
        total_size: 100,
        chunks: vec![],
        file_hash: [0; 32],
        chunk_size: 1024,
        source: ManifestSource::LocalFile { path: String::from("test.txt") },
        created_at: SimTime(0),
    };
    let id = manifest.id;
    state.manifests.push(id.0, manifest);
    let i = state.manifests.find(id.0).unwrap();
    assert_eq!(state.manifests.value_at(i).name, "test.txt");
}

#[test]
fn test_missing_chunk_request_returns_error() {
    let mut state = NodeState::new(NodeId(1), 50_000_000, false, false);
    let manifest_id = ManifestId::new();
    let r = state.handle_net_message(NodeId(99), NetMessage::RequestChunk { manifest_id, chunk_id: ChunkId(100) }, 0);
    assert_eq!(r.len(), 1);
    match &r[0] {
        Action::Send { to, msg: NetMessage::ChunkNotFound { manifest_id: mid, chunk_id } } => {
            assert_eq!(*to, NodeId(99));
            assert_eq!(chunk_id.0, 100);
            assert_eq!(*mid, manifest_id);
        }
        other => panic!("Expected ChunkNotFound, got {:?}", other),
    }
}

#[test]
fn test_chunk_hash_verification_rejects_tampered_data() {
    let mut state = NodeState::new(NodeId(1), 50_000_000, false, false);
    let chunk_data = b"hello world";
    let mut tampered_hash = *blake3::hash(chunk_data).as_bytes();
    tampered_hash[0] ^= 0xff;
    let manifest = Manifest {
        id: ManifestId::new(),
        name: "test.txt".into(),
        total_size: 100,
        chunks: vec![ChunkMeta { id: ChunkId(0), offset: 0, size: chunk_data.len() as u32, hash: tampered_hash }],
        file_hash: [0; 32],
        chunk_size: 1024,
        source: ManifestSource::LocalFile { path: String::from("test.txt") },
        created_at: SimTime(0),
    };
    let manifest_id = manifest.id;
    state.manifests.push(manifest_id.0, manifest);
    let r = state.handle_net_message(
        NodeId(99),
        NetMessage::ChunkData { manifest_id, chunk_id: ChunkId(0), data: chunk_data.to_vec() },
        0,
    );
    assert!(!r.iter().any(|a| matches!(a, Action::StoreChunk { .. })));
}

#[test]
fn requests_stop_at_five_in_flight() {
    let (mut s, m) = node_with_transfer(8);
    let all: Vec<ChunkId> = (0..8).map(ChunkId).collect();
    let r = s.handle_net_message(NodeId(2), NetMessage::Bitfield { manifest_id: m.id, chunks: all }, 0);
    assert_eq!(requests(&r).len(), 5);
    assert_eq!(s.tracker.get_progress(m.id).unwrap().chunks_in_flight.len(), 5);
    assert!(s.try_request_pending_chunks(m.id, 1).is_empty());
    assert_eq!(s.tracker.get_progress(m.id).unwrap().chunks_in_flight.len(), 5);
}

#[test]
fn active_configs_list_active_peers_by_id() {
    let mut s = NodeState::new(NodeId(1), 0, false, false);
    assert!(s.active_configs().is_empty());
    s.on_handshake(NodeId(9));
    s.on_handshake(NodeId(4));
    let configs = s.active_configs();
    let ids: Vec<u64> = configs.iter().map(|c| c.0 .0).collect();
    assert_eq!(ids, vec![4, 9]);
}
