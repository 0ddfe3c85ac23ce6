use murmur::bonded::{bonded_chunk_size, plan_bonded_download, BondedDownload, BondedStatus, NodeSpeedObservation};
use murmur::manifest::Manifest;
use murmur::node::NodeConfig;
use murmur::types::{ChunkId, NodeId};
use murmur::url_manifest::{manifest_from_url_info, ServerTier, UrlResourceInfo};

fn info(total_size: u64, name: Option<&str>) -> UrlResourceInfo {
    UrlResourceInfo {
        tier: ServerTier::Tier1FullRange,
        total_size,
        supports_ranges: true,
        etag: None,
        last_modified: None,
        content_type: None,
        suggested_filename: name.map(String::from),
    }
}

fn make_test_manifest(total_size: u64, chunk_size: u32) -> Manifest {
    manifest_from_url_info(&info(total_size, Some("test.bin")), "https://example.com/file.bin", "test.bin", chunk_size)
}

fn make_test_nodes() -> Vec<(NodeId, NodeConfig)> {
    vec![
        (NodeId(1), NodeConfig { wan_bandwidth: 625_000, ..Default::default() }),
        (NodeId(2), NodeConfig { wan_bandwidth: 2_500_000, ..Default::default() }),
    ]
}

fn download(total_size: u64, chunk_size: u32) -> BondedDownload {
    BondedDownload::new(
        "https://example.com/file.bin".into(),
        info(total_size, None),
        make_test_manifest(total_size, chunk_size),
        "/tmp/file.bin".into(),
        NodeId(1),
    )
}

fn percentage(d: &BondedDownload) -> f64 {
    let total = d.manifest.chunk_count();
    if total == 0 {
        return 100.0;
    }
    (d.completed_chunk_count() as f64 / total as f64) * 100.0
}

#[test]
fn bonded_download_dispense_batch() {
    let nodes = make_test_nodes();
    let mut download = download(10_000_000, 1_000_000);

    let mut total_chunks = 0;
    for _ in &nodes {
        let batch = download.dispense_batch();
        total_chunks += batch.len();
    }

    loop {
        let batch = download.dispense_batch();
        if batch.is_empty() {
            break;
        }
        total_chunks += batch.len();
    }

    assert_eq!(total_chunks, 10);
}

#[test]
fn speed_observation_ema() {
    let mut obs = NodeSpeedObservation::new();

    obs.update(1_000_000, 1_000_000);
    assert_eq!(obs.avg_throughput_bps, 1_000_000);
    assert_eq!(obs.chunks_completed, 1);

    obs.update(2_000_000, 1_000_000);
    assert_eq!(obs.avg_throughput_bps, 1_300_000);
    assert_eq!(obs.chunks_completed, 2);

    obs.update(2_000_000, 1_000_000);
    assert_eq!(obs.avg_throughput_bps, 1_510_000);
}

#[test]
fn bonded_download_progress() {
    let mut download = download(4_000_000, 1_000_000);

    assert_eq!(percentage(&download), 0.0);

    download.record_speed(NodeId(1), 1_000_000, 1_000_000);
    assert_eq!(percentage(&download), 25.0);

    download.record_speed(NodeId(2), 2_000_000, 1_000_000);
    download.record_speed(NodeId(2), 2_000_000, 1_000_000);
    download.record_speed(NodeId(2), 2_000_000, 1_000_000);
    assert_eq!(percentage(&download), 100.0);
}

#[test]
fn combined_bandwidth() {
    let mut download = download(2_000_000, 1_000_000);

    download.record_speed(NodeId(1), 625_000, 1_000_000);
    download.record_speed(NodeId(2), 2_500_000, 1_000_000);

    assert_eq!(download.combined_bandwidth_bps(), 3_125_000);
}

#[test]
fn batches_stop_at_eight_mebibytes() {
    let mut download = download(20_000_000, 1_000_000);
    let first = download.dispense_batch();
    assert_eq!(first.len(), 8);
    assert_eq!(first[0], (ChunkId(0), 0, 1_000_000));
    assert_eq!(first[7], (ChunkId(7), 7_000_000, 1_000_000));
    assert_eq!(download.status, BondedStatus::Downloading);
    let second = download.dispense_batch();
    assert_eq!(second[0].0, ChunkId(8));
    assert_eq!(download.unassigned_chunks.len(), 20 - 16);
}

#[test]
fn oversized_first_chunk_still_goes_out_alone() {
    let mut download = download(20_000_000, 10_000_000);
    let first = download.dispense_batch();
    assert_eq!(first, vec![(ChunkId(0), 0, 10_000_000)]);
}

#[test]
fn speed_map_sorted_by_node() {
    let mut download = download(2_000_000, 1_000_000);
    download.record_speed(NodeId(9), 100, 10);
    download.record_speed(NodeId(2), 300, 10);
    download.record_speed(NodeId(9), 200, 10);
    assert_eq!(download.node_speed_map(), vec![(2, 300), (9, 130)]);
    assert_eq!(download.completed_chunk_count(), 3);
}

#[test]
fn complete_fail_and_rebalance() {
    let mut download = download(2_000_000, 1_000_000);
    assert!(download.rebalance(&make_test_nodes(), &[]).is_empty());
    download.fail(String::from("server went away"));
    assert_eq!(download.status, BondedStatus::Failed(String::from("server went away")));
    download.complete();
    assert_eq!(download.status, BondedStatus::Completed);
}

#[test]
fn plan_gives_each_node_a_first_batch() {
    let nodes = make_test_nodes();
    let (download, batches) = plan_bonded_download(
        "https://example.com/file.bin",
        "/tmp/out.bin",
        NodeId(1),
        &nodes,
        Some(4_000_000),
        info(40_000_000, Some("file.bin")),
    );
    assert_eq!(download.manifest.name, "file.bin");
    assert_eq!(download.manifest.chunk_count(), 10);
    assert_eq!(batches.len(), 2);
    assert_eq!(batches[0].0, NodeId(1));
    assert_eq!(batches[0].1, vec![(ChunkId(0), 0, 4_000_000), (ChunkId(1), 4_000_000, 4_000_000)]);
    assert_eq!(batches[1].0, NodeId(2));
    assert_eq!(batches[1].1[0].0, ChunkId(2));
    assert_eq!(download.unassigned_chunks.len(), 6);
}

#[test]
fn bonded_chunk_size_defaults_to_quarter_mebibyte() {
    assert_eq!(bonded_chunk_size(0), 262144);
    assert_eq!(bonded_chunk_size(4096), 4096);
}
