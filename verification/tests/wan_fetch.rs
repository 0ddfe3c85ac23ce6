use murmur::wan_fetch::{
    classify_range_status, fetch_result, group_into_blocks, range_header, split_block, throughput,
    FetchResult, RangeAnswer, ShortBody,
};

#[test]
fn fetch_result_throughput_calculation() {
    let result = FetchResult {
        data: vec![0u8; 1_000_000],
        hash: [0u8; 32],
        elapsed_ms: 1000,
        throughput_bps: 1_000_000,
    };
    assert_eq!(result.throughput_bps, 1_000_000);
    assert_eq!(result.data.len(), 1_000_000);
}

#[test]
fn throughput_formula() {
    assert_eq!(throughput(1_000_000, 1000), 1_000_000);
    assert_eq!(throughput(3, 2), 1500);
    assert_eq!(throughput(5, 0), 5_000_000);
    let r = fetch_result(vec![7u8; 10], 4);
    assert_eq!(r.throughput_bps, 2500);
    assert_eq!(r.hash, *blake3::hash(&[7u8; 10]).as_bytes());
    assert_eq!(r.elapsed_ms, 4);
}

#[test]
fn contiguous_ranges_merge_in_offset_order() {
    let assignments = vec![(2, 200, 100), (0, 0, 100), (1, 100, 100), (5, 1000, 10)];
    let blocks = group_into_blocks(&assignments);
    assert_eq!(
        blocks,
        vec![vec![(0, 0, 100), (1, 100, 100), (2, 200, 100)], vec![(5, 1000, 10)]]
    );
}

#[test]
fn merged_block_stays_within_eight_mebibytes() {
    let mib = 1_048_576u32;
    let assignments: Vec<(u32, u64, u32)> =
        (0..10u32).map(|i| (i, i as u64 * mib as u64, mib)).collect();
    let blocks = group_into_blocks(&assignments);
    assert_eq!(blocks.len(), 2);
    assert_eq!(blocks[0].len(), 8);
    assert_eq!(blocks[1].len(), 2);
    assert!(group_into_blocks(&[]).is_empty());
}

#[test]
fn split_block_cuts_data_back_into_chunks() {
    let block = vec![(3, 0, 2), (4, 2, 3)];
    let data = b"abcde";
    let parts = split_block(&block, data, 10);
    assert_eq!(parts.len(), 2);
    let (id0, r0) = parts[0].as_ref().unwrap();
    assert_eq!(*id0, 3);
    assert_eq!(r0.data, b"ab");
    assert_eq!(r0.hash, *blake3::hash(b"ab").as_bytes());
    let (id1, r1) = parts[1].as_ref().unwrap();
    assert_eq!(*id1, 4);
    assert_eq!(r1.data, b"cde");
    assert_eq!(r1.throughput_bps, 500);
}

#[test]
fn short_body_stops_the_split() {
    let block = vec![(0, 0, 2), (1, 2, 3), (2, 5, 1)];
    let parts = split_block(&block, b"abcd", 1);
    assert_eq!(parts.len(), 2);
    assert!(parts[0].is_ok());
    assert_eq!(parts[1].as_ref().unwrap_err(), &ShortBody);
}

#[test]
fn range_header_and_status() {
    assert_eq!(range_header(0, 100), "bytes=0-99");
    assert_eq!(range_header(1_048_576, 1), "bytes=1048576-1048576");
    assert_eq!(classify_range_status(206), RangeAnswer::Partial);
    assert_eq!(classify_range_status(200), RangeAnswer::RangeIgnored(200));
    assert_eq!(classify_range_status(416), RangeAnswer::Failed(416));
}
