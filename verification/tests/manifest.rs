use murmur::manifest::{Manifest, ManifestBuilder, ManifestSource};
use murmur::types::{ChunkId, SimTime};

fn local() -> ManifestSource {
    ManifestSource::LocalFile { path: String::from("test.bin") }
}

#[test]
fn manifest_from_data() {
    let data = vec![0u8; 2_500];
    let manifest = Manifest::from_data("test.bin", &data, 1000, local(), SimTime(0));

    assert_eq!(manifest.chunk_count(), 3);
    assert_eq!(manifest.total_size, 2500);
    assert_eq!(manifest.chunks[0].size, 1000);
    assert_eq!(manifest.chunks[1].size, 1000);
    assert_eq!(manifest.chunks[2].size, 500);
    assert_eq!(manifest.chunks[0].offset, 0);
    assert_eq!(manifest.chunks[1].offset, 1000);
    assert_eq!(manifest.chunks[2].offset, 2000);
}

#[test]
fn chunk_verification_correct() {
    let data = b"hello world, this is DOR!";
    let manifest = Manifest::from_data("test.bin", data, 10, local(), SimTime(0));

    assert!(manifest.verify_chunk(ChunkId(0), b"hello worl"));
    assert!(!manifest.verify_chunk(ChunkId(0), b"wrong data"));
}

#[test]
fn file_verification() {
    let data = b"complete file content";
    let manifest = Manifest::from_data("test.bin", data, 10, local(), SimTime(0));

    assert!(manifest.verify_file(data));
    assert!(!manifest.verify_file(b"wrong content here!"));
    assert!(!manifest.verify_file(b"short"));
}

#[test]
fn chunk_ids_in_order() {
    let data = vec![0u8; 3000];
    let manifest = Manifest::from_data("test.bin", &data, 1000, local(), SimTime(0));
    let ids = manifest.chunk_ids();
    assert_eq!(ids, vec![ChunkId(0), ChunkId(1), ChunkId(2)]);
}

#[test]
fn chunk_hash_is_blake3_of_the_piece() {
    let data = b"abcdefghij";
    let manifest = Manifest::from_data("x", data, 4, local(), SimTime(0));
    assert_eq!(manifest.chunks[1].hash, *blake3::hash(b"efgh").as_bytes());
    assert_eq!(manifest.file_hash, *blake3::hash(data).as_bytes());
    assert_ne!(manifest.chunks[0].hash, manifest.chunks[1].hash);
}

#[test]
fn unknown_chunk_does_not_verify() {
    let manifest = Manifest::from_data("x", b"abcdef", 4, local(), SimTime(0));
    assert!(manifest.get_chunk(ChunkId(2)).is_none());
    assert!(!manifest.verify_chunk(ChunkId(7), b"ab"));
    assert_eq!(manifest.get_chunk(ChunkId(1)).unwrap().size, 2);
}

#[test]
fn empty_data_has_no_chunks() {
    let manifest = Manifest::from_data("empty", b"", 16, local(), SimTime(5));
    assert_eq!(manifest.chunk_count(), 0);
    assert_eq!(manifest.total_size, 0);
    assert!(manifest.verify_file(b""));
}

#[test]
fn builder_matches_from_data() {
    let data: Vec<u8> = (0..2500u32).map(|i| (i % 251) as u8).collect();
    let whole = Manifest::from_data("f", &data, 1000, local(), SimTime(1));
    let mut b = ManifestBuilder::new(1000);
    b.add_block(&data[0..1000]);
    b.add_block(&data[1000..2000]);
    b.add_block(&data[2000..2500]);
    let built = b.finish("f", local(), SimTime(1));
    assert_eq!(built.total_size, whole.total_size);
    assert_eq!(built.chunks, whole.chunks);
    assert_eq!(built.file_hash, whole.file_hash);
    assert_ne!(built.id, whole.id);
}
