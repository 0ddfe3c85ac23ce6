use murmur::manifest::ManifestSource;
use murmur::url_manifest::{
    classify_head, manifest_from_url_info, HeadResponse, ProbeError, ServerTier, UrlResourceInfo,
};

fn info(total_size: u64) -> UrlResourceInfo {
    UrlResourceInfo {
        tier: ServerTier::Tier1FullRange,
        total_size,
        supports_ranges: true,
        etag: None,
        last_modified: None,
        content_type: None,
        suggested_filename: None,
    }
}

fn head(status: u16) -> HeadResponse {
    HeadResponse {
        status,
        content_length: None,
        accept_ranges: None,
        etag: None,
        last_modified: None,
        content_type: None,
        content_disposition: None,
    }
}

fn bytes(s: &str) -> Option<Vec<u8>> {
    Some(s.as_bytes().to_vec())
}

#[test]
fn manifest_from_url_info_even_split() {
    let mut i = info(5_242_880);
    i.content_type = Some("application/octet-stream".into());
    i.suggested_filename = Some("test.bin".into());

    let manifest = manifest_from_url_info(&i, "http://test", "test.bin", 1_048_576);

    assert_eq!(manifest.chunk_count(), 5);
    assert_eq!(manifest.total_size, 5_242_880);
    assert_eq!(manifest.chunks[0].offset, 0);
    assert_eq!(manifest.chunks[0].size, 1_048_576);
    assert_eq!(manifest.chunks[4].offset, 4_194_304);
    assert_eq!(manifest.chunks[4].size, 1_048_576);
}

#[test]
fn manifest_from_url_info_uneven_split() {
    let manifest = manifest_from_url_info(&info(2_500_000), "http://test", "partial.bin", 1_000_000);

    assert_eq!(manifest.chunk_count(), 3);
    assert_eq!(manifest.chunks[0].size, 1_000_000);
    assert_eq!(manifest.chunks[1].size, 1_000_000);
    assert_eq!(manifest.chunks[2].size, 500_000);
    assert_eq!(manifest.chunks[2].offset, 2_000_000);
}

#[test]
fn manifest_total_size_matches() {
    let manifest = manifest_from_url_info(&info(10_000_000), "http://test", "large.bin", 1_048_576);

    let total: u64 = manifest.chunks.iter().map(|c| c.size as u64).sum();
    assert_eq!(total, 10_000_000);
}

#[test]
fn manifest_single_chunk() {
    let manifest = manifest_from_url_info(&info(500), "http://test", "tiny.bin", 1_048_576);

    assert_eq!(manifest.chunk_count(), 1);
    assert_eq!(manifest.chunks[0].size, 500);
}

#[test]
fn url_manifest_source_and_zero_digests() {
    let mut i = info(10);
    i.etag = Some("\"v1\"".into());
    let manifest = manifest_from_url_info(&i, "http://host/a.bin", "a.bin", 4);
    assert_eq!(manifest.name, "a.bin");
    assert_eq!(manifest.chunks.iter().map(|c| c.size).collect::<Vec<_>>(), vec![4, 4, 2]);
    assert!(manifest.chunks.iter().all(|c| c.hash == [0u8; 32]));
    assert_eq!(manifest.file_hash, [0u8; 32]);
    match &manifest.source {
        ManifestSource::HttpUrl { url, mirrors, etag, last_modified } => {
            assert_eq!(url, "http://host/a.bin");
            assert!(mirrors.is_empty());
            assert_eq!(etag.as_deref(), Some("\"v1\""));
            assert!(last_modified.is_none());
        }
        _ => panic!("expected an HTTP source"),
    }
}

#[test]
fn empty_resource_has_no_chunks() {
    let manifest = manifest_from_url_info(&info(0), "http://test", "none", 0);
    assert_eq!(manifest.chunk_count(), 0);
}

#[test]
fn probe_full_range_server() {
    let mut h = head(200);
    h.content_length = bytes("12345");
    h.accept_ranges = bytes("bytes");
    h.etag = bytes("\"abc\"");
    h.content_type = bytes("application/octet-stream");
    let i = classify_head("https://example.com/dir/file.iso?x=1", &h).unwrap();
    assert_eq!(i.tier, ServerTier::Tier1FullRange);
    assert_eq!(i.total_size, 12345);
    assert!(i.supports_ranges);
    assert_eq!(i.etag.as_deref(), Some("\"abc\""));
    assert_eq!(i.content_type.as_deref(), Some("application/octet-stream"));
    assert_eq!(i.suggested_filename.as_deref(), Some("file.iso"));
}

#[test]
fn probe_without_ranges_is_content_length_only() {
    let mut h = head(204);
    h.content_length = bytes("7");
    h.accept_ranges = bytes("none");
    h.content_disposition = bytes("attachment; filename=\"report.pdf\"");
    let i = classify_head("https://example.com/download", &h).unwrap();
    assert_eq!(i.tier, ServerTier::Tier2ContentLengthOnly);
    assert!(!i.supports_ranges);
    assert_eq!(i.suggested_filename.as_deref(), Some("report.pdf"));
}

#[test]
fn probe_redirect_and_unauthorized() {
    for status in [301u16, 302, 307, 401] {
        let i = classify_head("https://example.com/x", &head(status)).unwrap();
        assert_eq!(i.tier, ServerTier::Tier4Redirect);
        assert_eq!(i.total_size, 0);
        assert!(!i.supports_ranges);
        assert!(i.suggested_filename.is_none());
    }
}

#[test]
fn probe_errors() {
    assert_eq!(classify_head("u", &head(404)).unwrap_err(), ProbeError::Status(404));
    assert_eq!(classify_head("u", &head(500)).unwrap_err(), ProbeError::Status(500));
    assert_eq!(classify_head("u", &head(200)).unwrap_err(), ProbeError::NoContentLength);
    let mut zero = head(200);
    zero.content_length = bytes("0");
    assert_eq!(classify_head("u", &zero).unwrap_err(), ProbeError::NoContentLength);
    let mut junk = head(200);
    junk.content_length = bytes("12a");
    assert_eq!(classify_head("u", &junk).unwrap_err(), ProbeError::NoContentLength);
}

#[test]
fn probe_name_needs_a_dot() {
    let mut h = head(200);
    h.content_length = bytes("1");
    let i = classify_head("https://example.com/folder/", &h).unwrap();
    assert!(i.suggested_filename.is_none());
    let j = classify_head("https://example.com/README", &h).unwrap();
    assert!(j.suggested_filename.is_none());
}
