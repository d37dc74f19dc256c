use snap_pipeline::catalog::{Metadata, Snapshot};
use snap_pipeline::clock::{now_rfc3339, parse_rfc3339};
use snap_pipeline::codec::{encode_catalog, encode_session, parse_catalog, parse_session};
use snap_pipeline::distribution::list;
use snap_pipeline::node_type::NodeType;
use snap_pipeline::uploader::UploadSession;

fn sample_snapshot(name: &str, category: NodeType, time: &str) -> Snapshot {
    let created_at = parse_rfc3339(time).expect("test timestamp must parse");
    Snapshot {
        file_name: name.to_string(),
        sha256: "ab".repeat(32),
        node_type: category,
        created_at,
        upload_time: time.to_string(),
    }
}

fn sample_catalog() -> Metadata {
    Metadata {
        snapshots: vec![
            sample_snapshot("pruned_snapshot_01-02-24_03-04.tar.lz4", NodeType::Beacond, "2024-02-01T03:04:05+00:00"),
            sample_snapshot("reth_snapshot_01-02-24_03-04.tar.lz4", NodeType::Reth, "2024-02-01T03:04:06+00:00"),
        ],
    }
}

#[test]
fn catalog_document_round_trips() {
    let md = sample_catalog();
    let doc = encode_catalog(&md);
    let back = parse_catalog(&doc).expect("own encoding must parse");
    assert_eq!(back.snapshots.len(), md.snapshots.len());
    for (a, b) in back.snapshots.iter().zip(md.snapshots.iter()) {
        assert_eq!(a.file_name, b.file_name);
        assert_eq!(a.sha256, b.sha256);
        assert_eq!(a.node_type, b.node_type);
        assert_eq!(a.created_at, b.created_at);
        assert_eq!(a.upload_time, b.upload_time);
    }
    // And the re-encoding is the identical text.
    assert_eq!(encode_catalog(&back), doc);
}

#[test]
fn empty_catalog_document_round_trips() {
    let md = Metadata { snapshots: vec![] };
    let doc = encode_catalog(&md);
    assert_eq!(doc, "{\"entries\":[]}");
    let back = parse_catalog(&doc).expect("empty document must parse");
    assert!(back.snapshots.is_empty());
}

#[test]
fn encoded_catalog_is_valid_json_for_serde() {
    let md = sample_catalog();
    let doc = encode_catalog(&md);
    let v: serde_json::Value = serde_json::from_str(&doc).expect("document must be JSON");
    let entries = v.get("entries").and_then(|e| e.as_array()).expect("entries array");
    assert_eq!(entries.len(), 2);
    assert_eq!(
        entries[0].get("fileName").and_then(|f| f.as_str()),
        Some("pruned_snapshot_01-02-24_03-04.tar.lz4")
    );
    assert_eq!(entries[0].get("category").and_then(|c| c.as_str()), Some("beacond"));
    assert_eq!(entries[1].get("category").and_then(|c| c.as_str()), Some("reth"));
    assert_eq!(
        entries[1].get("uploadTime").and_then(|u| u.as_str()),
        Some("2024-02-01T03:04:06+00:00")
    );
}

#[test]
fn malformed_documents_are_rejected() {
    assert!(parse_catalog("").is_none());
    assert!(parse_catalog("not json at all").is_none());
    assert!(parse_catalog("{\"entries\":").is_none());
    assert!(parse_catalog("{\"entries\":[]} trailing").is_none());
    // Unknown category tag.
    assert!(parse_catalog(
        "{\"entries\":[{\"fileName\":\"f\",\"sha256\":\"00\",\"category\":\"geth\",\"uploadTime\":\"2024-02-01T03:04:05+00:00\"}]}"
    ).is_none());
    // Timestamp that is no RFC 3339 text.
    assert!(parse_catalog(
        "{\"entries\":[{\"fileName\":\"f\",\"sha256\":\"00\",\"category\":\"reth\",\"uploadTime\":\"yesterday\"}]}"
    ).is_none());
    // Valid JSON, but not the canonical text: extra whitespace.
    assert!(parse_catalog("{\"entries\": []}").is_none());
    assert!(parse_catalog("{ \"entries\":[]}").is_none());
}

#[test]
fn list_is_total_over_missing_and_malformed_documents() {
    // A missing or malformed catalog document is an empty catalog, never
    // an error.
    assert!(list(None).snapshots.is_empty());
    assert!(list(Some("")).snapshots.is_empty());
    assert!(list(Some("{\"entries\":}")).snapshots.is_empty());
    assert!(list(Some("[1,2,3]")).snapshots.is_empty());
    let md = sample_catalog();
    let doc = encode_catalog(&md);
    let listed = list(Some(&doc));
    assert_eq!(listed.snapshots.len(), 2);
    assert_eq!(listed.snapshots[0].file_name, md.snapshots[0].file_name);
}

#[test]
fn session_document_round_trips() {
    let sess = UploadSession { url: "https://resume.example/abc".to_string(), committed_offset: 268435456 };
    let doc = encode_session(&sess);
    assert_eq!(doc, "{\"url\":\"https://resume.example/abc\",\"committedOffset\":268435456}");
    let back = parse_session(&doc).expect("own encoding must parse");
    assert_eq!(back.url, sess.url);
    assert_eq!(back.committed_offset, sess.committed_offset);
}

#[test]
fn malformed_session_documents_are_rejected() {
    assert!(parse_session("").is_none());
    assert!(parse_session("{\"url\":\"u\"}").is_none());
    assert!(parse_session("{\"url\":\"u\",\"committedOffset\":007}").is_none());
    assert!(parse_session("{\"url\":\"u\",\"committedOffset\":12} ").is_none());
}

#[test]
fn clock_wrapper_round_trips_through_parser() {
    let (secs, text) = now_rfc3339().expect("the current clock renders within the parser's range");
    assert_eq!(parse_rfc3339(&text), Some(secs));
}
