use sha2::Digest;
use snap_pipeline::catalog::{record_publication, Metadata};
use snap_pipeline::catalog::Snapshot;
use snap_pipeline::clock::parse_rfc3339;
use snap_pipeline::codec::{encode_catalog, encode_session, parse_session};
use snap_pipeline::distribution::{find_snapshot, list};
use snap_pipeline::node_type::NodeType;
use snap_pipeline::uploader::{plan_begin, BeginAction, UploadRun};

fn reference_hex(data: &[u8]) -> String {
    let out = sha2::Sha256::digest(data);
    let mut hex = String::new();
    for b in out.as_slice() {
        hex.push_str(&format!("{:02x}", b));
    }
    hex
}

/// One simulated publication: probe, chunked upload with checkpointing,
/// digest, then the catalog append with retention.
fn publish(
    catalog: &Metadata,
    content: &[u8],
    name: &str,
    category: NodeType,
    time: &str,
    keep: usize,
) -> (Metadata, Vec<Snapshot>, String) {
    assert_eq!(plan_begin(false, None), BeginAction::Fresh);
    let mut run = UploadRun::start(4, content.len() as u64, 0);
    while !run.done() {
        let len = run.next_chunk_len() as usize;
        let off = run.committed as usize;
        let transferred = run.apply_chunk(&content[off..off + len]);
        assert!(transferred);
        // The checkpoint written after each acknowledged chunk survives a
        // crash: its document round-trips through the session codec.
        let checkpoint = run.checkpoint(&format!("sess/{name}").to_string());
        let doc = encode_session(&checkpoint);
        let back = parse_session(&doc).expect("own checkpoint must parse");
        assert_eq!(back.committed_offset, run.committed);
    }
    let digest = run.finish();
    let entry = Snapshot {
        file_name: name.to_string(),
        sha256: digest.clone(),
        node_type: category,
        created_at: parse_rfc3339(time).unwrap(),
        upload_time: time.to_string(),
    };
    let (updated, evicted) = record_publication(catalog, entry, keep).expect("fresh name");
    (updated, evicted, digest)
}

#[test]
fn publish_record_list_cycle() {
    let keep = 1;
    let catalog = Metadata { snapshots: vec![] };

    let (catalog, evicted, d1) = publish(
        &catalog,
        b"first snapshot bytes",
        "a1.tar.lz4",
        NodeType::Beacond,
        "2024-03-01T00:00:00+00:00",
        keep,
    );
    assert!(evicted.is_empty());
    assert_eq!(d1, reference_hex(b"first snapshot bytes"));

    let (catalog, evicted, d2) = publish(
        &catalog,
        b"second snapshot bytes",
        "a2.tar.lz4",
        NodeType::Beacond,
        "2024-03-02T00:00:00+00:00",
        keep,
    );
    // keep=1: the older artifact is evicted, and only then deleted.
    assert_eq!(evicted.len(), 1);
    assert_eq!(evicted[0].file_name, "a1.tar.lz4");
    assert_eq!(d2, reference_hex(b"second snapshot bytes"));

    // The persisted document read back by the distribution service shows
    // exactly the committed catalog.
    let doc = encode_catalog(&catalog);
    let served = list(Some(&doc));
    assert_eq!(served.snapshots.len(), 1);
    assert_eq!(served.snapshots[0].file_name, "a2.tar.lz4");
    assert_eq!(served.snapshots[0].sha256, d2);
    assert_eq!(find_snapshot(&served, "a2.tar.lz4"), Ok(0));
    assert!(find_snapshot(&served, "a1.tar.lz4").is_err());
}
