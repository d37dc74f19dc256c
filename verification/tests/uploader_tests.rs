use sha2::Digest;
use snap_pipeline::digest::{sha256_hex, Digester};
use snap_pipeline::uploader::{plan_begin, BeginAction, UploadRun, UploadSession};

/// SHA-256 hex computed through sha2 directly, independent of the library.
fn reference_sha256_hex(data: &[u8]) -> String {
    let out = sha2::Sha256::digest(data);
    let mut hex = String::new();
    for b in out.as_slice() {
        hex.push_str(&format!("{:02x}", b));
    }
    hex
}

fn run_upload(content: &[u8], chunk_size: u64, resume_offset: u64) -> (String, Vec<bool>) {
    let mut run = UploadRun::start(chunk_size, content.len() as u64, resume_offset);
    let mut transfers = vec![];
    while !run.done() {
        let len = run.next_chunk_len() as usize;
        let off = run.committed as usize;
        let chunk = &content[off..off + len];
        transfers.push(run.apply_chunk(chunk));
    }
    (run.finish(), transfers)
}

#[test]
fn digest_matches_independent_hash() {
    // A successful publish returns exactly the hash of the full content.
    let content: Vec<u8> = (0..1000u32).map(|i| (i % 251) as u8).collect();
    let (digest, transfers) = run_upload(&content, 128, 0);
    assert_eq!(digest, reference_sha256_hex(&content));
    assert_eq!(transfers.len(), 8);
    assert!(transfers.iter().all(|&t| t));
}

#[test]
fn known_answer_digests() {
    assert_eq!(
        sha256_hex(b""),
        "e3b0c44298fc1c149afbf4c8996fb92427ae41e4649b934ca495991b7852b855"
    );
    assert_eq!(
        sha256_hex(b"abc"),
        "ba7816bf8f01cfea414140de5dae2223b00361a396177a9cb410ff61f20015ad"
    );
}

#[test]
fn streaming_digester_equals_one_shot() {
    let mut d = Digester::new();
    d.update(b"hello ");
    d.update(b"world");
    assert_eq!(d.finalize_hex(), reference_sha256_hex(b"hello world"));
}

#[test]
fn resume_transfers_only_remaining_chunks_and_same_digest() {
    // A 300-byte file in 128-byte chunks, interrupted after chunk 1 of 3:
    // the resumed run transfers exactly chunks 2 and 3, and its digest
    // equals a clean single-pass upload of the same file.
    let content: Vec<u8> = (0..300u32).map(|i| (i * 7 % 256) as u8).collect();

    // First run: crash right after chunk 1 was acknowledged.
    let mut first = UploadRun::start(128, 300, 0);
    let transferred = first.apply_chunk(&content[0..128]);
    assert!(transferred);
    let session = first.checkpoint(&"sess-url".to_string());
    assert_eq!(session.committed_offset, 128);

    // Resumed run: digest everything, send only what is still missing.
    let (resumed_digest, transfers) = run_upload(&content, 128, session.committed_offset);
    assert_eq!(transfers, vec![false, true, true]);

    // Uninterrupted run over the same input.
    let (clean_digest, clean_transfers) = run_upload(&content, 128, 0);
    assert_eq!(clean_transfers, vec![true, true, true]);

    assert_eq!(resumed_digest, clean_digest);
    assert_eq!(resumed_digest, reference_sha256_hex(&content));
}

#[test]
fn resume_at_any_boundary_gives_same_digest() {
    let content: Vec<u8> = (0..500u32).map(|i| (i * 13 % 256) as u8).collect();
    let (clean, _) = run_upload(&content, 100, 0);
    for boundary in [100u64, 200, 300, 400, 500] {
        let (resumed, _) = run_upload(&content, 100, boundary);
        assert_eq!(resumed, clean);
    }
}

#[test]
fn existing_destination_is_skipped() {
    // A destination object that already exists means: return its reference
    // at once, transfer nothing.
    assert_eq!(plan_begin(true, None), BeginAction::AlreadyExists);
    let session = UploadSession { url: "u".to_string(), committed_offset: 42 };
    assert_eq!(plan_begin(true, Some(&session)), BeginAction::AlreadyExists);
    assert_eq!(plan_begin(false, Some(&session)), BeginAction::Resume { offset: 42 });
    assert_eq!(plan_begin(false, None), BeginAction::Fresh);
}

#[test]
fn empty_file_finishes_without_chunks() {
    let (digest, transfers) = run_upload(&[], 128, 0);
    assert!(transfers.is_empty());
    assert_eq!(digest, reference_sha256_hex(b""));
}
