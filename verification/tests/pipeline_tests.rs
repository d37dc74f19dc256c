use snap_pipeline::catalog::{Metadata, Snapshot};
use snap_pipeline::clock::local_date_tag;
use snap_pipeline::distribution::{artifact_path, find_snapshot, list, AppState};
use snap_pipeline::errors::PipelineError;
use snap_pipeline::node_type::NodeType;
use snap_pipeline::pipeline::{
    archive_excludes, archive_includes, archive_prefix, compose_file_path, delete_key,
    is_excluded, metadata_file_path, object_name, object_uri, path_join, session_file_name,
    snapshot_file_name, validate_destination,
};
use snap_pipeline::text::{is_json_plain, to_hex, u64_to_dec};

#[test]
fn node_type_tags() {
    assert_eq!(NodeType::Beacond.as_str(), "beacond");
    assert_eq!(NodeType::Reth.as_str(), "reth");
    assert_eq!(NodeType::from_tag(&"beacond".to_string()), Some(NodeType::Beacond));
    assert_eq!(NodeType::from_tag(&"reth".to_string()), Some(NodeType::Reth));
    assert_eq!(NodeType::from_tag(&"geth".to_string()), None);
    assert_eq!(NodeType::from_tag(&"".to_string()), None);
}

#[test]
fn object_naming() {
    assert_eq!(path_join("a", "b"), "a/b");
    let name = object_name("snapshots/mainnet", "x.tar.lz4");
    assert_eq!(name, "snapshots/mainnet/x.tar.lz4");
    assert_eq!(object_uri("bucket", &name), "bucket/snapshots/mainnet/x.tar.lz4");
}

#[test]
fn delete_key_strips_only_the_bucket_prefix() {
    assert_eq!(delete_key("bucket", "bucket/folder/x.tar.lz4"), "folder/x.tar.lz4");
    assert_eq!(delete_key("bucket", "other/folder/x.tar.lz4"), "other/folder/x.tar.lz4");
    assert_eq!(delete_key("bucket", "bucket"), "bucket");
}

#[test]
fn archive_naming_and_paths() {
    assert_eq!(archive_prefix(NodeType::Beacond), "pruned_snapshot");
    assert_eq!(archive_prefix(NodeType::Reth), "reth_snapshot");
    assert_eq!(
        snapshot_file_name(NodeType::Beacond, "01-02-24_03-04"),
        "pruned_snapshot_01-02-24_03-04.tar.lz4"
    );
    assert_eq!(
        snapshot_file_name(NodeType::Reth, "01-02-24_03-04"),
        "reth_snapshot_01-02-24_03-04.tar.lz4"
    );
    assert_eq!(compose_file_path("/node"), "/node/docker-compose.yml");
    assert_eq!(metadata_file_path("storage"), "storage/metadata.json");
    assert_eq!(session_file_name("x.tar.lz4"), "x.tar.lz4.session.json");
    assert_eq!(artifact_path("storage", "x.tar.lz4"), "storage/x.tar.lz4");
}

#[test]
fn archive_contents_per_category() {
    assert_eq!(archive_includes(NodeType::Beacond), vec!["./data/beacond/data"]);
    assert_eq!(
        archive_includes(NodeType::Reth),
        vec!["./data/reth/static_files", "./data/reth/db"]
    );
    assert_eq!(archive_excludes(NodeType::Beacond), vec!["priv_validator_state.json"]);
    assert!(archive_excludes(NodeType::Reth).is_empty());
}

#[test]
fn exclusion_is_by_suffix() {
    let excludes = vec!["priv_validator_state.json".to_string()];
    assert!(is_excluded("./data/beacond/data/priv_validator_state.json", &excludes));
    assert!(!is_excluded("./data/beacond/data/state.db", &excludes));
    assert!(!is_excluded("x", &vec![]));
}

#[test]
fn destination_validation() {
    let some = Some("v".to_string());
    assert!(validate_destination(false, &None, &None).is_ok());
    assert_eq!(validate_destination(true, &None, &some), Err(PipelineError::Config));
    assert_eq!(validate_destination(true, &some, &None), Err(PipelineError::Config));
    assert!(validate_destination(true, &some, &some).is_ok());
}

#[test]
fn find_snapshot_by_name() {
    let md = list(None);
    assert!(md.snapshots.is_empty());
    let md = Metadata {
        snapshots: vec![Snapshot {
            file_name: "a.tar.lz4".to_string(),
            sha256: "00".to_string(),
            node_type: NodeType::Beacond,
            created_at: 1,
            upload_time: "t".to_string(),
        }],
    };
    assert_eq!(find_snapshot(&md, "a.tar.lz4"), Ok(0));
    assert_eq!(find_snapshot(&md, "b.tar.lz4"), Err(PipelineError::NotFound));
}

#[test]
fn app_state_holds_storage_path() {
    let state = AppState::new("storage".to_string());
    assert_eq!(state.storage_path, "storage");
}

#[test]
fn date_tag_shape() {
    let tag = local_date_tag();
    assert_eq!(tag.len(), 14);
    assert!(tag.chars().all(|c| c.is_ascii_digit() || c == '-' || c == '_'));
}

#[test]
fn text_helpers() {
    assert_eq!(to_hex(&vec![0x00, 0xff, 0x1a]), "00ff1a");
    assert_eq!(to_hex(&vec![]), "");
    assert_eq!(u64_to_dec(0), "0");
    assert_eq!(u64_to_dec(134217728), "134217728");
    assert_eq!(u64_to_dec(u64::MAX), "18446744073709551615");
    assert!(is_json_plain("plain text 123 :/-_."));
    assert!(!is_json_plain("with \"quote\""));
    assert!(!is_json_plain("with \\ backslash"));
    assert!(!is_json_plain("with \n newline"));
}
