use snap_pipeline::catalog::{record_publication, Metadata, Snapshot};
use snap_pipeline::errors::PipelineError;
use snap_pipeline::node_type::NodeType;

fn snap(name: &str, category: NodeType, created_at: i64) -> Snapshot {
    Snapshot {
        file_name: name.to_string(),
        sha256: "00".repeat(32),
        node_type: category,
        created_at,
        upload_time: format!("t{}", created_at),
    }
}

fn names(md: &Metadata) -> Vec<String> {
    md.snapshots.iter().map(|s| s.file_name.clone()).collect()
}

#[test]
fn duplicate_name_reports_duplicate_entry() {
    let catalog = Metadata { snapshots: vec![snap("a.tar.lz4", NodeType::Beacond, 10)] };
    let r = record_publication(&catalog, snap("a.tar.lz4", NodeType::Beacond, 20), 5);
    assert!(matches!(r, Err(PipelineError::DuplicateEntry)));
    // The borrowed catalog is untouched by the failed append.
    assert_eq!(names(&catalog), vec!["a.tar.lz4".to_string()]);
}

#[test]
fn fresh_name_is_appended_and_sorted() {
    let catalog = Metadata {
        snapshots: vec![
            snap("new.tar.lz4", NodeType::Beacond, 30),
            snap("old.tar.lz4", NodeType::Beacond, 10),
        ],
    };
    let (updated, evicted) =
        record_publication(&catalog, snap("mid.tar.lz4", NodeType::Beacond, 20), 10).unwrap();
    assert_eq!(
        names(&updated),
        vec!["new.tar.lz4".to_string(), "mid.tar.lz4".to_string(), "old.tar.lz4".to_string()]
    );
    assert!(evicted.is_empty());
}

#[test]
fn keep_one_retains_only_newest_of_three() {
    // keep=1, one category, three publications at t1 < t2 < t3: after all
    // three only the t3 entry remains and the earlier two were evicted.
    let keep = 1;
    let empty = Metadata { snapshots: vec![] };
    let (c1, e1) = record_publication(&empty, snap("t1.tar.lz4", NodeType::Beacond, 1), keep).unwrap();
    assert!(e1.is_empty());
    let (c2, e2) = record_publication(&c1, snap("t2.tar.lz4", NodeType::Beacond, 2), keep).unwrap();
    assert_eq!(e2.len(), 1);
    assert_eq!(e2[0].file_name, "t1.tar.lz4");
    let (c3, e3) = record_publication(&c2, snap("t3.tar.lz4", NodeType::Beacond, 3), keep).unwrap();
    assert_eq!(e3.len(), 1);
    assert_eq!(e3[0].file_name, "t2.tar.lz4");
    assert_eq!(names(&c3), vec!["t3.tar.lz4".to_string()]);
}

#[test]
fn retention_counts_categories_independently() {
    let keep = 2;
    let mut catalog = Metadata { snapshots: vec![] };
    let mut all_evicted: Vec<String> = vec![];
    for (i, cat) in [
        (1, NodeType::Beacond),
        (2, NodeType::Reth),
        (3, NodeType::Beacond),
        (4, NodeType::Reth),
        (5, NodeType::Beacond),
        (6, NodeType::Reth),
    ] {
        let (next, evicted) =
            record_publication(&catalog, snap(&format!("f{i}"), cat, i), keep).unwrap();
        catalog = next;
        all_evicted.extend(evicted.into_iter().map(|s| s.file_name));
    }
    // Per category at most `keep` live entries, and exactly the newest ones.
    assert_eq!(names(&catalog), vec!["f6", "f5", "f4", "f3"]);
    assert_eq!(all_evicted, vec!["f1".to_string(), "f2".to_string()]);
}

#[test]
fn equal_timestamps_keep_insertion_order() {
    let catalog = Metadata {
        snapshots: vec![snap("first", NodeType::Beacond, 7), snap("second", NodeType::Beacond, 7)],
    };
    let (updated, evicted) =
        record_publication(&catalog, snap("third", NodeType::Beacond, 7), 2).unwrap();
    // The tie-break is stable: existing order kept, the newcomer last,
    // so the newcomer is the one evicted under keep=2.
    assert_eq!(names(&updated), vec!["first".to_string(), "second".to_string()]);
    assert_eq!(evicted.len(), 1);
    assert_eq!(evicted[0].file_name, "third");
}

#[test]
fn eviction_never_exceeds_keep_after_many_calls() {
    let keep = 3;
    let mut catalog = Metadata { snapshots: vec![] };
    for i in 0..20i64 {
        let cat = if i % 2 == 0 { NodeType::Beacond } else { NodeType::Reth };
        let (next, _) = record_publication(&catalog, snap(&format!("s{i}"), cat, i), keep).unwrap();
        catalog = next;
    }
    let beacond = catalog.snapshots.iter().filter(|s| s.node_type == NodeType::Beacond).count();
    let reth = catalog.snapshots.iter().filter(|s| s.node_type == NodeType::Reth).count();
    assert_eq!(beacond, 3);
    assert_eq!(reth, 3);
}
