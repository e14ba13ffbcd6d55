use pulsar_topic_health::snapshot::{
    filename_for, is_snapshot, latest, prune, SnapshotError,
};

/// The files left in a directory of `names` once the pruned ones are gone.
fn pruned(names: Vec<String>, max_files: usize) -> Vec<String> {
    let gone = prune(&names, max_files);
    names.into_iter().filter(|n| !gone.contains(n)).collect()
}

#[test]
fn filename_is_filesystem_safe() {
    assert_eq!(filename_for("2026-07-30T11:42:07Z"), "pth-20260730T114207Z.json");
}

#[test]
fn writes_and_prunes_to_max() {
    // Ten snapshots at distinct timestamps, keep 3.
    let mut files: Vec<String> = Vec::new();
    for i in 0..10 {
        let ts = format!("2026-07-30T11:{:02}:00Z", i);
        files.push(filename_for(&ts));
        files = pruned(files, 3);
    }
    files.sort();
    assert_eq!(files.len(), 3, "should keep only 3 newest");
    // The three kept are the newest timestamps (07, 08, 09).
    assert_eq!(files[0], "pth-20260730T110700Z.json");
    assert_eq!(files[2], "pth-20260730T110900Z.json");
}

#[test]
fn max_zero_keeps_all() {
    let mut files: Vec<String> = Vec::new();
    for i in 0..5 {
        let ts = format!("2026-07-30T12:{:02}:00Z", i);
        files.push(filename_for(&ts));
        files = pruned(files, 0);
    }
    assert_eq!(files.len(), 5);
}

#[test]
fn prune_ignores_foreign_files() {
    let mut files: Vec<String> = vec!["keep-me.txt".to_string()];
    for i in 0..5 {
        let ts = format!("2026-07-30T13:{:02}:00Z", i);
        files.push(filename_for(&ts));
        files = pruned(files, 2);
    }
    assert!(files.contains(&"keep-me.txt".to_string()), "foreign file must survive");
    let snaps = files.iter().filter(|n| is_snapshot(n)).count();
    assert_eq!(snaps, 2);
}

// ── Further cases ────────────────────────────────────────────────────────────

#[test]
fn latest_is_the_newest_snapshot() {
    let files: Vec<String> = vec![
        "zzz.json".to_string(),
        filename_for("2026-07-30T13:00:00Z"),
        filename_for("2026-07-30T13:05:00Z"),
        filename_for("2026-07-30T12:59:59Z"),
    ];
    assert_eq!(latest(&files), Some(filename_for("2026-07-30T13:05:00Z")));
    assert_eq!(latest(&vec!["zzz.json".to_string()]), None);
}

#[test]
fn snapshot_names() {
    assert!(is_snapshot("pth-.json"));
    assert!(!is_snapshot("pth-1.jsonl"));
    assert!(!is_snapshot("xpth-1.json"));
    // Overlap of the two ends counts only where both fit.
    assert!(!is_snapshot("pth-json"));
}

#[test]
fn snapshot_errors_name_the_path() {
    let e = SnapshotError::CreateDir { path: "d".to_string(), source: "full".to_string() };
    assert_eq!(e.message(), "failed to create snapshot dir d: full");
    let e = SnapshotError::Write { path: "f".to_string(), source: "full".to_string() };
    assert_eq!(e.message(), "failed to write snapshot f: full");
    let e = SnapshotError::Serialize("odd".to_string());
    assert_eq!(e.message(), "failed to serialize snapshot: odd");
}
