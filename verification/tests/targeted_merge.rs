use quickfox_core::index_entry::{IndexFailure, IndexedEntry, IndexedEntryKind};
use quickfox_core::targeted_merge::{merge_targeted_scan_result_with_work, DirectoryFingerprint, TargetedScanResult};

fn entry(path: &str) -> IndexedEntry {
    IndexedEntry::legacy(path, path.rsplit('/').next().unwrap(), IndexedEntryKind::File)
}

fn paths(entries: &[IndexedEntry]) -> Vec<&str> {
    entries.iter().map(|e| e.path.as_str()).collect()
}

#[test]
fn dirty_root_large_merge_uses_bounded_ancestor_work() {
    let count = 10_000;
    let mut target = TargetedScanResult {
        upserts: (0..count)
            .map(|index| IndexedEntry::legacy(&format!("/tmp/root/file-{index}.md"), &format!("file-{index}.md"), IndexedEntryKind::File))
            .collect(),
        ..TargetedScanResult::default()
    };
    let source = TargetedScanResult {
        upserts: (0..count)
            .map(|index| IndexedEntry::legacy(&format!("/tmp/root/file-{index}.md"), &format!("file-{index}.md"), IndexedEntryKind::File))
            .collect(),
        ..TargetedScanResult::default()
    };

    let ancestor_work = merge_targeted_scan_result_with_work(&mut target, source);

    assert_eq!(target.upserts.len(), count);
    assert!(ancestor_work <= count * 10);
}

#[test]
fn a_removal_drops_earlier_upserts_below_it_and_covered_removals() {
    let mut target = TargetedScanResult {
        upserts: vec![entry("/r/a/one.md"), entry("/r/b/two.md")],
        removals: vec!["/r/a/old".to_owned()],
        ..TargetedScanResult::default()
    };
    let source = TargetedScanResult {
        removals: vec!["/r/a".to_owned()],
        failures: vec![IndexFailure { root: "/r".to_owned(), message: "denied".to_owned() }],
        ..TargetedScanResult::default()
    };
    merge_targeted_scan_result_with_work(&mut target, source);
    assert_eq!(paths(&target.upserts), vec!["/r/b/two.md"]);
    assert_eq!(target.removals, vec!["/r/a".to_owned()]);
    assert_eq!(target.failures.len(), 1);
}

#[test]
fn a_new_upsert_revives_its_removed_ancestors() {
    let mut target = TargetedScanResult { removals: vec!["/r/a".to_owned(), "/r/z".to_owned()], ..TargetedScanResult::default() };
    let source = TargetedScanResult { upserts: vec![entry("/r/a/new.md")], ..TargetedScanResult::default() };
    merge_targeted_scan_result_with_work(&mut target, source);
    assert_eq!(paths(&target.upserts), vec!["/r/a/new.md"]);
    assert_eq!(target.removals, vec!["/r/z".to_owned()]);
}

#[test]
fn later_rows_replace_earlier_ones_and_come_out_in_key_order() {
    let mut newer = entry("/r/b.md");
    newer.size_bytes = Some(7);
    let mut target = TargetedScanResult { upserts: vec![entry("/r/c.md"), entry("/r/b.md")], ..TargetedScanResult::default() };
    let source = TargetedScanResult {
        upserts: vec![newer.clone(), entry("/r/a.md")],
        manifest_upserts: vec![DirectoryFingerprint { path: "/r".to_owned(), parent: None, root: "/r".to_owned(), modified_ms: Some(1) }],
        ..TargetedScanResult::default()
    };
    merge_targeted_scan_result_with_work(&mut target, source);
    assert_eq!(paths(&target.upserts), vec!["/r/a.md", "/r/b.md", "/r/c.md"]);
    assert_eq!(target.upserts[1], newer);
    assert_eq!(target.manifest_upserts.len(), 1);
}
