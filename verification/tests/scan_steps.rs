use quickfox_core::index_entry::{IndexFailure, IndexReport, IndexScanStats, IndexedEntry, IndexedEntryKind, PathComparisonMode, ScanEvent};
use quickfox_core::index_scanner::{exclude_globs, IndexPathRules};
use quickfox_core::scan_steps::{
    single_file_report, sort_report_entries, unreadable_target_report, DirectoryScan, StreamBatch, STREAM_BATCH_SIZE,
};

fn rules(root: &str, patterns: &[&str]) -> IndexPathRules {
    let patterns: Vec<String> = patterns.iter().map(|p| p.to_string()).collect();
    IndexPathRules {
        roots: vec![root.to_owned()],
        root_candidates: vec![(root.to_owned(), 0)],
        exclude_dirs: Vec::new(),
        exclude_globs: exclude_globs(&patterns).unwrap(),
        respect_project_ignores: false,
    }
}

fn entry(path: &str, kind: IndexedEntryKind) -> IndexedEntry {
    IndexedEntry::from_path_metadata(path, "/r", kind, None, None)
}

fn stats(scanned: usize, accepted: usize, skipped: usize, failures: usize) -> IndexScanStats {
    IndexScanStats { scanned, accepted, skipped, failures }
}

#[test]
fn excluded_entries_are_skipped_without_inspection() {
    let mut report = IndexReport::default();
    let mut scan = DirectoryScan::start(Vec::new());
    let rules = rules("/r", &["*.tmp"]);
    assert!(!scan.found(&mut report, &rules, PathComparisonMode::Native, "/r/a.tmp"));
    assert!(scan.found(&mut report, &rules, PathComparisonMode::Native, "/r/a.txt"));
    assert!(!scan.found(&mut report, &rules, PathComparisonMode::Native, "/r/.git"));
    assert_eq!(report.scan_stats, stats(0, 0, 2, 0));
    assert_eq!(scan.stats, stats(0, 0, 2, 0));
}

#[test]
fn accepted_directories_are_visited_next_in_key_order() {
    let mut report = IndexReport::default();
    let mut scan = DirectoryScan::start(Vec::new());
    assert!(scan.inspected(&mut report, "/r/zeta".to_owned(), Some(entry("/r/zeta", IndexedEntryKind::Directory)), true).is_none());
    assert!(scan.inspected(&mut report, "/r/a.txt".to_owned(), Some(entry("/r/a.txt", IndexedEntryKind::File)), false).is_none());
    assert!(scan.inspected(&mut report, "/r/alpha".to_owned(), Some(entry("/r/alpha", IndexedEntryKind::Directory)), true).is_none());
    assert!(scan.inspected(&mut report, "/r/odd".to_owned(), None, false).is_none());
    assert_eq!(report.scan_stats, stats(4, 3, 1, 0));
    let outcome = scan.finish(&mut report, PathComparisonMode::Native);
    assert_eq!(outcome.discovered, vec!["/r/alpha".to_owned(), "/r/zeta".to_owned()]);
    assert_eq!(outcome.batch.map(|batch| batch.len()), Some(3));
    assert_eq!(outcome.stats, stats(4, 3, 1, 0));
    assert_eq!(outcome.failure, None);
}

#[test]
fn entries_are_handed_out_once_a_batch_is_full() {
    let mut report = IndexReport::default();
    let mut scan = DirectoryScan::start(Vec::new());
    for index in 0..STREAM_BATCH_SIZE - 1 {
        let path = format!("/r/f{index}");
        assert!(scan.inspected(&mut report, path.clone(), Some(entry(&path, IndexedEntryKind::File)), false).is_none());
    }
    let batch = scan.inspected(&mut report, "/r/last".to_owned(), Some(entry("/r/last", IndexedEntryKind::File)), false);
    assert_eq!(batch.map(|batch| batch.len()), Some(STREAM_BATCH_SIZE));
    assert!(scan.pending.is_empty());
    let outcome = scan.finish(&mut report, PathComparisonMode::Native);
    assert!(outcome.batch.is_none());
}

#[test]
fn a_failed_directory_drops_its_pending_entries_and_subdirectories() {
    let mut report = IndexReport::default();
    let mut scan = DirectoryScan::start(Vec::new());
    scan.inspected(&mut report, "/r/sub".to_owned(), Some(entry("/r/sub", IndexedEntryKind::Directory)), true);
    let failure = IndexFailure { root: "/r".to_owned(), message: "denied".to_owned() };
    scan.failed(failure.clone());
    let outcome = scan.finish(&mut report, PathComparisonMode::Native);
    assert!(outcome.batch.is_none());
    assert!(outcome.discovered.is_empty());
    assert_eq!(outcome.stats, stats(1, 1, 0, 1));
    assert_eq!(outcome.failure, Some(failure.clone()));
    assert_eq!(report.scan_stats, stats(1, 1, 0, 1));
    assert_eq!(report.failures, vec![failure.clone()]);
    assert_eq!(report.scan_events, vec![ScanEvent::Failure(failure)]);
}

#[test]
fn retained_batches_stay_in_the_report() {
    let mut report = IndexReport::default();
    let mut batch = StreamBatch::new(true);
    assert!(!batch.accept(&mut report, entry("/r/a", IndexedEntryKind::File)));
    batch.handed_out(&mut report);
    assert_eq!(report.entries.len(), 1);
    assert_eq!(report.scan_stats, stats(1, 1, 0, 0));

    let mut dropped = IndexReport::default();
    let mut batch = StreamBatch::new(false);
    batch.accept(&mut dropped, entry("/r/a", IndexedEntryKind::File));
    batch.handed_out(&mut dropped);
    assert!(dropped.entries.is_empty());
    assert!(batch.pending.is_empty());
}

#[test]
fn a_single_file_target_is_scanned_once() {
    let accepted = single_file_report(Some(entry("/r/a.txt", IndexedEntryKind::File)));
    assert_eq!(accepted.scan_stats, stats(1, 1, 0, 0));
    assert_eq!(accepted.entries.len(), 1);
    let skipped = single_file_report(None);
    assert_eq!(skipped.scan_stats, stats(1, 0, 1, 0));
    assert!(skipped.entries.is_empty());
}

#[test]
fn report_entries_are_sorted_by_path_then_name() {
    let mut report = IndexReport::default();
    report.entries = vec![
        entry("/r/b", IndexedEntryKind::File),
        entry("/r/a/z", IndexedEntryKind::File),
        entry("/r/a", IndexedEntryKind::Directory),
    ];
    sort_report_entries(&mut report);
    let paths: Vec<&str> = report.entries.iter().map(|e| e.path.as_str()).collect();
    assert_eq!(paths, vec!["/r/a", "/r/a/z", "/r/b"]);
}

#[test]
fn an_unreadable_target_is_reported_as_one_failure() {
    let missing = unreadable_target_report("/r/gone".to_owned(), true, "No such file".to_owned());
    assert_eq!(missing.failures, vec![IndexFailure { root: "/r/gone".to_owned(), message: "target path is not accessible".to_owned() }]);
    assert_eq!(missing.scan_stats, stats(0, 0, 0, 1));
    let denied = unreadable_target_report("/r/locked".to_owned(), false, "permission denied".to_owned());
    assert_eq!(denied.failures[0].message, "permission denied");
    assert!(denied.entries.is_empty());
}
