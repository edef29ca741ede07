use quickfox_core::index_entry::{IndexFailure, IndexReport, IndexScanStats, ScanEvent};
use quickfox_core::index_entry::PathComparisonMode;
use quickfox_core::index_scanner::{
    delta_stats, exclude_glob_set, exclude_globs, is_forced_excluded, ExcludeGlobError, is_inside_app_bundle, patterns_exclude, push_failure,
    IndexPathRules, IndexScanPlan, IndexScanStage,
};

fn rules(roots: &[&str], exclude_dirs: &[&str], patterns: &[&str]) -> IndexPathRules {
    let patterns: Vec<String> = patterns.iter().map(|p| p.to_string()).collect();
    IndexPathRules {
        roots: roots.iter().map(|r| r.to_string()).collect(),
        root_candidates: roots.iter().enumerate().map(|(i, r)| (r.to_string(), i)).collect(),
        exclude_dirs: exclude_dirs.iter().map(|d| d.to_string()).collect(),
        exclude_globs: exclude_globs(&patterns).unwrap(),
        respect_project_ignores: true,
    }
}

#[test]
fn exclude_patterns_are_lowercased_and_also_matched_below_any_directory() {
    let globs = exclude_globs(&["*.TMP".to_owned(), "build/out".to_owned()]).unwrap();
    assert_eq!(globs, vec!["*.tmp".to_owned(), "**/*.tmp".to_owned(), "build/out".to_owned()]);
}

#[test]
fn an_unparsable_exclude_pattern_is_reported() {
    assert_eq!(exclude_globs(&["ok".to_owned(), "a[".to_owned()]), Err("a[".to_owned()));
}

#[test]
fn exclude_globs_match_the_file_name_or_the_whole_path_ignoring_case() {
    let globs = exclude_globs(&["*.tmp".to_owned(), "docs/private".to_owned()]).unwrap();
    assert!(patterns_exclude(&globs, "/root/cache/Scratch.TMP"));
    assert!(patterns_exclude(&globs, "docs/private"));
    assert!(!patterns_exclude(&globs, "/root/docs/notes.md"));
}

#[test]
fn the_deepest_configured_root_is_chosen_and_ties_go_to_the_last() {
    let r = rules(&["/root", "/root/projects", "/root/projects/"], &[], &[]);
    assert_eq!(r.configured_root_match_for_mode("/root/projects/a.md", PathComparisonMode::Native), Some(2));
    assert_eq!(r.configured_root_match_for_mode("/root/other/a.md", PathComparisonMode::Native), Some(0));
    assert_eq!(r.configured_root_match_for_mode("/elsewhere/a.md", PathComparisonMode::Native), None);
}

#[test]
fn exclusion_checks_ancestors_up_to_the_configured_root() {
    let r = rules(&["/root"], &["/root/skip"], &["*.tmp", "cache"]);
    assert!(r.is_excluded_for_mode("/root/skip/deep/file.md", PathComparisonMode::Native));
    assert!(r.is_excluded_for_mode("/root/work/cache/file.md", PathComparisonMode::Native));
    assert!(r.is_excluded_for_mode("/root/work/a.TMP", PathComparisonMode::Native));
    assert!(r.is_excluded_for_mode("/root/node_modules/pkg/index.js", PathComparisonMode::Native));
    assert!(r.is_excluded_for_mode("/root/Tool.app/Contents/Info.plist", PathComparisonMode::Native));
    assert!(!r.is_excluded_for_mode("/root/work/notes.md", PathComparisonMode::Native));
}

#[test]
fn the_configured_root_itself_is_not_checked_against_exclusions() {
    let r = rules(&["/data/cache"], &[], &["cache"]);
    assert!(!r.is_excluded_for_mode("/data/cache/file.md", PathComparisonMode::Native));
    assert!(r.is_excluded_for_mode("/data/cache/cache/file.md", PathComparisonMode::Native));
}

#[test]
fn forced_exclusions_match_file_names_in_any_case() {
    assert!(is_forced_excluded("/repo/.git"));
    assert!(is_forced_excluded("/repo/Node_Modules/"));
    assert!(is_forced_excluded("C:/$Recycle.Bin"));
    assert!(!is_forced_excluded("/repo/.github"));
    assert!(!is_forced_excluded("/"));
    assert!(!is_forced_excluded("/repo/target/.."));
}

#[test]
fn app_bundle_internals_are_detected_from_ancestors_only() {
    assert!(is_inside_app_bundle("/Applications/Safari.app/Contents/Info.plist"));
    assert!(!is_inside_app_bundle("/Applications/Safari.app"));
    assert!(is_inside_app_bundle("/opt/tool.EXE/data"));
    assert!(!is_inside_app_bundle("/home/u/notes.txt"));
}

#[test]
fn delta_stats_saturate() {
    let before = IndexScanStats { scanned: 5, accepted: 3, skipped: 1, failures: 2 };
    let after = IndexScanStats { scanned: 9, accepted: 3, skipped: 0, failures: 4 };
    assert_eq!(
        delta_stats(&before, &after),
        IndexScanStats { scanned: 4, accepted: 0, skipped: 0, failures: 2 }
    );
}

#[test]
fn push_failure_counts_reports_and_keeps() {
    let mut report = IndexReport::default();
    let failure = IndexFailure { root: "/r".to_owned(), message: "denied".to_owned() };
    push_failure(&mut report, failure.clone());
    assert_eq!(report.scan_stats.failures, 1);
    assert_eq!(report.failures, vec![failure.clone()]);
    assert_eq!(report.scan_events, vec![ScanEvent::Failure(failure)]);
}

#[test]
fn plan_defaults_respect_project_ignores() {
    let plan = IndexScanPlan::default();
    assert!(plan.respect_project_ignores);
    assert!(plan.include_roots.is_empty());
    let stage = IndexScanStage::new("hot".to_owned(), 2);
    assert_eq!(stage.root_priority, 2);
}

use quickfox_core::index_scanner::{
    count_entry, discovered_in_key_order, record_directory_failure, tally_entry, EntryTally, ScanFrontier,
};

#[test]
fn discovered_directories_come_in_key_order_once_per_key() {
    let found = vec!["/r/b".to_owned(), "/r/a/".to_owned(), "/r/b/".to_owned(), "/r/a".to_owned()];
    assert_eq!(
        discovered_in_key_order(&found, PathComparisonMode::Native),
        vec!["/r/a/".to_owned(), "/r/b".to_owned()]
    );
}

#[test]
fn the_frontier_queues_each_key_once_while_it_is_pending() {
    let mut frontier = ScanFrontier::new(vec!["/r".to_owned()], PathComparisonMode::Native);
    assert!(!frontier.enqueue("/r/".to_owned()));
    assert!(frontier.enqueue("/r/a".to_owned()));
    assert_eq!(frontier.pop(), Some("/r".to_owned()));
    assert!(frontier.enqueue("/r".to_owned()));
    assert_eq!(frontier.pop(), Some("/r/a".to_owned()));
    assert_eq!(frontier.pop(), Some("/r".to_owned()));
    assert_eq!(frontier.pop(), None);
}

#[test]
fn entries_are_tallied_in_both_statistics() {
    let mut total = IndexScanStats { scanned: 5, accepted: 3, skipped: 1, failures: 0 };
    let mut directory = IndexScanStats::default();
    tally_entry(&mut total, &mut directory, EntryTally::Excluded);
    tally_entry(&mut total, &mut directory, EntryTally::Unindexable);
    tally_entry(&mut total, &mut directory, EntryTally::Accepted);
    assert_eq!(total, IndexScanStats { scanned: 7, accepted: 4, skipped: 3, failures: 0 });
    assert_eq!(directory, IndexScanStats { scanned: 2, accepted: 1, skipped: 2, failures: 0 });

    let mut saturated = IndexScanStats { scanned: usize::MAX, accepted: usize::MAX, skipped: 0, failures: 0 };
    tally_entry(&mut saturated, &mut directory, EntryTally::Accepted);
    assert_eq!(saturated.scanned, usize::MAX);
    assert_eq!(saturated.accepted, usize::MAX);
}

#[test]
fn a_failed_directory_is_counted_and_reported() {
    let mut report = IndexReport::default();
    let mut directory = IndexScanStats::default();
    let failure = IndexFailure { root: "/r/locked".to_owned(), message: "denied".to_owned() };
    record_directory_failure(&mut report, &mut directory, failure.clone());
    assert_eq!(report.scan_stats.failures, 1);
    assert_eq!(directory.failures, 1);
    assert_eq!(report.failures, vec![failure.clone()]);
    assert_eq!(report.scan_events, vec![ScanEvent::Failure(failure)]);
}

#[test]
fn entries_are_counted_one_by_one() {
    let mut stats = IndexScanStats::default();
    count_entry(&mut stats, EntryTally::Accepted);
    count_entry(&mut stats, EntryTally::Unindexable);
    count_entry(&mut stats, EntryTally::Excluded);
    assert_eq!(stats, IndexScanStats { scanned: 2, accepted: 1, skipped: 2, failures: 0 });
}

#[test]
fn exclude_patterns_are_checked_as_one_glob_set() {
    assert_eq!(
        exclude_glob_set(&["*.TMP".to_owned(), "build/out".to_owned()]),
        Ok(vec!["*.tmp".to_owned(), "**/*.tmp".to_owned(), "build/out".to_owned()])
    );
    assert_eq!(
        exclude_glob_set(&["ok".to_owned(), "a[".to_owned()]),
        Err(ExcludeGlobError::InvalidGlob("a[".to_owned()))
    );
    assert_eq!(exclude_glob_set(&[]), Ok(Vec::new()));
}
