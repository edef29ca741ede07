use quickfox_core::index_entry::{IndexedEntry, IndexedEntryKind};
use quickfox_core::index_journal::{decimal_chars, replay_deltas};
use quickfox_core::layered_index::{CommittedIndexDelta, LayeredSearchIndex, LayeredSearchResults};

fn entry(path: &str) -> IndexedEntry {
    let name = path.rsplit('/').next().unwrap_or_default().to_owned();
    let mut entry = IndexedEntry::legacy("", "", IndexedEntryKind::File);
    entry.path = path.to_owned();
    entry.name = name;
    entry.kind = IndexedEntryKind::File;
    entry.parent = "/root".to_owned();
    entry.root = "/root".to_owned();
    entry
}

fn delta(generation: u64, upsert: IndexedEntry, removals: Vec<String>) -> CommittedIndexDelta {
    CommittedIndexDelta {
        generation,
        upserts: vec![upsert],
        removals,
    }
}

fn search_titles(index: &LayeredSearchIndex, query: &str) -> Vec<String> {
    match index.search(query, 20) {
        LayeredSearchResults::Entries(entries) => entries.into_iter().map(|entry| entry.name).collect(),
        other => panic!("unexpected search results {other:?}"),
    }
}

fn replay_error(batches: &[CommittedIndexDelta]) -> String {
    match replay_deltas(LayeredSearchIndex::default(), batches) {
        Err(error) => error,
        Ok(_) => panic!("the journal replayed"),
    }
}

#[test]
fn committed_generation_replay_is_ordered_and_idempotent_by_path() {
    let batches = vec![
        delta(
            2,
            entry("/root/current.md"),
            vec!["/root/old.md".to_owned()],
        ),
        delta(1, entry("/root/old.md"), Vec::new()),
    ];

    let once = replay_deltas(LayeredSearchIndex::default(), &batches).unwrap();
    let once_count = once.entry_count();
    let once_titles = search_titles(&once, "current");
    let twice = replay_deltas(once, &batches).unwrap();

    assert_eq!(search_titles(&twice, "current"), vec!["current.md"]);
    assert_eq!(once_titles, vec!["current.md"]);
    assert!(search_titles(&twice, "old").is_empty());
    assert_eq!(twice.entry_count(), once_count);
    assert_eq!(twice.generation(), 2);
}

#[test]
fn replay_applies_generations_in_increasing_order_whatever_the_journal_order() {
    let batches = vec![
        delta(3, entry("/root/third.md"), vec!["/root/first.md".to_owned()]),
        delta(1, entry("/root/first.md"), Vec::new()),
        delta(2, entry("/root/second.md"), Vec::new()),
    ];

    let index = replay_deltas(LayeredSearchIndex::default(), &batches).unwrap();

    let paths: Vec<String> = index.materialized_entries().into_iter().map(|entry| entry.path).collect();
    assert_eq!(paths, vec!["/root/second.md".to_owned(), "/root/third.md".to_owned()]);
    assert_eq!(index.generation(), 3);
}

#[test]
fn replay_accepts_repeated_identical_batches() {
    let batches = vec![
        delta(1, entry("/root/same.md"), Vec::new()),
        delta(1, entry("/root/same.md"), Vec::new()),
    ];

    let index = replay_deltas(LayeredSearchIndex::default(), &batches).unwrap();

    assert_eq!(index.entry_count(), 1);
    assert_eq!(index.generation(), 1);
}

#[test]
fn replay_rejects_conflicting_batches_at_one_generation() {
    let batches = vec![
        delta(4, entry("/root/one.md"), Vec::new()),
        delta(4, entry("/root/other.md"), Vec::new()),
    ];

    let error = replay_error(&batches);

    assert_eq!(error, "generation 4 has conflicting journal batches");
}

#[test]
fn replay_rejects_a_delta_touching_one_path_twice() {
    let batches = vec![delta(
        12,
        entry("/root/twice.md"),
        vec!["/root/twice.md/".to_owned()],
    )];

    let error = replay_error(&batches);

    assert_eq!(error, "generation 12 contains an empty or duplicate path");
}

#[test]
fn replay_rejects_an_empty_path() {
    let batches = vec![
        delta(1, entry("/root/fine.md"), Vec::new()),
        delta(2, entry(""), Vec::new()),
        delta(2, entry("/root/conflict.md"), Vec::new()),
    ];

    let error = replay_error(&batches);

    assert_eq!(error, "generation 2 contains an empty or duplicate path");
}

#[test]
fn replay_skips_generations_the_index_already_holds() {
    let mut index = LayeredSearchIndex::default();
    index.apply_delta(delta(5, entry("/root/kept.md"), Vec::new()));

    let index = replay_deltas(
        index,
        &[delta(4, entry("/root/stale.md"), vec!["/root/kept.md".to_owned()])],
    )
    .unwrap();

    assert_eq!(search_titles(&index, "kept"), vec!["kept.md"]);
    assert!(search_titles(&index, "stale").is_empty());
    assert_eq!(index.generation(), 5);
}

#[test]
fn decimal_spelling_has_no_leading_zeros() {
    assert_eq!(decimal_chars(0).into_iter().collect::<String>(), "0");
    assert_eq!(decimal_chars(7).into_iter().collect::<String>(), "7");
    assert_eq!(decimal_chars(1090).into_iter().collect::<String>(), "1090");
    assert_eq!(
        decimal_chars(u64::MAX).into_iter().collect::<String>(),
        u64::MAX.to_string()
    );
}

use quickfox_core::index_entry::IndexDegradationCode;
use quickfox_core::index_journal::{
    recover_layered_index, IndexFallbackReason, RecoveryAnswers, RecoveryBaseline,
};

fn baseline(generation: u64, paths: &[&str]) -> RecoveryBaseline {
    RecoveryBaseline {
        available: true,
        requires_full_refresh: false,
        generation,
        entries: paths.iter().map(|path| entry(path)).collect(),
    }
}

fn answers(active: RecoveryBaseline, latest: RecoveryBaseline) -> RecoveryAnswers {
    RecoveryAnswers {
        schema_ready: Ok(true),
        active_baseline: Ok(active),
        latest_baseline: Ok(latest),
        manifest_roots: Ok(vec!["/root".to_owned()]),
        manifest_valid: true,
        roots_with_manifest_rows: vec!["/root".to_owned()],
        deltas: Ok(Vec::new()),
    }
}

#[test]
fn ready_schema_loads_only_the_active_baseline() {
    let recovery = recover_layered_index(answers(
        baseline(10, &["/root/active.md"]),
        baseline(20, &["/root/latest.md"]),
    ));

    assert_eq!(search_titles(&recovery.index, "active"), vec!["active.md"]);
    assert!(search_titles(&recovery.index, "latest").is_empty());
    assert_eq!(recovery.degradation_code(), None);
    assert!(recovery.manifest_ready());
    assert!(!recovery.needs_manifest_rebuild());
    assert!(recovery.manifest_covers_roots(&["/root/".to_owned()]));
    assert!(!recovery.manifest_covers_roots(&["/other".to_owned()]));
}

#[test]
fn missing_active_baseline_falls_back_to_the_latest_as_degraded() {
    let mut a = answers(baseline(10, &["/root/active.md"]), baseline(20, &["/root/latest.md"]));
    a.active_baseline = Err("no active baseline".to_owned());

    let recovery = recover_layered_index(a);

    assert_eq!(search_titles(&recovery.index, "latest"), vec!["latest.md"]);
    assert_eq!(recovery.baseline_entry_count(), 1);
    assert!(recovery.baseline_available());
    assert!(recovery.needs_manifest_rebuild());
    assert_eq!(recovery.degradation_code(), Some(IndexDegradationCode::JournalReplayFailed));
    assert_eq!(recovery.fallback_reason(), Some(IndexFallbackReason::JournalRecoveryFailed));
}

#[test]
fn a_schema_that_is_not_ready_uses_the_latest_baseline() {
    let mut a = answers(baseline(10, &["/root/active.md"]), baseline(20, &["/root/latest.md"]));
    a.schema_ready = Ok(false);

    let recovery = recover_layered_index(a);

    assert_eq!(search_titles(&recovery.index, "latest"), vec!["latest.md"]);
    assert_eq!(recovery.index.generation(), 20);
}

#[test]
fn an_unavailable_baseline_gives_an_empty_index_without_replay() {
    let mut active = baseline(0, &[]);
    active.available = false;
    let mut a = answers(active, baseline(0, &[]));
    a.deltas = Ok(vec![delta(1, entry("/root/orphan-journal.md"), Vec::new())]);

    let recovery = recover_layered_index(a);

    assert!(!recovery.baseline_available());
    assert_eq!(recovery.degradation_code(), None);
    assert!(search_titles(&recovery.index, "orphan-journal").is_empty());
    assert_eq!(recovery.index.entry_count(), 0);
}

#[test]
fn an_empty_available_baseline_replays_the_journal() {
    let mut a = answers(baseline(10, &[]), baseline(10, &[]));
    a.deltas = Ok(vec![delta(11, entry("/root/from-journal.md"), Vec::new())]);

    let recovery = recover_layered_index(a);

    assert!(recovery.baseline_available());
    assert_eq!(recovery.degradation_code(), None);
    assert_eq!(search_titles(&recovery.index, "from-journal"), vec!["from-journal.md"]);
    assert_eq!(recovery.index.generation(), 11);
}

#[test]
fn a_conflicting_journal_keeps_the_baseline_alone() {
    let mut a = answers(baseline(1, &["/root/baseline.md"]), baseline(1, &[]));
    a.deltas = Ok(vec![
        delta(2, entry("/root/a.md"), Vec::new()),
        delta(2, entry("/root/b.md"), Vec::new()),
    ]);

    let recovery = recover_layered_index(a);

    assert_eq!(recovery.baseline_entry_count(), 1);
    assert_eq!(recovery.degradation_code(), Some(IndexDegradationCode::JournalReplayFailed));
    assert_eq!(recovery.fallback_reason(), Some(IndexFallbackReason::JournalRecoveryFailed));
    assert_eq!(search_titles(&recovery.index, "baseline"), vec!["baseline.md"]);
    assert!(search_titles(&recovery.index, "a").iter().all(|t| t != "a.md"));
}

#[test]
fn an_invalid_manifest_keeps_the_baseline_and_asks_for_a_full_refresh() {
    let mut a = answers(baseline(10, &["/root/baseline.md"]), baseline(10, &[]));
    a.manifest_valid = false;

    let recovery = recover_layered_index(a);

    assert_eq!(search_titles(&recovery.index, "baseline"), vec!["baseline.md"]);
    assert!(!recovery.manifest_ready());
    assert!(recovery.needs_manifest_rebuild());
    assert_eq!(recovery.degradation_code(), Some(IndexDegradationCode::CalibrationFailed));
    assert_eq!(recovery.fallback_reason(), Some(IndexFallbackReason::FullRefreshFallback));
}

#[test]
fn a_baseline_asking_for_a_full_refresh_is_kept_alone() {
    let mut active = baseline(10, &["/root/kept.md"]);
    active.requires_full_refresh = true;
    let mut a = answers(active, baseline(10, &[]));
    a.deltas = Ok(vec![delta(11, entry("/root/later.md"), Vec::new())]);

    let recovery = recover_layered_index(a);

    assert_eq!(search_titles(&recovery.index, "kept"), vec!["kept.md"]);
    assert!(search_titles(&recovery.index, "later").is_empty());
    assert_eq!(recovery.fallback_reason(), Some(IndexFallbackReason::FullRefreshFallback));
}

#[test]
fn a_baseline_without_manifest_roots_needs_a_manifest_rebuild() {
    let mut a = answers(baseline(10, &["/root/legacy.md"]), baseline(10, &[]));
    a.manifest_roots = Ok(Vec::new());
    a.roots_with_manifest_rows = Vec::new();

    let recovery = recover_layered_index(a);

    assert_eq!(search_titles(&recovery.index, "legacy"), vec!["legacy.md"]);
    assert!(!recovery.manifest_ready());
    assert!(recovery.needs_manifest_rebuild());
    assert_eq!(recovery.degradation_code(), None);
}
