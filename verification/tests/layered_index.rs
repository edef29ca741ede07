use quickfox_core::index::SearchIndex;
use quickfox_core::index_entry::{IndexedEntry, IndexedEntryKind};
use quickfox_core::index_watcher::IndexUpdateBatch;
use quickfox_core::layered_index::{CommittedIndexDelta, LayeredSearchIndex, LayeredSearchResults, PathTombstones, StrSet};
use quickfox_core::index::NameSearchOutcome;
use std::time::Duration;

fn p95_duration(samples: &[Duration]) -> Duration {
    assert!(!samples.is_empty());
    let mut sorted = samples.to_vec();
    sorted.sort_unstable();
    let rank = sorted.len().saturating_mul(95).div_ceil(100);
    sorted[rank.saturating_sub(1)]
}

#[test]
fn p95_duration_uses_the_nearest_rank_without_averaging_tail_samples() {
    let samples: Vec<_> = (1..=20).map(Duration::from_millis).collect();

    assert_eq!(p95_duration(&samples), Duration::from_millis(19));
}

#[test]
fn committed_delta_holds_its_generation() {
    let delta = CommittedIndexDelta {
        generation: 3,
        upserts: Vec::new(),
        removals: vec!["/tmp/a".to_owned()],
    };
    assert_eq!(delta.clone(), delta);
    assert_eq!(delta.generation, 3);
}

#[test]
fn tombstone_lookup_cost_depends_on_path_depth_not_tombstone_count() {
    let mut tombstones = PathTombstones::default();
    for index in 0..5_000 {
        tombstones.insert_directory(format!("/archive-{index}"));
    }

    let (found, probes) = tombstones.directory_lookup("/active/docs/readme.md");
    assert!(!found);
    assert!(!tombstones.contains("/active/docs/readme.md"));

    assert!(probes <= 4);
}

#[test]
fn directory_tombstones_hide_descendants_and_absorb_nested_ones() {
    let mut t = PathTombstones::default();
    t.insert_exact("/a/b/c.txt".to_owned());
    t.insert_directory("/a/b/sub".to_owned());
    assert!(t.contains("/a/b/c.txt"));
    assert!(t.contains("/a/b/sub/x/y"));
    assert_eq!(t.len(), 2);
    t.insert_directory("/a".to_owned());
    assert_eq!(t.len(), 1);
    assert!(t.contains_directory("/a"));
    assert!(!t.contains_directory("/a/b/sub"));
    assert!(t.contains("/a/anything"));
    assert!(!t.contains("/ab"));
    t.insert_exact("/a/z".to_owned());
    assert_eq!(t.len(), 1);
    t.insert_directory("/a/q".to_owned());
    assert_eq!(t.len(), 1);
    t.clear();
    assert_eq!(t.len(), 0);
    t.insert_exact("/x".to_owned());
    t.remove_exact("/x");
    assert!(!t.contains("/x"));
}

#[test]
fn root_directory_tombstone_hides_everything_absolute() {
    let mut t = PathTombstones::default();
    t.insert_directory("/".to_owned());
    assert!(t.contains("/any/where"));
    assert!(!t.contains("relative"));
    assert_eq!(t.directory_lookup("/any/where"), (true, 3));
}

#[test]
fn string_set_keeps_members_ordered_and_unique() {
    let mut s = StrSet::new();
    assert!(s.insert("b".to_owned()));
    assert!(s.insert("a".to_owned()));
    assert!(!s.insert("b".to_owned()));
    assert_eq!(s.len(), 2);
    assert!(s.contains("a"));
    assert!(s.remove("a"));
    assert!(!s.remove("a"));
    s.insert("pre/x".to_owned());
    s.insert("pre/y".to_owned());
    s.insert("prex".to_owned());
    s.remove_prefixed("pre/");
    assert!(s.contains("prex"));
    assert!(!s.contains("pre/x"));
    assert_eq!(s.len(), 2);
}

const ROOT: &str = "/tmp/root";

fn join(path: &str) -> String {
    format!("{ROOT}/{path}")
}

fn entry(path: &str, root: &str, kind: IndexedEntryKind) -> IndexedEntry {
    let name = path.rsplit(['/', '\\']).next().unwrap_or_default();
    let mut entry = IndexedEntry::legacy(path, name, kind);
    entry.root = root.to_owned();
    entry
}

fn named_entry(path: &str, root: &str, name: &str) -> IndexedEntry {
    let mut entry = entry(path, root, IndexedEntryKind::File);
    entry.name = name.to_owned();
    entry.search_text = quickfox_core::index_entry::build_search_text(&entry.name, &entry.path);
    entry
}

fn search(index: &LayeredSearchIndex, query: &str, budget: usize) -> Vec<IndexedEntry> {
    match index.search(query, budget) {
        LayeredSearchResults::Entries(entries) => entries,
        other => panic!("unexpected search results {other:?}"),
    }
}

fn result_paths(results: &[IndexedEntry]) -> Vec<&str> {
    results.iter().map(|entry| entry.path.as_str()).collect()
}

#[test]
fn overlay_replaces_baseline_by_normalized_path_without_duplicates() {
    let old = named_entry(&join("docs/readme.md"), ROOT, "old-readme.md");
    let replacement = named_entry(&join("docs/readme.md"), ROOT, "new-readme.md");
    let mut index = LayeredSearchIndex::from_baseline(vec![old]);

    index.apply_delta(CommittedIndexDelta { generation: 1, upserts: vec![replacement], removals: Vec::new() });

    assert!(search(&index, "old-readme", 20).is_empty());
    let results = search(&index, "new-readme", 20);
    assert_eq!(results.len(), 1);
    assert_eq!(results[0].name, "new-readme.md");
    assert_eq!(index.entry_count(), 1);
}

#[test]
fn overlay_path_keys_normalize_separator_styles() {
    let old = named_entry(&join("docs/readme.md"), ROOT, "old-readme.md");
    let replacement = named_entry(r"\tmp\root\docs\readme.md", ROOT, "new-readme.md");
    let mut index = LayeredSearchIndex::from_baseline(vec![old]);

    index.apply_delta(CommittedIndexDelta { generation: 1, upserts: vec![replacement], removals: Vec::new() });

    assert!(search(&index, "old-readme", 20).is_empty());
    assert_eq!(search(&index, "new-readme", 20).len(), 1);
    assert_eq!(index.entry_count(), 1);
}

#[test]
fn exact_file_tombstone_does_not_hide_similar_paths() {
    let mut index = LayeredSearchIndex::from_baseline(vec![
        entry(&join("docs/readme.md"), ROOT, IndexedEntryKind::File),
        entry(&join("docs/readme.md.bak"), ROOT, IndexedEntryKind::File),
    ]);

    index.apply_delta(CommittedIndexDelta { generation: 1, upserts: Vec::new(), removals: vec![join("docs/readme.md")] });

    let results = search(&index, "readme", 20);
    assert_eq!(result_paths(&results), vec!["/tmp/root/docs/readme.md.bak"]);
}

#[test]
fn directory_tombstone_hides_descendants_on_segment_boundaries() {
    let mut index = LayeredSearchIndex::from_baseline(vec![
        entry(&join("docs/readme.md"), ROOT, IndexedEntryKind::File),
        entry(&join("docs/guides/start.md"), ROOT, IndexedEntryKind::File),
        entry(&join("docs-old/legacy.md"), ROOT, IndexedEntryKind::File),
        entry(&join("keep.md"), ROOT, IndexedEntryKind::File),
    ]);

    index.apply_delta(CommittedIndexDelta { generation: 1, upserts: Vec::new(), removals: vec![join("docs")] });

    assert!(search(&index, "readme", 20).is_empty());
    assert!(search(&index, "start", 20).is_empty());
    assert_eq!(search(&index, "legacy", 20).len(), 1);
    assert_eq!(search(&index, "keep", 20).len(), 1);
}

#[test]
fn rename_is_old_path_removal_plus_new_path_upsert() {
    let old_path = join("old-name.md");
    let new_path = join("new-name.md");
    let mut index = LayeredSearchIndex::from_baseline(vec![entry(&old_path, ROOT, IndexedEntryKind::File)]);

    index.apply_delta(CommittedIndexDelta {
        generation: 1,
        upserts: vec![entry(&new_path, ROOT, IndexedEntryKind::File)],
        removals: vec![old_path],
    });

    assert!(search(&index, "old-name", 20).is_empty());
    assert_eq!(search(&index, "new-name", 20).len(), 1);
}

#[test]
fn type_replacements_keep_only_the_new_path_shape_visible() {
    let node = join("node");
    let mut directory_to_file = LayeredSearchIndex::from_baseline(vec![
        entry(&node, ROOT, IndexedEntryKind::Directory),
        entry(&format!("{node}/old-child.md"), ROOT, IndexedEntryKind::File),
    ]);

    directory_to_file.apply_delta(CommittedIndexDelta {
        generation: 1,
        upserts: vec![entry(&node, ROOT, IndexedEntryKind::File)],
        removals: Vec::new(),
    });

    assert!(search(&directory_to_file, "old-child", 20).is_empty());
    assert_eq!(directory_to_file.entry_count(), 1);

    let mut file_to_directory = LayeredSearchIndex::from_baseline(vec![entry(&node, ROOT, IndexedEntryKind::File)]);
    file_to_directory.apply_delta(CommittedIndexDelta {
        generation: 1,
        upserts: vec![entry(&node, ROOT, IndexedEntryKind::Directory)],
        removals: Vec::new(),
    });
    file_to_directory.apply_delta(CommittedIndexDelta {
        generation: 2,
        upserts: vec![entry(&format!("{node}/new-child.md"), ROOT, IndexedEntryKind::File)],
        removals: Vec::new(),
    });

    assert_eq!(search(&file_to_directory, "node", 20).into_iter().filter(|result| result.name == "node").count(), 1);
    assert_eq!(search(&file_to_directory, "new-child", 20).len(), 1);
    assert_eq!(file_to_directory.entry_count(), 2);
}

#[test]
fn committed_generation_replay_is_idempotent() {
    let delta = CommittedIndexDelta {
        generation: 7,
        upserts: vec![entry(&join("journal.md"), ROOT, IndexedEntryKind::File)],
        removals: Vec::new(),
    };
    let mut index = LayeredSearchIndex::from_baseline(Vec::new());

    index.apply_delta(delta.clone());
    let snapshot = (index.generation(), index.entry_count(), index.delta_entry_count(), index.materialized_entries());
    index.apply_delta(delta);

    assert_eq!((index.generation(), index.entry_count(), index.delta_entry_count(), index.materialized_entries()), snapshot);
    assert_eq!(search(&index, "journal", 20).len(), 1);
}

#[test]
fn replace_baseline_clears_delta_state_at_new_generation() {
    let mut index = LayeredSearchIndex::from_baseline(vec![entry(&join("old.md"), ROOT, IndexedEntryKind::File)]);
    index.apply_delta(CommittedIndexDelta {
        generation: 2,
        upserts: vec![entry(&join("delta.md"), ROOT, IndexedEntryKind::File)],
        removals: vec![join("old.md")],
    });

    index.replace_baseline(vec![entry(&join("compacted.md"), ROOT, IndexedEntryKind::File)], 2);

    assert_eq!(index.generation(), 2);
    assert_eq!(index.delta_entry_count(), 0);
    assert_eq!(index.entry_count(), 1);
    assert_eq!(search(&index, "compacted", 20).len(), 1);
}

#[test]
fn replace_baseline_ignores_an_older_generation() {
    let mut index = LayeredSearchIndex::from_baseline(vec![entry(&join("old.md"), ROOT, IndexedEntryKind::File)]);
    index.apply_delta(CommittedIndexDelta { generation: 5, upserts: Vec::new(), removals: Vec::new() });
    index.replace_baseline(vec![entry(&join("other.md"), ROOT, IndexedEntryKind::File)], 4);
    assert_eq!(index.generation(), 5);
    assert_eq!(search(&index, "old", 20).len(), 1);
    assert!(search(&index, "other", 20).is_empty());
}

#[test]
fn layered_counts_report_baseline_overlay_and_tombstones_separately() {
    let mut index = LayeredSearchIndex::from_baseline(vec![
        entry(&join("kept.md"), ROOT, IndexedEntryKind::File),
        entry(&join("removed.md"), ROOT, IndexedEntryKind::File),
    ]);
    index.apply_delta(CommittedIndexDelta {
        generation: 1,
        upserts: vec![entry(&join("created.md"), ROOT, IndexedEntryKind::File)],
        removals: vec![join("removed.md")],
    });

    assert_eq!(index.baseline_entry_count(), 2);
    assert_eq!(index.overlay_entry_count(), 1);
    assert_eq!(index.tombstone_entry_count(), 1);
}

#[test]
fn authoritative_tail_can_replace_a_baseline_older_than_current_overlay() {
    let make_delta = |generation, upserts| CommittedIndexDelta { generation, upserts, removals: vec![] };
    let mut index = LayeredSearchIndex::from_baseline(vec![entry(&join("old.md"), ROOT, IndexedEntryKind::File)]);
    index.apply_delta(make_delta(4, vec![entry(&join("old-overlay.md"), ROOT, IndexedEntryKind::File)]));
    index.apply_delta(make_delta(5, vec![]));

    let installed = index.replace_baseline_with_authoritative_tail(
        SearchIndex::from_entries(vec![entry(&join("new.md"), ROOT, IndexedEntryKind::File)]),
        3,
        &[make_delta(4, vec![entry(&join("tail.md"), ROOT, IndexedEntryKind::File)]), make_delta(5, vec![])],
    );

    assert!(installed);
    assert_eq!(index.generation(), 5);
    assert_eq!(index.entry_count(), 2);
    assert_eq!(search(&index, "old", 10).len(), 0);
    assert_eq!(search(&index, "new", 10).len(), 1);
    assert_eq!(search(&index, "tail", 10).len(), 1);
}

#[test]
fn authoritative_tail_with_a_gap_changes_nothing() {
    let make_delta = |generation| CommittedIndexDelta { generation, upserts: vec![], removals: vec![] };
    let mut index = LayeredSearchIndex::from_baseline(vec![entry(&join("old.md"), ROOT, IndexedEntryKind::File)]);
    let installed = index.replace_baseline_with_authoritative_tail(
        SearchIndex::from_entries(vec![entry(&join("new.md"), ROOT, IndexedEntryKind::File)]),
        3,
        &[make_delta(4), make_delta(6)],
    );
    assert!(!installed);
    assert_eq!(search(&index, "old", 10).len(), 1);
    assert_eq!(index.generation(), 0);
}

#[test]
fn visibility_filter_runs_before_each_layer_limit() {
    let mut index = LayeredSearchIndex::from_baseline(vec![
        entry(&join("docs/item-0.md"), ROOT, IndexedEntryKind::File),
        entry(&join("docs/item-1.md"), ROOT, IndexedEntryKind::File),
        entry(&join("item-visible.md"), ROOT, IndexedEntryKind::File),
    ]);
    index.apply_delta(CommittedIndexDelta {
        generation: 1,
        upserts: vec![entry(&join("item-overlay.md"), ROOT, IndexedEntryKind::File)],
        removals: vec![join("docs")],
    });

    let results = search(&index, "item", 1);

    assert_eq!(results.len(), 2);
    assert_eq!(results[0].name, "item-visible.md");
    assert_eq!(results[1].name, "item-overlay.md");
}

#[test]
fn batch_file_removals_do_not_scan_the_full_baseline_and_count_is_cached() {
    let baseline: Vec<_> = (0..20_000).map(|index| entry(&join(&format!("file-{index:05}.md")), ROOT, IndexedEntryKind::File)).collect();
    let mut index = LayeredSearchIndex::from_baseline(baseline);

    index.apply_delta(CommittedIndexDelta {
        generation: 1,
        upserts: Vec::new(),
        removals: (0..50).map(|index| join(&format!("file-{:05}.md", index * 200))).collect(),
    });

    assert_eq!(index.entry_count(), 19_950);
    assert_eq!(index.entry_count(), 19_950);
    assert_eq!(index.materialized_entries().len(), 19_950);
}

#[test]
fn layered_results_match_full_index_oracle_after_mixed_updates_and_ranking() {
    let baseline_entries = vec![
        entry(&join("alpha.md"), ROOT, IndexedEntryKind::File),
        entry(&join("remove.md"), ROOT, IndexedEntryKind::File),
        entry(&join("tree/child.md"), ROOT, IndexedEntryKind::File),
        entry(&join("rename-old.md"), ROOT, IndexedEntryKind::File),
        entry(&join("Tools.app"), ROOT, IndexedEntryKind::Application),
    ];
    let mut layered = LayeredSearchIndex::from_baseline(baseline_entries.clone());
    let mut oracle = SearchIndex::from_entries(baseline_entries);

    let replacement = named_entry(&join("alpha.md"), ROOT, "alpha-updated.md");
    let added = entry(&join("added.md"), ROOT, IndexedEntryKind::File);
    apply_to_both(&mut layered, &mut oracle, 1, vec![replacement, added], Vec::new());
    apply_to_both(&mut layered, &mut oracle, 2, Vec::new(), vec![join("remove.md"), join("tree")]);
    apply_to_both(&mut layered, &mut oracle, 3, vec![entry(&join("rename-new.md"), ROOT, IndexedEntryKind::File)], vec![join("rename-old.md")]);

    for query in ["md", "alpha", "rename", "Tools"] {
        let mut layered_paths: Vec<String> = search(&layered, query, 20).into_iter().map(|entry| entry.path).collect();
        let mut oracle_paths: Vec<String> = match oracle.search_name_path(query, 20, || false, |_| true) {
            NameSearchOutcome::Matches(positions) => positions.into_iter().map(|p| oracle.entries()[p].path.clone()).collect(),
            other => panic!("unexpected {other:?}"),
        };
        layered_paths.sort();
        oracle_paths.sort();
        assert_eq!(layered_paths, oracle_paths, "{query}");
    }
    let mut layered_all: Vec<String> = layered.materialized_entries().into_iter().map(|entry| entry.path).collect();
    let mut oracle_all: Vec<String> = oracle.entries().iter().map(|entry| entry.path.clone()).collect();
    layered_all.sort();
    oracle_all.sort();
    assert_eq!(layered_all, oracle_all);
}

fn apply_to_both(
    layered: &mut LayeredSearchIndex,
    oracle: &mut SearchIndex,
    generation: u64,
    upserts: Vec<IndexedEntry>,
    removals: Vec<String>,
) {
    layered.apply_delta(CommittedIndexDelta { generation, upserts: upserts.clone(), removals: removals.clone() });
    oracle.apply_update_batch(
        &IndexUpdateBatch { changed_paths: upserts.iter().map(|entry| entry.path.clone()).collect(), removed_paths: removals },
        upserts,
    );
}

#[test]
fn materialized_entries_are_in_key_order_with_overlay_winning() {
    let mut index = LayeredSearchIndex::from_baseline(vec![
        entry(&join("b.md"), ROOT, IndexedEntryKind::File),
        entry(&join("a.md"), ROOT, IndexedEntryKind::File),
    ]);
    index.apply_delta(CommittedIndexDelta {
        generation: 1,
        upserts: vec![named_entry(&join("b.md"), ROOT, "b-new.md"), entry(&join("c.md"), ROOT, IndexedEntryKind::File)],
        removals: vec![join("a.md")],
    });
    let names: Vec<_> = index.materialized_entries().into_iter().map(|entry| entry.name).collect();
    assert_eq!(names, vec!["b-new.md", "c.md"]);
}

#[test]
fn watched_roots_are_unique_and_ordered() {
    let mut index = LayeredSearchIndex::from_baseline(vec![
        entry("/b/x.md", "/b", IndexedEntryKind::File),
        entry("/a/y.md", "/a", IndexedEntryKind::File),
        entry("/a/z.md", "/a", IndexedEntryKind::File),
        entry("/loose.md", "", IndexedEntryKind::File),
    ]);
    index.apply_delta(CommittedIndexDelta {
        generation: 1,
        upserts: vec![entry("/c/w.md", "/c", IndexedEntryKind::File)],
        removals: Vec::new(),
    });
    assert_eq!(index.watched_roots(), vec!["/a".to_owned(), "/b".to_owned(), "/c".to_owned()]);
}

#[test]
fn content_queries_report_the_missing_content_index() {
    let index = LayeredSearchIndex::from_baseline(vec![entry(&join("a.md"), ROOT, IndexedEntryKind::File)]);
    assert_eq!(index.search("content:hello", 10), LayeredSearchResults::ContentIndexUnavailable);
    assert_eq!(index.search("content:hello", 0), LayeredSearchResults::Entries(Vec::new()));
}

#[test]
fn overlay_matches_are_kept_when_the_baseline_fills_its_budget() {
    let mut index = LayeredSearchIndex::from_baseline(vec![
        entry(&join("notes-a.md"), ROOT, IndexedEntryKind::File),
        entry(&join("notes-b.md"), ROOT, IndexedEntryKind::File),
        entry(&join("notes-c.md"), ROOT, IndexedEntryKind::File),
    ]);
    index.apply_delta(CommittedIndexDelta {
        generation: 1,
        upserts: vec![entry(&join("notes-new.md"), ROOT, IndexedEntryKind::File)],
        removals: Vec::new(),
    });

    let results = search(&index, "notes", 2);

    assert_eq!(results.len(), 3);
    assert!(results[..2].iter().all(|e| e.name != "notes-new.md"));
    assert_eq!(results[2].name, "notes-new.md");
}
