use quickfox_core::compact_index::CompactCandidateIndex;
use quickfox_core::index::{NameSearchOutcome, SearchIndex, SearchIndexMemoryEstimate};
use quickfox_core::index_watcher::IndexUpdateBatch;
use quickfox_core::index_entry::ContentIndexState;
use std::sync::atomic::{AtomicUsize, Ordering};
use std::time::Instant;
use quickfox_core::index_entry::{IndexLifecycle, IndexStatusKind, IndexedEntry, IndexedEntryKind};

#[derive(Debug, Clone)]
struct SyntheticLargeIndexFixture {
    entries: Vec<IndexedEntry>,
    agents_path: String,
}

impl SyntheticLargeIndexFixture {
    fn new(entry_count: usize) -> Self {
        assert!(entry_count >= 128);
        let agents_path = "D:\\workspace\\QuickFox\\docs\\AGENTS.md".to_owned();
        let agents_index = (entry_count.saturating_mul(95) / 100).min(entry_count - 1);
        let mut entries = Vec::with_capacity(entry_count);

        for index in 0..entry_count {
            if index == agents_index {
                entries.push(synthetic_file_entry(&agents_path));
                continue;
            }

            let drive = if index % 2 == 0 { "C:" } else { "D:" };
            let area = match index % 8 {
                0 => "Users\\Frank\\Documents",
                1 => "Users\\Frank\\Downloads",
                2 => "workspace\\ProjectAlpha",
                3 => "workspace\\ProjectBeta",
                4 => "src\\packages",
                5 => "logs\\archive",
                6 => "media\\assets",
                _ => "tools\\cache",
            };
            let extension = match index % 7 {
                0 => "md",
                1 => "txt",
                2 => "rs",
                3 => "tsx",
                4 => "json",
                5 => "pdf",
                _ => "log",
            };
            let stem = match index % 11 {
                0 => "project",
                1 => "report",
                2 => "notes",
                3 => "readme",
                4 => "index",
                5 => "cache",
                6 => "module",
                7 => "config",
                8 => "asset",
                9 => "summary",
                _ => "record",
            };
            entries.push(synthetic_file_entry(&format!(
                "{drive}\\{area}\\folder-{:04}\\{stem}-{:07}.{extension}",
                index % 10_000,
                index
            )));
        }

        Self { entries, agents_path }
    }
}

#[derive(Debug, Clone, Copy, PartialEq, Eq)]
enum BenchmarkQueryKind {
    Exact,
    Prefix,
    FieldFiltered,
    LowHit,
    HighHit,
    PathSegmentFuzzy,
}

#[derive(Debug, Clone)]
struct BenchmarkQuery {
    name: &'static str,
    query: &'static str,
    kind: BenchmarkQueryKind,
    expected_agents_top_five: bool,
}

fn large_index_benchmark_queries() -> Vec<BenchmarkQuery> {
    vec![
        BenchmarkQuery { name: "agents-exact", query: "agents.md", kind: BenchmarkQueryKind::Exact, expected_agents_top_five: true },
        BenchmarkQuery { name: "agents-prefix-extension", query: "agents.m", kind: BenchmarkQueryKind::Prefix, expected_agents_top_five: true },
        BenchmarkQuery { name: "agents-prefix", query: "agents", kind: BenchmarkQueryKind::Prefix, expected_agents_top_five: true },
        BenchmarkQuery { name: "agents-type-md", query: "type:md agents", kind: BenchmarkQueryKind::FieldFiltered, expected_agents_top_five: true },
        BenchmarkQuery { name: "agents-dir-workspace", query: "dir:workspace agents", kind: BenchmarkQueryKind::FieldFiltered, expected_agents_top_five: true },
        BenchmarkQuery { name: "low-hit-random", query: "needle-not-present-987654321", kind: BenchmarkQueryKind::LowHit, expected_agents_top_five: false },
        BenchmarkQuery { name: "path-segment-fuzzy", query: "wrkspc", kind: BenchmarkQueryKind::PathSegmentFuzzy, expected_agents_top_five: false },
        BenchmarkQuery { name: "high-hit-project", query: "project", kind: BenchmarkQueryKind::HighHit, expected_agents_top_five: false },
    ]
}

fn synthetic_file_entry(path: &str) -> IndexedEntry {
    let name = path.rsplit(['/', '\\']).next().unwrap_or(path).to_owned();
    let mut entry = IndexedEntry::legacy(path, &name, IndexedEntryKind::File);
    entry.parent = path
        .rsplit_once(['/', '\\'])
        .map(|(parent, _)| parent.to_owned())
        .unwrap_or_default();
    entry.extension = entry
        .name
        .rsplit_once('.')
        .map(|(_, extension)| extension.to_ascii_lowercase());
    entry.root = path.split(['/', '\\']).next().unwrap_or_default().to_owned();
    entry.depth = path.split(['/', '\\']).count().saturating_sub(1);
    entry
}

#[test]
fn synthetic_large_index_fixture_places_agents_target_late_and_defines_queries() {
    let fixture = SyntheticLargeIndexFixture::new(10_000);
    let queries = large_index_benchmark_queries();

    assert_eq!(fixture.entries.len(), 10_000);
    assert_eq!(fixture.agents_path, "D:\\workspace\\QuickFox\\docs\\AGENTS.md");
    assert!(fixture
        .entries
        .iter()
        .position(|entry| entry.path == fixture.agents_path)
        .is_some_and(|position| position > 9_000));
    assert!(queries.iter().any(|query| query.name == "agents-exact"));
    assert!(queries.iter().any(|query| query.query == "agents.m"));
    assert!(queries.iter().any(|query| query.query == "type:md agents"));
    assert!(queries.iter().any(|query| query.query == "dir:workspace agents"));
    assert!(queries.iter().any(|query| query.kind == BenchmarkQueryKind::LowHit));
    assert!(queries.iter().any(|query| query.kind == BenchmarkQueryKind::HighHit));
    assert!(queries.iter().filter(|query| query.expected_agents_top_five).count() == 5);
}

#[test]
fn index_lifecycle_tracks_unbuilt_building_ready_refreshing_and_failed_states() {
    let mut lifecycle = IndexLifecycle::default();

    assert_eq!(lifecycle.status().kind, IndexStatusKind::Unbuilt);

    let first_generation = lifecycle.start_refresh(false);
    assert_eq!(lifecycle.status().kind, IndexStatusKind::Building);

    lifecycle.complete_refresh(first_generation, 42, 100);
    assert_eq!(lifecycle.status().kind, IndexStatusKind::Ready);
    assert_eq!(lifecycle.status().entry_count, 42);
    assert_eq!(lifecycle.status().completed_at_ms, Some(100));

    let second_generation = lifecycle.start_refresh(true);
    assert_eq!(lifecycle.status().kind, IndexStatusKind::Refreshing);
    assert_eq!(lifecycle.status().entry_count, 42);

    lifecycle.fail_refresh(second_generation, "permission denied".to_owned());
    assert_eq!(lifecycle.status().kind, IndexStatusKind::Failed);
    assert_eq!(lifecycle.status().entry_count, 42);
    assert_eq!(lifecycle.status().message.as_deref(), Some("permission denied"));
}

#[test]
fn index_lifecycle_ignores_stale_refresh_completion() {
    let mut lifecycle = IndexLifecycle::default();

    let stale_generation = lifecycle.start_refresh(false);
    let current_generation = lifecycle.start_refresh(false);
    lifecycle.complete_refresh(stale_generation, 10, 100);

    assert_eq!(lifecycle.status().kind, IndexStatusKind::Building);
    assert_eq!(lifecycle.status().entry_count, 0);

    lifecycle.complete_refresh(current_generation, 20, 200);
    assert_eq!(lifecycle.status().kind, IndexStatusKind::Ready);
    assert_eq!(lifecycle.status().entry_count, 20);
}

#[test]
fn memory_estimate_is_plain_data() {
    let estimate = SearchIndexMemoryEstimate {
        entry_count: 1,
        entry_struct_bytes: 2,
        entry_string_bytes: 3,
        cached_search_text_bytes: 4,
    };
    assert_eq!(estimate, estimate.clone());
}

fn file_entry(path: &str) -> IndexedEntry {
    IndexedEntry::legacy(path, path.rsplit('/').next().unwrap(), IndexedEntryKind::File)
}

fn search_limit_visible(
    index: &SearchIndex,
    query: &str,
    limit: usize,
    is_visible: impl Fn(&IndexedEntry) -> bool,
) -> Vec<IndexedEntry> {
    match index.search_name_path(query, limit, || false, is_visible) {
        NameSearchOutcome::Matches(positions) => positions.into_iter().map(|p| index.entries()[p].clone()).collect(),
        other => panic!("unexpected search outcome {other:?}"),
    }
}

fn search_limit(index: &SearchIndex, query: &str, limit: usize) -> Vec<IndexedEntry> {
    search_limit_visible(index, query, limit, |_| true)
}

fn search(index: &SearchIndex, query: &str) -> Vec<IndexedEntry> {
    search_limit(index, query, usize::MAX)
}

fn names(results: &[IndexedEntry]) -> Vec<String> {
    results.iter().map(|entry| entry.name.clone()).collect()
}

#[test]
fn update_batch_removes_replaces_and_adds_name_path_entries() {
    let root = "/tmp/quickfox-update-batch";
    let removed = format!("{root}/removed.md");
    let changed = format!("{root}/changed.md");
    let added = format!("{root}/added.md");

    let mut index = SearchIndex::from_entries(vec![
        IndexedEntry::from_path_metadata(&removed, root, IndexedEntryKind::File, Some(1), Some(7)),
        IndexedEntry::from_path_metadata(&changed, root, IndexedEntryKind::File, Some(1), Some(3)),
    ]);
    let mut changed_entry = IndexedEntry::from_path_metadata(&changed, root, IndexedEntryKind::File, Some(2), Some(3));
    changed_entry.name = "renamed-changed.md".to_owned();
    changed_entry.search_text = quickfox_core::index_entry::build_search_text(&changed_entry.name, &changed_entry.path);
    let added_entry = IndexedEntry::from_path_metadata(&added, root, IndexedEntryKind::File, Some(2), Some(3));

    let batch = IndexUpdateBatch { changed_paths: vec![changed.clone(), added.clone()], removed_paths: vec![removed.clone()] };
    index.apply_update_batch(&batch, vec![changed_entry, added_entry]);

    let names: Vec<_> = index.entries().iter().map(|entry| entry.name.as_str()).collect();
    assert_eq!(names, vec!["added.md", "renamed-changed.md"]);

    let results = search(&index, "renamed-changed");
    assert_eq!(results.len(), 1);
    assert_eq!(results[0].name, "renamed-changed.md");
}

#[test]
fn update_batch_removes_whole_subtrees_but_not_similar_prefixes() {
    let mut index = SearchIndex::from_entries(vec![
        file_entry("/tmp/docs"),
        file_entry("/tmp/docs/a.md"),
        file_entry("/tmp/docs-old/b.md"),
        file_entry("/tmp/keep.md"),
    ]);
    let batch = IndexUpdateBatch { changed_paths: Vec::new(), removed_paths: vec!["/tmp/docs".to_owned()] };
    index.apply_update_batch(&batch, Vec::new());
    let paths: Vec<_> = index.entries().iter().map(|entry| entry.path.as_str()).collect();
    assert_eq!(paths, vec!["/tmp/docs-old/b.md", "/tmp/keep.md"]);
}

#[test]
fn update_batch_sorts_by_path_then_name() {
    let mut index = SearchIndex::from_entries(vec![
        IndexedEntry::legacy("/b", "z", IndexedEntryKind::File),
        IndexedEntry::legacy("/a", "y", IndexedEntryKind::File),
    ]);
    let batch = IndexUpdateBatch { changed_paths: Vec::new(), removed_paths: Vec::new() };
    index.apply_update_batch(&batch, vec![IndexedEntry::legacy("/c", "x", IndexedEntryKind::File)]);
    let paths: Vec<_> = index.entries().iter().map(|entry| entry.path.as_str()).collect();
    assert_eq!(paths, vec!["/a", "/b", "/c"]);
}

#[test]
fn incremental_refresh_reuses_snapshot_entry_when_metadata_is_unchanged() {
    let root = "/tmp/quickfox-snapshot";
    let keep = format!("{root}/keep.md");
    let mut held = IndexedEntry::from_path_metadata(&keep, root, IndexedEntryKind::File, Some(10), Some(10));
    held.search_text = "snapshot-only-search-text".to_owned();
    held.content_index_state = ContentIndexState::Indexed;
    let index = SearchIndex::from_entries(vec![held]);

    let scanned = IndexedEntry::from_path_metadata(&keep, root, IndexedEntryKind::File, Some(10), Some(10));
    let refreshed = index.reuse_unchanged_entries(vec![scanned]);
    assert_eq!(refreshed[0].search_text, "snapshot-only-search-text");
    assert_eq!(refreshed[0].content_index_state, ContentIndexState::Indexed);

    let touched = IndexedEntry::from_path_metadata(&keep, root, IndexedEntryKind::File, Some(11), Some(10));
    let refreshed = index.reuse_unchanged_entries(vec![touched]);
    assert_ne!(refreshed[0].search_text, "snapshot-only-search-text");
    assert_eq!(refreshed[0].content_index_state, ContentIndexState::NotIndexed);
}

#[test]
fn search_returns_fuzzy_name_and_path_matches_but_not_file_content() {
    let index = SearchIndex::from_entries(vec![
        file_entry("/home/frank/projects/quickfox/readme.md"),
        file_entry("/home/frank/docs/plain.txt"),
    ]);

    let results = search(&index, "qfx");
    assert_eq!(results[0].name, "readme.md");

    let content_results = search(&index, "body-only-secret");
    assert!(content_results.is_empty());
}

#[test]
fn search_does_not_return_low_quality_fuzzy_noise_for_missing_query() {
    let mut entry = IndexedEntry::legacy("", "", IndexedEntryKind::File);
    entry.path = "/Users/frank/Applications/PyCharm.app/Contents/plugins/python-ce/helpers/pydev/_pydevd_bundle/pydevd_cython_win32_312_64.cp312-win_amd64.pyd".to_owned();
    entry.name = "pydevd_cython_win32_312_64.cp312-win_amd64.pyd".to_owned();
    let index = SearchIndex::from_entries(vec![entry]);

    let results = search(&index, "Openspec_123");

    assert!(results.is_empty());
}

#[test]
fn search_does_not_return_codex_fuzzy_noise() {
    let mut app = IndexedEntry::legacy("", "", IndexedEntryKind::Application);
    app.path = "/Users/frankzhang/Desktop/Codex.app".to_owned();
    app.name = "Codex.app".to_owned();
    let mut dir = IndexedEntry::legacy("", "", IndexedEntryKind::Directory);
    dir.path = "/Users/frankzhang/Documents/Codex".to_owned();
    dir.name = "Codex".to_owned();
    let index = SearchIndex::from_entries(vec![
        app,
        dir,
        file_entry("/Users/frankzhang/workspace/QuickFox/index.html"),
        file_entry("/Users/frankzhang/Library/Metadata/CoreSpotlight/index.spotlightV3/0.ivf-vector-indexes"),
        file_entry("/Users/frankzhang/Library/Mobile Documents/com~apple~CloudDocs/cpl/cloudsync.noindex"),
    ]);

    assert_eq!(names(&search(&index, "Codex")), vec!["Codex.app", "Codex"]);
}

#[test]
fn search_does_not_return_children_only_matching_parent_mid_word() {
    let index = SearchIndex::from_entries(vec![
        file_entry("/Users/frankzhang/workspace/QuickFox/src/setupTests.ts"),
        file_entry("/Users/frankzhang/Pictures/Photos Library.photoslibrary/resources/cpl/cloudsync.noindex/outgoingRecordComputeStates/filecache"),
        file_entry("/Users/frankzhang/Pictures/Photos Library.photoslibrary/resources/cpl/cloudsync.noindex/outgoingRecordComputeStates/outgoingRecordCompute"),
    ]);

    assert_eq!(names(&search(&index, "Test")), vec!["setupTests.ts"]);
}

#[test]
fn search_matches_full_path_queries_exactly() {
    let index = SearchIndex::from_entries(vec![
        file_entry("/Users/frankzhang/workspace/codeforge/README.md"),
        file_entry("/Users/frankzhang/workspace/QuickFox/README.md"),
    ]);

    let results = search(&index, "/Users/frankzhang/workspace/codeforge/README.md");

    assert_eq!(results.len(), 1);
    assert_eq!(results[0].path, "/Users/frankzhang/workspace/codeforge/README.md");
}

#[test]
fn search_uses_cached_case_insensitive_text_for_name_and_path_matches() {
    let index = SearchIndex::from_entries(vec![file_entry("/home/frank/Projects/QuickFox/README.md")]);

    let name_results = search(&index, "readme");
    let path_results = search(&index, "quickfox");

    assert_eq!(name_results[0].name, "README.md");
    assert_eq!(path_results[0].name, "README.md");
}

#[test]
fn search_preserves_name_substring_matches_when_candidates_miss() {
    let index = SearchIndex::from_entries(vec![
        file_entry("/Users/frank/workspace/reports/report.md"),
        file_entry("/Users/frank/workspace/reports/notes.md"),
    ]);

    assert_eq!(names(&search(&index, "port")), vec!["report.md"]);
}

#[test]
fn search_with_limit_bounds_constructed_results() {
    let index = SearchIndex::from_entries(vec![
        file_entry("/tmp/project-alpha.md"),
        file_entry("/tmp/project-beta.md"),
        file_entry("/tmp/project-gamma.md"),
    ]);

    let results = search_limit(&index, "project", 2);

    assert_eq!(results.len(), 2);
    assert_eq!(results[0].name, "project-alpha.md");
    assert_eq!(results[1].name, "project-beta.md");
}

#[test]
fn structured_file_query_filters_by_type_name_and_dir() {
    let index = SearchIndex::from_entries(vec![
        file_entry("/Users/frank/workspace/reports/budget.PDF"),
        file_entry("/Users/frank/workspace/reports/budget.md"),
        file_entry("/Users/frank/downloads/reports/budget.PDF"),
        file_entry("/Users/frank/workspace/reports/notes.PDF"),
    ]);

    assert_eq!(names(&search(&index, "budget type:pdf name:budget dir:workspace")), vec!["budget.PDF"]);
}

#[test]
fn structured_file_query_preserves_name_substring_matches() {
    let index = SearchIndex::from_entries(vec![
        file_entry("/Users/frank/workspace/reports/report.md"),
        file_entry("/Users/frank/workspace/reports/notes.md"),
    ]);

    assert_eq!(names(&search(&index, "name:port")), vec!["report.md"]);
}

#[test]
fn structured_file_query_filters_over_recalled_name_candidates() {
    let index = SearchIndex::from_entries(vec![
        file_entry("/Users/frank/workspace/QuickFox/AGENTS.md"),
        file_entry("/Users/frank/workspace/QuickFox/AGENTS.txt"),
    ]);

    assert!(search(&index, "name:agents.txt type:md").is_empty());
}

#[test]
fn structured_file_query_preserves_dir_glob_matches() {
    let index = SearchIndex::from_entries(vec![
        file_entry("/Users/frank/workspace/QuickFox/budget.PDF"),
        file_entry("/Users/frank/workspace/Other/budget.PDF"),
        file_entry("/Users/frank/downloads/QuickFox/budget.PDF"),
    ]);

    let paths: Vec<_> = search(&index, "budget type:pdf dir:**/workspace/QuickFox").into_iter().map(|entry| entry.path).collect();

    assert_eq!(paths, vec!["/Users/frank/workspace/QuickFox/budget.PDF"]);
}

#[test]
fn structured_file_query_allows_space_after_field_colon() {
    let index = SearchIndex::from_entries(vec![
        file_entry("/Users/frank/workspace/QuickFox/AGENTS.md"),
        file_entry("/Users/frank/workspace/QuickFox/README.txt"),
    ]);

    assert_eq!(names(&search(&index, "Agent type: md")), vec!["AGENTS.md"]);
}

#[test]
fn content_only_query_returns_feedback_before_content_indexing() {
    let index = SearchIndex::from_entries(vec![file_entry("/Users/frank/workspace/hello.md")]);

    let outcome = index.search_name_path(r#"content:"hello world""#, usize::MAX, || false, |_| true);

    assert_eq!(outcome, NameSearchOutcome::ContentIndexUnavailable);
}

#[test]
fn empty_query_and_zero_limit_match_nothing() {
    let index = SearchIndex::from_entries(vec![file_entry("/tmp/a.md")]);
    assert_eq!(index.search_name_path("   ", 10, || false, |_| true), NameSearchOutcome::Matches(Vec::new()));
    assert_eq!(index.search_name_path("a", 0, || false, |_| true), NameSearchOutcome::Matches(Vec::new()));
}

#[test]
fn large_index_search_stops_at_candidate_limit() {
    let entries: Vec<_> = (0..10_000).map(|index| file_entry(&format!("/tmp/project-{index}.md"))).collect();
    let index = SearchIndex::from_entries(entries);

    let started = Instant::now();
    let results = search_limit(&index, "project", 25);
    let elapsed = started.elapsed();

    assert_eq!(results.len(), 25);
    assert!(elapsed.as_millis() < 500, "large index query took {elapsed:?}, expected bounded candidate work");
}

#[test]
fn synthetic_large_index_oracle_keeps_agents_queries_in_top_five() {
    let fixture = SyntheticLargeIndexFixture::new(10_000);
    let search_index = SearchIndex::from_entries(fixture.entries.clone());

    for query in large_index_benchmark_queries().into_iter().filter(|query| query.expected_agents_top_five) {
        let results = search_limit(&search_index, query.query, 20);
        let target_position = results.iter().position(|result| result.path == fixture.agents_path);
        assert!(
            target_position.is_some_and(|position| position < 5),
            "query {} did not keep {} in top five; got {:?}",
            query.name,
            fixture.agents_path,
            results.iter().map(|result| result.path.as_str()).collect::<Vec<_>>()
        );
    }
}

#[test]
fn search_index_memory_estimate_reports_duplicate_search_text_storage() {
    let fixture = SyntheticLargeIndexFixture::new(1_000);
    let search_index = SearchIndex::from_entries(fixture.entries);
    let estimate = search_index.memory_estimate();

    assert_eq!(estimate.entry_count, 1_000);
    assert!(estimate.entry_string_bytes > 0);
    assert!(estimate.cached_search_text_bytes > 0);
    assert!(
        estimate.cached_search_text_bytes >= estimate.entry_string_bytes / 4,
        "cached search text should be visible in memory estimates: {estimate:?}"
    );
}

#[test]
fn memory_estimate_counts_utf8_bytes_of_strings() {
    let index = SearchIndex::from_entries(vec![IndexedEntry::legacy("/é", "é", IndexedEntryKind::File)]);
    let estimate = index.memory_estimate();
    assert_eq!(estimate.entry_count, 1);
    assert_eq!(estimate.entry_string_bytes, 3 + 2 + 6);
    assert_eq!(estimate.cached_search_text_bytes, 6);
}

#[test]
fn visibility_filter_precedes_normal_query_limit() {
    let index = SearchIndex::from_entries(vec![file_entry("/tmp/hidden-item.md"), file_entry("/tmp/visible-item.md")]);

    let results = search_limit_visible(&index, "item", 1, |entry| entry.name.starts_with("visible"));

    assert_eq!(results.len(), 1);
    assert_eq!(results[0].name, "visible-item.md");
}

#[test]
fn compact_candidate_retriever_covers_linear_search_oracle_results() {
    let fixture = SyntheticLargeIndexFixture::new(10_000);
    let linear_index = SearchIndex::from_entries(fixture.entries.clone());
    let compact_index = CompactCandidateIndex::from_entries(fixture.entries.clone());

    for query in ["agents", "agents.m", "type:md agents", "dir:workspace agents"] {
        let linear_paths: Vec<_> = search_limit(&linear_index, query, 5).into_iter().map(|entry| entry.path).collect();
        let candidate_paths = compact_index.retrieve_query_paths(query);

        for path in linear_paths {
            assert!(
                candidate_paths.contains(&path),
                "compact candidates for {query:?} should include linear oracle path {path:?}"
            );
        }
    }
}

#[test]
fn low_hit_large_index_search_uses_bounded_candidate_retrieval() {
    let fixture = SyntheticLargeIndexFixture::new(100_000);
    let search_index = SearchIndex::from_entries(fixture.entries);

    let started = Instant::now();
    let results = search_limit(&search_index, "needle-not-present-987654321", 20);
    let elapsed = started.elapsed();

    assert!(results.is_empty());
    assert!(elapsed.as_millis() < 100, "low-hit query should use bounded candidate retrieval, took {elapsed:?}");
}

#[test]
fn cancellable_search_stops_before_returning_stale_results() {
    let fixture = SyntheticLargeIndexFixture::new(10_000);
    let search_index = SearchIndex::from_entries(fixture.entries);
    let checks = AtomicUsize::new(0);

    let outcome = search_index.search_name_path("project", 20, || checks.fetch_add(1, Ordering::Relaxed) >= 2, |_| true);

    assert_eq!(outcome, NameSearchOutcome::Cancelled);
    assert!(checks.load(Ordering::Relaxed) >= 3);
}

#[test]
fn ci_scale_large_index_search_stays_within_latency_budget() {
    let fixture = SyntheticLargeIndexFixture::new(100_000);
    let search_index = SearchIndex::from_entries(fixture.entries);

    for query in large_index_benchmark_queries().into_iter().filter(|query| {
        matches!(
            query.kind,
            BenchmarkQueryKind::Exact | BenchmarkQueryKind::Prefix | BenchmarkQueryKind::FieldFiltered | BenchmarkQueryKind::LowHit
        )
    }) {
        let started = Instant::now();
        let results = search_limit(&search_index, query.query, 20);
        let elapsed = started.elapsed();

        assert!(elapsed.as_millis() < 150, "CI-scale query {} took {elapsed:?}, expected compact candidate budget", query.name);
        if query.expected_agents_top_five {
            assert!(
                results.iter().take(5).any(|result| result.path == fixture.agents_path),
                "query {} should keep AGENTS.md in top five",
                query.name
            );
        }
    }
}
