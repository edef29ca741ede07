use quickfox_core::file_matcher::{FileMatcher, NamePathMatcher, NucleoNamePathMatcher, StableNamePathMatcher};
use quickfox_core::file_query::FileQuery;
use quickfox_core::index_entry::{IndexedEntry, IndexedEntryKind};

fn entry(path: &str) -> IndexedEntry {
    IndexedEntry::legacy(
        path,
        path.rsplit(['/', '\\']).next().unwrap(),
        IndexedEntryKind::File,
    )
}

#[test]
fn field_filters_use_and_semantics() {
    let matcher = FileMatcher::default();
    let entry = entry("/Users/frank/workspace/reports/budget.PDF");
    let query = FileQuery::parse("budget type:pdf name:budget dir:workspace");

    assert!(matcher.matches(&query, &entry));
    assert!(!matcher.matches(&FileQuery::parse("budget type:md"), &entry));
    assert!(!matcher.matches(&FileQuery::parse("budget name:workspace"), &entry));
    assert!(!matcher.matches(&FileQuery::parse("budget dir:downloads"), &entry));
}

#[test]
fn name_filter_matches_file_name_not_parent_only() {
    let matcher = FileMatcher::default();
    let entry = entry("/Users/frank/test-fixtures/report.md");

    assert!(matcher.matches(&FileQuery::parse("name:report"), &entry));
    assert!(!matcher.matches(&FileQuery::parse("name:test-fixtures"), &entry));
}

#[test]
fn dir_filter_supports_contains_and_glob() {
    let matcher = FileMatcher::default();
    let entry = entry("/Users/frank/workspace/QuickFox/README.md");

    assert!(matcher.matches(&FileQuery::parse("dir:workspace"), &entry));
    assert!(matcher.matches(&FileQuery::parse("dir:**/workspace/QuickFox"), &entry));
    assert!(!matcher.matches(&FileQuery::parse("dir:**/Downloads"), &entry));
}

#[test]
fn ordinary_terms_use_precomputed_search_text() {
    let matcher = FileMatcher::default();
    let mut entry = entry("/unrelated/path.bin");
    entry.search_text = "synthetic cached needle".to_owned();

    assert!(matcher.matches(&FileQuery::parse("needle"), &entry));
}

#[test]
fn terms_match_name_segments_fuzzily_and_path_segments_by_prefix() {
    let m = StableNamePathMatcher;
    let e = entry("/Users/frank/projects/quick-fox/main_window.rs");
    let st = e.search_text.clone();
    assert!(m.matches_term("  MAIN ", &e, &st));
    assert!(m.matches_term("wndw", &e, &st));
    assert!(m.matches_term("proj", &e, &st));
    assert!(m.matches_term("frank/projects", &e, &st));
    assert!(!m.matches_term("zzz", &e, &st));
    assert!(m.matches_term("   ", &e, &st));
}

#[test]
fn fuzzy_match_requires_a_tight_span() {
    let m = StableNamePathMatcher;
    let e = entry("/x/abcdefghijklmnopqrstuvwxyz.txt");
    let st = e.search_text.clone();
    assert!(m.matches_term("acf", &e, &st));
    assert!(!m.matches_term("az", &e, &st));
}

#[test]
fn explicit_extension_wins_and_dots_are_trimmed() {
    let matcher = FileMatcher::default();
    let mut e = entry("/x/archive.tar.GZ");
    assert!(matcher.matches(&FileQuery::parse("type:gz"), &e));
    e.extension = Some("..Tar".to_owned());
    assert!(matcher.matches(&FileQuery::parse("type:tar"), &e));
    assert!(!matcher.matches(&FileQuery::parse("type:gz"), &e));
    let no_ext = entry("/x/Makefile");
    assert!(!matcher.matches(&FileQuery::parse("type:make"), &no_ext));
}

#[test]
fn nucleo_scores_matches_and_rejects_misses() {
    let m = NucleoNamePathMatcher;
    assert!(m.score("RDM", "readme.md").is_some());
    assert!(m.score("xyz", "readme.md").is_none());
    assert_eq!(m.score("READ", "README"), m.score("read", "readme"));
}

#[test]
fn invalid_glob_matches_nothing() {
    let matcher = FileMatcher::default();
    let e = entry("/a/b/c.txt");
    assert!(!matcher.matches(&FileQuery::parse("dir:[unclosed"), &e));
    assert!(matcher.matches(&FileQuery::parse("dir:/a/*"), &e));
}
