use quickfox_core::index::SearchIndex;
use quickfox_core::index_entry::{IndexedEntry, IndexedEntryKind};
use quickfox_core::regex_search::{RegexQuery, RegexSearchOutcome};

fn file_entry(path: &str) -> IndexedEntry {
    IndexedEntry::legacy(path, path.rsplit('/').next().unwrap(), IndexedEntryKind::File)
}

fn regex_names(index: &SearchIndex, pattern: &str, limit: usize, is_visible: impl Fn(&IndexedEntry) -> bool) -> Vec<String> {
    match index.search_regex(pattern, limit, || false, is_visible) {
        RegexSearchOutcome::Matches(positions) => positions.into_iter().map(|p| index.entries()[p].name.clone()).collect(),
        RegexSearchOutcome::InvalidPattern(error) => panic!("invalid pattern {error}"),
        RegexSearchOutcome::Cancelled => panic!("cancelled"),
    }
}

#[test]
fn search_supports_explicit_regex_queries() {
    let index = SearchIndex::from_entries(vec![
        file_entry("/home/frank/report.pdf"),
        file_entry("/home/frank/report.txt"),
    ]);

    let results = regex_names(&index, r".*\.pdf$", usize::MAX, |_| true);

    assert_eq!(results.len(), 1);
    assert_eq!(results[0], "report.pdf");
}

#[test]
fn search_returns_feedback_for_invalid_regex_without_panicking() {
    let index = SearchIndex::from_entries(vec![file_entry("/home/frank/report.pdf")]);

    let outcome = index.search_regex("*bad", usize::MAX, || false, |_| true);

    match outcome {
        RegexSearchOutcome::InvalidPattern(error) => assert!(!error.is_empty()),
        _ => panic!("expected an invalid pattern"),
    }
}

#[test]
fn visibility_filter_precedes_regex_query_limit() {
    let index = SearchIndex::from_entries(vec![
        file_entry("/tmp/hidden-item.md"),
        file_entry("/tmp/visible-item.md"),
    ]);

    let results = regex_names(&index, "item", 1, |entry| entry.name.starts_with("visible"));

    assert_eq!(results.len(), 1);
    assert_eq!(results[0], "visible-item.md");
}

#[test]
fn regex_matches_the_path_as_well_as_the_name() {
    let index = SearchIndex::from_entries(vec![
        file_entry("/projects/alpha/readme.md"),
        file_entry("/projects/beta/notes.md"),
    ]);
    assert_eq!(regex_names(&index, "^/projects/beta/", usize::MAX, |_| true), vec!["notes.md".to_owned()]);
    assert!(regex_names(&index, "gamma", usize::MAX, |_| true).is_empty());
}

#[test]
fn regex_search_stops_at_the_limit_in_index_order() {
    let index = SearchIndex::from_entries(vec![
        file_entry("/a/one.md"),
        file_entry("/a/two.md"),
        file_entry("/a/three.md"),
    ]);
    assert_eq!(regex_names(&index, r"\.md$", 2, |_| true).len(), 2);
    assert!(regex_names(&index, r"\.md$", 0, |_| true).is_empty());
}

#[test]
fn a_compiled_query_matches_name_or_path() {
    let query = RegexQuery::new("^read").unwrap();
    assert!(query.matches_entry(&file_entry("/x/readme.md")));
    assert!(!query.matches_entry(&file_entry("/x/notes.md")));
    assert!(RegexQuery::new("(").is_err());
}
