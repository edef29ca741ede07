use quickfox_core::index_entry::{
    build_search_text, normalize_path_key, normalize_path_text_key,
    path_is_same_or_descendant_for_mode, IndexAvailability, IndexLifecycle, IndexScanStats,
    IndexStatusKind, IndexedEntry, IndexedEntryKind, PathComparisonMode,
};

#[test]
fn unix_backslash_paths_preserve_case() {
    assert_eq!(normalize_path_text_key(r"A\B"), "A/B");
    assert_eq!(normalize_path_text_key(r"a\b"), "a/b");
    assert_ne!(
        normalize_path_text_key(r"A\B"),
        normalize_path_text_key(r"a\b")
    );
}

#[test]
fn filesystem_roots_match_descendants_without_crossing_path_kinds() {
    assert!(path_is_same_or_descendant_for_mode(
        "/",
        "/tmp/a",
        PathComparisonMode::Native,
    ));
    assert!(!path_is_same_or_descendant_for_mode(
        "/",
        "tmp/a",
        PathComparisonMode::Native,
    ));
    assert!(!path_is_same_or_descendant_for_mode(
        "/",
        r"C:\tmp\a",
        PathComparisonMode::Native,
    ));

    assert!(path_is_same_or_descendant_for_mode(
        "C:/",
        r"c:\tmp\a",
        PathComparisonMode::Windows,
    ));
    assert!(!path_is_same_or_descendant_for_mode(
        "C:/",
        "C:tmp/a",
        PathComparisonMode::Windows,
    ));
    assert!(!path_is_same_or_descendant_for_mode(
        "C:/",
        "D:/tmp/a",
        PathComparisonMode::Windows,
    ));
}

#[test]
fn index_lifecycle_marks_quick_available_before_background_completion() {
    let mut lifecycle = IndexLifecycle::default();
    let generation = lifecycle.start_refresh(false);

    assert!(lifecycle.update_progress(
        generation,
        "user-hot-paths",
        Some("/Users/frank/Downloads".to_owned()),
        IndexScanStats {
            scanned: 12,
            accepted: 3,
            skipped: 1,
            failures: 0,
        },
        3,
    ));

    assert_eq!(lifecycle.status().kind, IndexStatusKind::Building);
    assert_eq!(
        lifecycle.status().availability,
        IndexAvailability::QuickAvailable
    );

    assert!(lifecycle.update_progress(
        generation,
        "configured-roots",
        Some("/Volumes/Data".to_owned()),
        IndexScanStats {
            scanned: 120,
            accepted: 40,
            skipped: 10,
            failures: 1,
        },
        40,
    ));

    assert_eq!(
        lifecycle.status().availability,
        IndexAvailability::Completing
    );
}

#[test]
fn failed_refresh_keeps_available_entry_count() {
    let mut lifecycle = IndexLifecycle::default();
    let generation = lifecycle.start_refresh(false);
    lifecycle.update_progress(
        generation,
        "user-hot-paths",
        None,
        IndexScanStats {
            scanned: 4,
            accepted: 2,
            skipped: 0,
            failures: 0,
        },
        2,
    );

    lifecycle.fail_refresh(generation, "permission denied".to_owned());

    assert_eq!(lifecycle.status().kind, IndexStatusKind::Failed);
    assert_eq!(lifecycle.status().entry_count, 2);
    assert_eq!(
        lifecycle.status().availability,
        IndexAvailability::QuickAvailable
    );
}

#[test]
fn stale_generation_updates_are_ignored() {
    let mut lifecycle = IndexLifecycle::default();
    let first = lifecycle.start_refresh(false);
    let second = lifecycle.start_refresh(true);
    assert!(second > first);

    let stats = IndexScanStats { scanned: 1, accepted: 1, skipped: 0, failures: 0 };
    assert!(!lifecycle.update_progress(first, "user-hot-paths", None, stats, 1));
    assert!(!lifecycle.complete_refresh(first, 5, 10));
    assert!(!lifecycle.fail_refresh(first, "late".to_owned()));
    assert!(lifecycle.complete_refresh(second, 9, 20));
    assert_eq!(lifecycle.status().entry_count, 9);
    assert_eq!(lifecycle.status().kind, IndexStatusKind::Ready);
}

#[test]
fn search_text_joins_name_and_path_in_lower_case() {
    assert_eq!(build_search_text("ReadMe.MD", "/Docs/ReadMe.MD"), "readme.md /docs/readme.md");
    let entry = IndexedEntry::legacy("/A/B.txt", "B.txt", IndexedEntryKind::File);
    assert_eq!(entry.search_text, "b.txt /a/b.txt");
    assert_eq!(entry.depth, 0);
}

#[test]
fn windows_path_keys_fold_case_and_separators() {
    assert!(path_is_same_or_descendant_for_mode(
        r"C:\Users\Frank",
        r"c:/users/frank/docs",
        PathComparisonMode::Windows,
    ));
    assert!(!path_is_same_or_descendant_for_mode(
        r"C:\Users\Frank",
        r"C:\Users\Franklin",
        PathComparisonMode::Windows,
    ));
    let _ = normalize_path_key("/tmp");
}

#[test]
fn entry_from_path_metadata_derives_name_parent_extension_and_depth() {
    let entry = IndexedEntry::from_path_metadata(
        "/root/docs/Report.MD",
        "/root",
        IndexedEntryKind::File,
        Some(5),
        Some(7),
    );
    assert_eq!(entry.name, "Report.MD");
    assert_eq!(entry.parent, "/root/docs");
    assert_eq!(entry.extension.as_deref(), Some("md"));
    assert_eq!(entry.depth, 2);
    assert_eq!(entry.root, "/root");
    assert_eq!(entry.modified_ms, Some(5));
    assert_eq!(entry.size_bytes, Some(7));
    assert_eq!(entry.search_text, build_search_text("Report.MD", "/root/docs/Report.MD"));

    let hidden = IndexedEntry::from_path_metadata("/home/u/.bashrc", "/other", IndexedEntryKind::File, None, None);
    assert_eq!(hidden.extension, None);
    assert_eq!(hidden.depth, 4);
    let root = IndexedEntry::from_path_metadata("/", "/", IndexedEntryKind::Directory, None, None);
    assert_eq!(root.name, "/");
    assert_eq!(root.parent, "");
    assert_eq!(root.depth, 0);
}
