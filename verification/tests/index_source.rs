use quickfox_core::index_entry::{IndexScanStats, PathComparisonMode};
use quickfox_core::index_source::{
    compress_covered_roots, compress_covered_roots_for_mode, compress_windows_covered_roots,
    normalize_windows_path_text, IndexSourceError, IndexSourceKind, IndexSourcePhase,
    IndexSourceProgress, IndexSourceResume,
};

fn paths(v: &[&str]) -> Vec<String> {
    v.iter().map(|p| (*p).to_owned()).collect()
}

#[test]
fn windows_path_normalization_handles_case_separators_and_device_prefixes() {
    assert_eq!(normalize_windows_path_text(r"C:\Users\Frank\"), "c:/users/frank");
    assert_eq!(normalize_windows_path_text(r"\\?\C:\DATA\A"), "c:/data/a");
    assert_eq!(
        normalize_windows_path_text(r"\\?\UNC\Server\Share\Folder"),
        "//server/share/folder"
    );
}

#[test]
fn windows_root_compression_removes_nested_and_duplicate_spellings() {
    let roots = paths(&[r"C:\Users\Frank\Desktop", "c:/", r"C:\", r"D:\Data", r"D:\Database"]);
    assert_eq!(
        compress_windows_covered_roots(&roots),
        paths(&["c:/", r"D:\Data", r"D:\Database"])
    );
}

#[test]
fn root_compression_observes_component_boundaries() {
    let roots = paths(&["/workspace/app", "/workspace/application", "/workspace"]);
    assert_eq!(compress_covered_roots(&roots), paths(&["/workspace"]));

    let siblings = paths(&["/data/app", "/data/apple"]);
    assert_eq!(compress_covered_roots(&siblings), siblings);
}

#[test]
fn windows_normalization_collapses_separators_and_keeps_drive_roots() {
    assert_eq!(normalize_windows_path_text(r"C:\\Temp\\\x\\"), "c:/temp/x");
    assert_eq!(normalize_windows_path_text("C:/"), "c:/");
    assert_eq!(normalize_windows_path_text(r"\\Server\Share\"), "//server/share");
    assert_eq!(normalize_windows_path_text("/"), "/");
}

#[test]
fn native_compression_trims_trailing_separators_and_keeps_first_duplicate() {
    let roots = paths(&["/srv/data/", "/srv/data", "/srv/other"]);
    assert_eq!(
        compress_covered_roots_for_mode(&roots, PathComparisonMode::Native),
        paths(&["/srv/data/", "/srv/other"])
    );
    let with_root = paths(&["/home/a", "/"]);
    assert_eq!(
        compress_covered_roots_for_mode(&with_root, PathComparisonMode::Native),
        paths(&["/"])
    );
    let case_sensitive = paths(&["/Data", "/data"]);
    assert_eq!(
        compress_covered_roots_for_mode(&case_sensitive, PathComparisonMode::Native),
        case_sensitive
    );
    assert_eq!(
        compress_covered_roots_for_mode(&case_sensitive, PathComparisonMode::Windows),
        paths(&["/Data"])
    );
}

#[test]
fn progress_and_resume_carry_their_inputs() {
    let stats = IndexScanStats { scanned: 3, accepted: 2, skipped: 1, failures: 0 };
    let progress = IndexSourceProgress::new(
        IndexSourceKind::Generic,
        IndexSourcePhase::Enumerating,
        Some("/root"),
        stats,
    );
    assert_eq!(progress.root.as_deref(), Some("/root"));
    assert_eq!(progress.stats, stats);
    let resume = IndexSourceResume::fresh("/root".to_owned());
    assert_eq!(resume.pending_directories, vec!["/root".to_owned()]);
    assert_eq!(resume.completed_stats, IndexScanStats::default());
    assert_eq!(IndexSourceError::Cancelled.message(), "index source scan was cancelled");
}
