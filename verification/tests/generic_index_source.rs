use quickfox_core::generic_index_source::{GenericIndexSource, GenericScanMode};
use quickfox_core::index_entry::{IndexScanStats, PathComparisonMode};
use quickfox_core::index_scanner::IndexScanPlan;
use quickfox_core::index_source::{IndexSourceError, IndexSourceKind, IndexSourceResume};

#[test]
fn generic_source_reports_cancellation_explicitly() {
    let result = GenericIndexSource::default().scan_start(IndexScanPlan::default(), None, true);
    assert!(matches!(result, Err(IndexSourceError::Cancelled)));
}

#[test]
fn single_root_without_project_ignores_resumes_a_fresh_frontier() {
    let plan = IndexScanPlan {
        include_roots: vec!["/data".to_owned(), "/data/sub".to_owned()],
        respect_project_ignores: false,
        ..IndexScanPlan::default()
    };
    let start = GenericIndexSource
        .scan_start_for_mode(plan, None, false, PathComparisonMode::Native)
        .unwrap();
    assert_eq!(start.plan.include_roots, vec!["/data".to_owned()]);
    assert_eq!(start.current_root.as_deref(), Some("/data"));
    assert_eq!(
        start.mode,
        GenericScanMode::Resumable(IndexSourceResume {
            pending_directories: vec!["/data".to_owned()],
            completed_stats: IndexScanStats::default(),
        })
    );
    assert_eq!(GenericIndexSource.kind(), IndexSourceKind::Generic);
}

#[test]
fn resume_is_refused_for_several_roots_or_project_ignores() {
    let plan = IndexScanPlan {
        include_roots: vec!["/a".to_owned(), "/b".to_owned()],
        respect_project_ignores: false,
        ..IndexScanPlan::default()
    };
    let resume = IndexSourceResume::fresh("/a".to_owned());
    let result = GenericIndexSource.scan_start_for_mode(plan, Some(resume.clone()), false, PathComparisonMode::Native);
    match result {
        Err(IndexSourceError::Io(message)) => assert_eq!(
            message,
            "generic resume requires exactly one root and project ignore handling disabled"
        ),
        other => panic!("unexpected {other:?}"),
    }
    let ignoring = IndexScanPlan {
        include_roots: vec!["/a".to_owned()],
        ..IndexScanPlan::default()
    };
    assert!(GenericIndexSource
        .scan_start_for_mode(ignoring.clone(), Some(resume), false, PathComparisonMode::Native)
        .is_err());
    let start = GenericIndexSource
        .scan_start_for_mode(ignoring, None, false, PathComparisonMode::Native)
        .unwrap();
    assert_eq!(start.mode, GenericScanMode::Streaming);
}
